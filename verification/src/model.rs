//! The mathematical model of the tasks, and what holds of them at all times.

use vstd::prelude::*;
use crate::clientmsg::ClientTaskSpec;
use crate::frames::MemoryModel;
use crate::task::{
    ascending, ClientId, ErrorInfo, Priority, Task, TaskId, TaskRuntimeState, WorkerId,
};

verus! {

/// Mathematical content of an [`ErrorInfo`].
pub struct ErrorModel {
    pub exception: MemoryModel,
    pub traceback: MemoryModel,
    pub cause: TaskId,
}

/// Mathematical content of a [`TaskRuntimeState`].
pub enum StateModel {
    Waiting,
    Ready,
    Assigned(WorkerId),
    /// In memory, with the type tag of the result.
    InMemory(Seq<u8>),
    Error(ErrorModel),
    Released,
}

/// Mathematical content of a [`Task`].
pub struct TaskModel {
    pub id: TaskId,
    pub key: Seq<char>,
    pub spec: ClientTaskSpec<MemoryModel>,
    pub dependencies: Seq<TaskId>,
    pub dependents: Seq<TaskId>,
    pub unmet_count: nat,
    pub user_priority: Priority,
    pub client_priority: Priority,
    pub scheduler_priority: Priority,
    pub client_owners: Seq<ClientId>,
    pub worker_owners: Seq<WorkerId>,
    pub actors: Option<bool>,
    pub state: StateModel,
}

impl View for ErrorInfo {
    type V = ErrorModel;

    open spec fn view(&self) -> ErrorModel {
        ErrorModel { exception: self.exception@, traceback: self.traceback@, cause: self.cause }
    }
}

impl View for TaskRuntimeState {
    type V = StateModel;

    open spec fn view(&self) -> StateModel {
        match *self {
            TaskRuntimeState::Waiting => StateModel::Waiting,
            TaskRuntimeState::Ready => StateModel::Ready,
            TaskRuntimeState::Assigned(worker) => StateModel::Assigned(worker),
            TaskRuntimeState::InMemory(info) => StateModel::InMemory(info.data_type@),
            TaskRuntimeState::Error(info) => StateModel::Error(info@),
            TaskRuntimeState::Released => StateModel::Released,
        }
    }
}

impl View for Task {
    type V = TaskModel;

    open spec fn view(&self) -> TaskModel {
        TaskModel {
            id: self.id,
            key: self.key@,
            spec: self.spec@,
            dependencies: self.dependencies@,
            dependents: self.dependents@,
            unmet_count: self.unmet_count as nat,
            user_priority: self.user_priority,
            client_priority: self.client_priority,
            scheduler_priority: self.scheduler_priority,
            client_owners: self.client_owners@,
            worker_owners: self.worker_owners@,
            actors: self.actors,
            state: self.state@,
        }
    }
}

/// The content of each task record.
pub open spec fn task_views(tasks: Seq<Task>) -> Seq<TaskModel> {
    tasks.map_values(|t: Task| t@)
}

impl TaskModel {
    /// Whether the task could be removed: nobody asked for it, nothing
    /// needs it, and no worker is running it.
    pub open spec fn is_collectible(self) -> bool {
        &&& self.client_owners.len() == 0
        &&& self.dependents.len() == 0
        &&& !(self.state is Assigned)
        &&& !(self.state is Released)
    }
}

/// Whether `id` names a task that was not removed.
pub open spec fn is_live(tasks: Seq<TaskModel>, id: TaskId) -> bool {
    id < tasks.len() && !(tasks[id as int].state is Released)
}

/// Whether the result of task `id` is held by some worker.
pub open spec fn is_in_memory(tasks: Seq<TaskModel>, id: TaskId) -> bool {
    id < tasks.len() && tasks[id as int].state is InMemory
}

/// The number of the dependencies `deps` that are not in memory.
pub open spec fn unmet(deps: Seq<TaskId>, tasks: Seq<TaskModel>) -> nat
    decreases deps.len(),
{
    if deps.len() == 0 {
        0
    } else {
        unmet(deps.drop_last(), tasks) + if is_in_memory(tasks, deps.last()) {
            0nat
        } else {
            1nat
        }
    }
}

/// What holds of a task by itself.
pub open spec fn task_wf(t: TaskModel) -> bool {
    &&& t.dependencies.no_duplicates()
    &&& !t.dependencies.contains(t.id)
    &&& ascending(t.dependents)
    &&& t.client_owners.no_duplicates()
    &&& t.worker_owners.no_duplicates()
    &&& (t.state is Waiting ==> t.unmet_count > 0)
    &&& (t.state is Ready ==> t.unmet_count == 0)
    &&& (t.state is InMemory <==> t.worker_owners.len() > 0)
    &&& (t.state is Released ==> t.dependencies.len() == 0 && t.dependents.len() == 0
        && t.client_owners.len() == 0)
}

/// Every task by itself is in order and stands at the position that is its id.
pub open spec fn tasks_wf(tasks: Seq<TaskModel>) -> bool {
    forall|i: int| 0 <= i < tasks.len() ==> (#[trigger] tasks[i]).id == i && task_wf(tasks[i])
}

/// Every dependency is a task that was not removed.
pub open spec fn dependencies_wf(tasks: Seq<TaskModel>) -> bool {
    forall|i: int, j: int|
        0 <= i < tasks.len() && 0 <= j < tasks[i].dependencies.len() ==> is_live(
            tasks,
            #[trigger] tasks[i].dependencies[j],
        )
}

/// Every dependent is the id of a task.
pub open spec fn dependents_wf(tasks: Seq<TaskModel>) -> bool {
    forall|i: int, j: int|
        0 <= i < tasks.len() && 0 <= j < tasks[i].dependents.len() ==> (
        #[trigger] tasks[i].dependents[j]) < tasks.len()
}

/// A task is a dependent of exactly the tasks that it depends on.
pub open spec fn symmetric(tasks: Seq<TaskModel>) -> bool {
    forall|t: TaskId, d: TaskId|
        #![trigger tasks[t as int].dependencies.contains(d)]
        #![trigger tasks[d as int].dependents.contains(t)]
        t < tasks.len() && d < tasks.len() ==> (tasks[t as int].dependencies.contains(d)
            <==> tasks[d as int].dependents.contains(t))
}

/// Every task counts the dependencies that are not in memory.
pub open spec fn counts_wf(tasks: Seq<TaskModel>) -> bool {
    forall|i: int|
        0 <= i < tasks.len() ==> (#[trigger] tasks[i]).unmet_count == unmet(
            tasks[i].dependencies,
            tasks,
        )
}

/// What holds of the tasks together.
pub open spec fn graph_wf(tasks: Seq<TaskModel>) -> bool {
    &&& tasks_wf(tasks)
    &&& dependencies_wf(tasks)
    &&& dependents_wf(tasks)
    &&& symmetric(tasks)
    &&& counts_wf(tasks)
}

/// The keys lead to exactly the tasks that were not removed, each to the
/// task that has the key.
pub open spec fn index_wf(tasks: Seq<TaskModel>, keys: Map<Seq<char>, TaskId>) -> bool {
    &&& forall|k: Seq<char>| #[trigger]
        keys.contains_key(k) ==> is_live(tasks, keys[k]) && tasks[keys[k] as int].key == k
    &&& forall|i: int|
        0 <= i < tasks.len() && !((#[trigger] tasks[i]).state is Released) ==> keys.contains_key(
            tasks[i].key,
        ) && keys[tasks[i].key] == i
}

/// Counts agree where the same dependencies are in memory.
pub proof fn lemma_unmet_same(deps: Seq<TaskId>, a: Seq<TaskModel>, b: Seq<TaskModel>)
    requires
        forall|j: int|
            0 <= j < deps.len() ==> is_in_memory(a, #[trigger] deps[j]) == is_in_memory(
                b,
                deps[j],
            ),
    ensures
        unmet(deps, a) == unmet(deps, b),
    decreases deps.len(),
{
    if deps.len() > 0 {
        let front = deps.drop_last();
        assert forall|j: int| 0 <= j < front.len() implies is_in_memory(a, #[trigger] front[j])
            == is_in_memory(b, front[j]) by {
            assert(front[j] == deps[j]);
        }
        lemma_unmet_same(front, a, b);
        assert(deps.last() == deps[deps.len() - 1]);
    }
}

/// The count is at most the number of dependencies.
pub proof fn lemma_unmet_bound(deps: Seq<TaskId>, tasks: Seq<TaskModel>)
    ensures
        unmet(deps, tasks) <= deps.len(),
    decreases deps.len(),
{
    if deps.len() > 0 {
        lemma_unmet_bound(deps.drop_last(), tasks);
    }
}

/// When one task enters or leaves memory, the count of a task that
/// depends on it moves by one, and no other count moves.
pub proof fn lemma_unmet_flip(deps: Seq<TaskId>, a: Seq<TaskModel>, b: Seq<TaskModel>, x: TaskId)
    requires
        deps.no_duplicates(),
        is_in_memory(a, x) != is_in_memory(b, x),
        forall|j: int|
            0 <= j < deps.len() && deps[j] != x ==> is_in_memory(a, #[trigger] deps[j])
                == is_in_memory(b, deps[j]),
    ensures
        unmet(deps, b) == unmet(deps, a) + if !deps.contains(x) {
            0int
        } else if is_in_memory(b, x) {
            -1int
        } else {
            1int
        },
    decreases deps.len(),
{
    if deps.len() > 0 {
        let front = deps.drop_last();
        let last = deps.last();
        assert(deps[deps.len() - 1] == last);
        assert forall|j: int| 0 <= j < front.len() implies front[j] == deps[j] by {}
        if last == x {
            assert(!front.contains(x)) by {
                if front.contains(x) {
                    let k = choose|k: int| 0 <= k < front.len() && front[k] == x;
                    assert(deps[k] == deps[deps.len() - 1]);
                }
            }
            assert forall|j: int| 0 <= j < front.len() implies is_in_memory(
                a,
                #[trigger] front[j],
            ) == is_in_memory(b, front[j]) by {
                assert(front[j] == deps[j]);
                assert(front.contains(front[j]));
            }
            lemma_unmet_same(front, a, b);
            assert(deps.contains(x));
        } else {
            lemma_unmet_flip(front, a, b, x);
            assert(front.contains(x) <==> deps.contains(x)) by {
                if front.contains(x) {
                    let k = choose|k: int| 0 <= k < front.len() && front[k] == x;
                    assert(deps[k] == x);
                }
                if deps.contains(x) {
                    let k = choose|k: int| 0 <= k < deps.len() && deps[k] == x;
                    assert(front[k] == x);
                }
            }
        }
    } else {
        assert(!deps.contains(x));
    }
}

/// The dependencies among `deps` that are not in memory.
pub open spec fn unmet_set(deps: Seq<TaskId>, tasks: Seq<TaskModel>) -> Set<TaskId> {
    Set::new(|d: TaskId| deps.contains(d) && !is_in_memory(tasks, d))
}

/// The count of a list of dependencies that holds none twice is the
/// number of elements of the set of those that are not in memory.
pub proof fn lemma_unmet_is_cardinality(deps: Seq<TaskId>, tasks: Seq<TaskModel>)
    requires
        deps.no_duplicates(),
    ensures
        unmet_set(deps, tasks).finite(),
        unmet(deps, tasks) == unmet_set(deps, tasks).len(),
    decreases deps.len(),
{
    if deps.len() == 0 {
        assert(unmet_set(deps, tasks) =~= Set::<TaskId>::empty());
    } else {
        let front = deps.drop_last();
        let last = deps.last();
        lemma_unmet_is_cardinality(front, tasks);
        assert(deps[deps.len() - 1] == last);
        assert(!front.contains(last)) by {
            if front.contains(last) {
                let k = choose|k: int| 0 <= k < front.len() && front[k] == last;
                assert(deps[k] == deps[deps.len() - 1]);
            }
        }
        assert forall|x: TaskId| deps.contains(x) <==> front.contains(x) || x == last by {
            if deps.contains(x) {
                let k = choose|k: int| 0 <= k < deps.len() && deps[k] == x;
                if k < front.len() {
                    assert(front[k] == x);
                }
            }
            if front.contains(x) {
                let k = choose|k: int| 0 <= k < front.len() && front[k] == x;
                assert(deps[k] == x);
            }
        }
        if is_in_memory(tasks, last) {
            assert(unmet_set(deps, tasks) =~= unmet_set(front, tasks));
        } else {
            assert(unmet_set(deps, tasks) =~= unmet_set(front, tasks).insert(last));
        }
    }
}

/// The record that holds the place of an id that was given out for no
/// task: that of a removed task without a key.
pub open spec fn vacant(id: TaskId) -> TaskModel {
    TaskModel {
        id,
        key: Seq::empty(),
        spec: ClientTaskSpec::Serialized(MemoryModel::Inline(Seq::empty())),
        dependencies: Seq::empty(),
        dependents: Seq::empty(),
        unmet_count: 0,
        user_priority: 0,
        client_priority: 0,
        scheduler_priority: 0,
        client_owners: Seq::empty(),
        worker_owners: Seq::empty(),
        actors: None,
        state: StateModel::Released,
    }
}

/// Giving out an id for no task keeps the tasks in order.
pub proof fn lemma_vacant_wf(tasks: Seq<TaskModel>, keys: Map<Seq<char>, TaskId>)
    requires
        graph_wf(tasks),
        index_wf(tasks, keys),
        tasks.len() < u64::MAX,
    ensures
        graph_wf(tasks.push(vacant(tasks.len() as TaskId))),
        index_wf(tasks.push(vacant(tasks.len() as TaskId)), keys),
{
    let id = tasks.len() as TaskId;
    let after = tasks.push(vacant(id));
    assert forall|i: int| 0 <= i < after.len() implies (#[trigger] after[i]).id == i && task_wf(
        after[i],
    ) && after[i].unmet_count == unmet(after[i].dependencies, after) by {
        if i < tasks.len() {
            assert(tasks[i].id == i);
            assert(tasks[i].unmet_count == unmet(tasks[i].dependencies, tasks));
            assert forall|j: int| 0 <= j < tasks[i].dependencies.len() implies is_in_memory(
                tasks,
                #[trigger] tasks[i].dependencies[j],
            ) == is_in_memory(after, tasks[i].dependencies[j]) by {
                assert(is_live(tasks, tasks[i].dependencies[j]));
            }
            lemma_unmet_same(tasks[i].dependencies, tasks, after);
        }
    }
    assert forall|i: int, j: int|
        0 <= i < after.len() && 0 <= j < after[i].dependencies.len() implies is_live(
        after,
        #[trigger] after[i].dependencies[j],
    ) by {
        assert(is_live(tasks, tasks[i].dependencies[j]));
    }
    assert forall|i: int, j: int|
        0 <= i < after.len() && 0 <= j < after[i].dependents.len() implies (
    #[trigger] after[i].dependents[j]) < after.len() by {
        assert(tasks[i].dependents[j] < tasks.len());
    }
    assert forall|x: TaskId, d: TaskId|
        #![trigger after[x as int].dependencies.contains(d)]
        #![trigger after[d as int].dependents.contains(x)]
        x < after.len() && d < after.len() implies (after[x as int].dependencies.contains(d)
        <==> after[d as int].dependents.contains(x)) by {
        if x < tasks.len() && d < tasks.len() {
            assert(tasks[x as int].dependencies.contains(d) <==> tasks[d as int].dependents.contains(
                x,
            ));
        } else if x < tasks.len() {
            if tasks[x as int].dependencies.contains(d) {
                let j = choose|j: int|
                    0 <= j < tasks[x as int].dependencies.len() && tasks[x as int].dependencies[j]
                        == d;
                assert(is_live(tasks, tasks[x as int].dependencies[j]));
            }
        } else if d < tasks.len() {
            if tasks[d as int].dependents.contains(x) {
                let j = choose|j: int|
                    0 <= j < tasks[d as int].dependents.len() && tasks[d as int].dependents[j]
                        == x;
                assert(tasks[d as int].dependents[j] < tasks.len());
            }
        }
    }
    assert forall|k: Seq<char>| #[trigger] keys.contains_key(k) implies is_live(after, keys[k])
        && after[keys[k] as int].key == k by {
        assert(is_live(tasks, keys[k]));
    }
    assert forall|i: int|
        0 <= i < after.len() && !((#[trigger] after[i]).state is Released) implies keys.contains_key(
        after[i].key,
    ) && keys[after[i].key] == i by {
        assert(!(tasks[i].state is Released));
    }
}

/// Tasks stay in order when each record is replaced by one that is in
/// order by itself, has the same id, key, edges and count, and is in
/// memory, or removed, exactly if the old one was.
pub proof fn lemma_same_graph_keeps_wf(
    a: Seq<TaskModel>,
    b: Seq<TaskModel>,
    keys: Map<Seq<char>, TaskId>,
)
    requires
        graph_wf(a),
        index_wf(a, keys),
        a.len() == b.len(),
        forall|i: int|
            0 <= i < a.len() ==> {
                &&& task_wf(#[trigger] b[i])
                &&& b[i].id == a[i].id
                &&& b[i].key == a[i].key
                &&& b[i].dependencies == a[i].dependencies
                &&& b[i].dependents == a[i].dependents
                &&& b[i].unmet_count == a[i].unmet_count
                &&& (b[i].state is InMemory) == (a[i].state is InMemory)
                &&& (b[i].state is Released) == (a[i].state is Released)
            },
    ensures
        graph_wf(b),
        index_wf(b, keys),
{
    assert forall|i: int| 0 <= i < b.len() implies (#[trigger] b[i]).unmet_count == unmet(
        b[i].dependencies,
        b,
    ) by {
        assert(a[i].unmet_count == unmet(a[i].dependencies, a));
        assert forall|j: int| 0 <= j < b[i].dependencies.len() implies is_in_memory(
            a,
            #[trigger] b[i].dependencies[j],
        ) == is_in_memory(b, b[i].dependencies[j]) by {
            assert(is_live(a, a[i].dependencies[j]));
            assert(task_wf(b[b[i].dependencies[j] as int]));
        }
        lemma_unmet_same(b[i].dependencies, a, b);
    }
    assert forall|i: int, j: int|
        0 <= i < b.len() && 0 <= j < b[i].dependencies.len() implies is_live(
        b,
        #[trigger] b[i].dependencies[j],
    ) by {
        assert(is_live(a, a[i].dependencies[j]));
        assert(task_wf(b[b[i].dependencies[j] as int]));
    }
    assert forall|i: int, j: int|
        0 <= i < b.len() && 0 <= j < b[i].dependents.len() implies (#[trigger] b[i].dependents[j])
        < b.len() by {
        assert(a[i].dependents[j] < a.len());
    }
    assert forall|i: int| 0 <= i < b.len() implies (#[trigger] b[i]).id == i && task_wf(b[i]) by {
        assert(a[i].id == i);
    }
    assert forall|x: TaskId, d: TaskId|
        #![trigger b[x as int].dependencies.contains(d)]
        #![trigger b[d as int].dependents.contains(x)]
        x < b.len() && d < b.len() implies (b[x as int].dependencies.contains(d)
        <==> b[d as int].dependents.contains(x)) by {
        assert(a[x as int].dependencies.contains(d) <==> a[d as int].dependents.contains(x));
        assert(task_wf(b[x as int]));
        assert(task_wf(b[d as int]));
    }
    assert forall|k: Seq<char>| #[trigger] keys.contains_key(k) implies is_live(b, keys[k])
        && b[keys[k] as int].key == k by {
        assert(is_live(a, keys[k]));
        assert(task_wf(b[keys[k] as int]));
    }
    assert forall|i: int|
        0 <= i < b.len() && !((#[trigger] b[i]).state is Released) implies keys.contains_key(
        b[i].key,
    ) && keys[b[i].key] == i by {
        assert(!(a[i].state is Released));
    }
}

/// Replacing the record of a task keeps the tasks in order if the new
/// record is in order by itself, has the same edges and count, and is in
/// memory, or removed, exactly if the old one was.
pub proof fn lemma_update_keeps_wf(tasks: Seq<TaskModel>, at: int, t: TaskModel)
    requires
        graph_wf(tasks),
        0 <= at < tasks.len(),
        task_wf(t),
        t.id == at,
        t.dependencies == tasks[at].dependencies,
        t.dependents == tasks[at].dependents,
        t.unmet_count == tasks[at].unmet_count,
        (t.state is InMemory) == (tasks[at].state is InMemory),
        (t.state is Released) == (tasks[at].state is Released),
    ensures
        graph_wf(tasks.update(at, t)),
{
    let after = tasks.update(at, t);
    assert forall|i: int| 0 <= i < after.len() implies (#[trigger] after[i]).unmet_count == unmet(
        after[i].dependencies,
        after,
    ) by {
        assert(tasks[i].unmet_count == unmet(tasks[i].dependencies, tasks));
        assert forall|j: int| 0 <= j < after[i].dependencies.len() implies is_in_memory(
            tasks,
            #[trigger] after[i].dependencies[j],
        ) == is_in_memory(after, after[i].dependencies[j]) by {}
        lemma_unmet_same(after[i].dependencies, tasks, after);
    }
    assert forall|i: int, j: int|
        0 <= i < after.len() && 0 <= j < after[i].dependencies.len() implies is_live(
        after,
        #[trigger] after[i].dependencies[j],
    ) by {
        assert(is_live(tasks, tasks[i].dependencies[j]));
    }
    assert forall|i: int, j: int|
        0 <= i < after.len() && 0 <= j < after[i].dependents.len() implies (
    #[trigger] after[i].dependents[j]) < after.len() by {
        assert(tasks[i].dependents[j] < tasks.len());
    }
    assert forall|i: int| 0 <= i < after.len() implies (#[trigger] after[i]).id == i && task_wf(
        after[i],
    ) by {
        assert(tasks[i].id == i);
    }
    assert forall|x: TaskId, d: TaskId|
        #![trigger after[x as int].dependencies.contains(d)]
        #![trigger after[d as int].dependents.contains(x)]
        x < after.len() && d < after.len() implies (after[x as int].dependencies.contains(d)
        <==> after[d as int].dependents.contains(x)) by {
        assert(tasks[x as int].dependencies.contains(d) <==> tasks[d as int].dependents.contains(
            x,
        ));
    }
}

/// The keys stay in order when the record of a task is replaced by one
/// with the same key that is removed exactly if the old one was.
pub proof fn lemma_update_keeps_index(
    tasks: Seq<TaskModel>,
    keys: Map<Seq<char>, TaskId>,
    at: int,
    t: TaskModel,
)
    requires
        index_wf(tasks, keys),
        0 <= at < tasks.len(),
        t.key == tasks[at].key,
        (t.state is Released) == (tasks[at].state is Released),
    ensures
        index_wf(tasks.update(at, t), keys),
{
    let after = tasks.update(at, t);
    assert forall|k: Seq<char>| #[trigger] keys.contains_key(k) implies is_live(after, keys[k])
        && after[keys[k] as int].key == k by {
        assert(is_live(tasks, keys[k]));
    }
    assert forall|i: int|
        0 <= i < after.len() && !((#[trigger] after[i]).state is Released) implies keys.contains_key(
        after[i].key,
    ) && keys[after[i].key] == i by {
        assert(!(tasks[i].state is Released));
    }
}

} // verus!
