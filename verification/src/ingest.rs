//! Adding the tasks of a submission to the store.

use vstd::prelude::*;
use crate::clientmsg::ClientTaskSpec;
use crate::error::EngineError;
use crate::frames::{MemoryModel, SerializedMemory};
use crate::model::{
    graph_wf, index_wf, is_in_memory, is_live, lemma_unmet_bound, lemma_unmet_same, task_views,
    task_wf, unmet, StateModel, TaskModel,
};
use crate::order::{
    deps_at, has_cycle, is_fresh, is_topological, leans_on, list_views, stuck, topological_order,
};
use crate::plan::{
    batch_keys, batch_views, dep_ids, fresh_lists, fresh_positions, has_duplicate, has_unknown,
    is_new,
    lemma_dep_ids, lemma_fresh, rank, NewTask, NewTaskModel, Plan,
};
use crate::store::Core;
use crate::task::{ascending, Priority, Task, TaskId, TaskRuntimeState};

verus! {

/// Those of the first `n` tasks that are being added which depend on task
/// `d`, in ascending order; the first of the tasks has the id `base`.
pub open spec fn new_dependents(base: nat, lists: Seq<Seq<TaskId>>, d: TaskId, n: int) -> Seq<TaskId>
    decreases n,
{
    if n <= 0 {
        Seq::empty()
    } else if lists[n - 1].contains(d) {
        new_dependents(base, lists, d, n - 1).push((base + n - 1) as TaskId)
    } else {
        new_dependents(base, lists, d, n - 1)
    }
}

/// The record of a task that is added to the tasks `tasks`: it waits if
/// one of its dependencies is not in memory, and is ready otherwise.
pub open spec fn fresh_task(
    id: TaskId,
    entry: NewTaskModel,
    deps: Seq<TaskId>,
    user_priority: Priority,
    tasks: Seq<TaskModel>,
    dependents: Seq<TaskId>,
) -> TaskModel {
    TaskModel {
        id,
        key: entry.key,
        spec: entry.spec,
        dependencies: deps,
        dependents,
        unmet_count: unmet(deps, tasks),
        user_priority,
        client_priority: entry.client_priority,
        scheduler_priority: 0,
        client_owners: Seq::empty(),
        worker_owners: Seq::empty(),
        actors: entry.actors,
        state: if unmet(deps, tasks) > 0 {
            StateModel::Waiting
        } else {
            StateModel::Ready
        },
    }
}

/// The new dependents of task `d` when the first `r` of the tasks that
/// are being added have entered themselves with their dependencies, and
/// the next one with the first `j` of its own.
pub open spec fn wired_dependents(base: nat, lists: Seq<Seq<TaskId>>, d: TaskId, r: int, j: int) -> Seq<
    TaskId,
> {
    new_dependents(base, lists, d, r) + if 0 <= r < lists.len() && lists[r].take(j).contains(d) {
        seq![(base + r) as TaskId]
    } else {
        Seq::empty()
    }
}

/// The tasks while the tasks of a plan are added: all records are there,
/// and the first `r` new tasks have entered themselves with their
/// dependencies, the next one with the first `j` of its own.
pub open spec fn inserting(
    tasks: Seq<TaskModel>,
    batch: Seq<NewTaskModel>,
    positions: Seq<usize>,
    lists: Seq<Seq<TaskId>>,
    user_priority: Priority,
    r: int,
    j: int,
) -> Seq<TaskModel> {
    Seq::new(
        tasks.len() + lists.len(),
        |k: int|
            if k < tasks.len() {
                TaskModel {
                    dependents: tasks[k].dependents + wired_dependents(
                        tasks.len(),
                        lists,
                        k as TaskId,
                        r,
                        j,
                    ),
                    ..tasks[k]
                }
            } else {
                fresh_task(
                    k as TaskId,
                    batch[positions[k - tasks.len()] as int],
                    lists[k - tasks.len()],
                    user_priority,
                    tasks,
                    wired_dependents(tasks.len(), lists, k as TaskId, r, j),
                )
            },
    )
}

/// The tasks once the tasks of a plan are added. The new tasks follow
/// the old ones in the order of the submission. Each task, old or new,
/// has the new tasks that depend on it among its dependents.
pub open spec fn inserted(
    tasks: Seq<TaskModel>,
    batch: Seq<NewTaskModel>,
    positions: Seq<usize>,
    lists: Seq<Seq<TaskId>>,
    user_priority: Priority,
) -> Seq<TaskModel> {
    inserting(tasks, batch, positions, lists, user_priority, lists.len() as int, 0)
}

/// The tasks when the records of the first `q` new tasks are there, and
/// none of them has entered itself with its dependencies.
pub open spec fn staged(
    tasks: Seq<TaskModel>,
    batch: Seq<NewTaskModel>,
    positions: Seq<usize>,
    lists: Seq<Seq<TaskId>>,
    user_priority: Priority,
    q: int,
) -> Seq<TaskModel> {
    tasks + Seq::new(
        q as nat,
        |x: int|
            fresh_task(
                (tasks.len() + x) as TaskId,
                batch[positions[x] as int],
                lists[x],
                user_priority,
                tasks,
                Seq::empty(),
            ),
    )
}

/// The keys once the first `n` new tasks are added.
pub open spec fn inserted_keys(
    keys: Map<Seq<char>, TaskId>,
    base: nat,
    batch: Seq<NewTaskModel>,
    positions: Seq<usize>,
    n: int,
) -> Map<Seq<char>, TaskId>
    decreases n,
{
    if n <= 0 {
        keys
    } else {
        inserted_keys(keys, base, batch, positions, n - 1).insert(
            batch[positions[n - 1] as int].key,
            (base + n - 1) as TaskId,
        )
    }
}

/// Whether a plan fits the store: its tasks have keys that the store
/// does not hold, no two the same, and each depends on stored tasks and
/// on other tasks of the plan, on none twice and not on itself.
pub open spec fn plan_fits(
    tasks: Seq<TaskModel>,
    keys: Map<Seq<char>, TaskId>,
    batch: Seq<NewTaskModel>,
    positions: Seq<usize>,
    lists: Seq<Seq<TaskId>>,
) -> bool {
    &&& positions.len() == lists.len()
    &&& tasks.len() + lists.len() <= usize::MAX
    &&& forall|r: int| 0 <= r < positions.len() ==> #[trigger] positions[r] < batch.len()
    &&& forall|r: int|
        0 <= r < positions.len() ==> !keys.contains_key(batch[#[trigger] positions[r] as int].key)
    &&& forall|a: int, b: int|
        0 <= a < b < positions.len() ==> batch[#[trigger] positions[a] as int].key
            != batch[#[trigger] positions[b] as int].key
    &&& forall|r: int|
        0 <= r < lists.len() ==> (#[trigger] lists[r]).no_duplicates() && !lists[r].contains(
            (tasks.len() + r) as TaskId,
        )
    &&& forall|r: int, j: int|
        0 <= r < lists.len() && 0 <= j < lists[r].len() ==> (#[trigger] lists[r][j]) < tasks.len()
            + lists.len() && (lists[r][j] < tasks.len() ==> is_live(tasks, lists[r][j]))
}

/// Which new tasks depend on a task.
pub proof fn lemma_new_dependents(base: nat, lists: Seq<Seq<TaskId>>, d: TaskId, n: int)
    requires
        0 <= n <= lists.len(),
        base + lists.len() <= u64::MAX,
    ensures
        ascending(new_dependents(base, lists, d, n)),
        forall|x: TaskId|
            new_dependents(base, lists, d, n).contains(x) <==> (base <= x < base + n && lists[x
                - base].contains(d)),
        forall|k: int|
            0 <= k < new_dependents(base, lists, d, n).len() ==> base <= (
            #[trigger] new_dependents(base, lists, d, n)[k]) < base + n,
    decreases n,
{
    if n > 0 {
        lemma_new_dependents(base, lists, d, n - 1);
        let before = new_dependents(base, lists, d, n - 1);
        let now = new_dependents(base, lists, d, n);
        let id = (base + n - 1) as TaskId;
        assert forall|x: TaskId| now.contains(x) <==> (base <= x < base + n && lists[x
            - base].contains(d)) by {
            if now.contains(x) {
                let k = choose|k: int| 0 <= k < now.len() && now[k] == x;
                if k < before.len() {
                    assert(before[k] == x);
                    assert(before.contains(x));
                }
            }
            if base <= x < base + n && lists[x - base].contains(d) {
                if x == id {
                    assert(now[now.len() - 1] == x);
                } else {
                    assert(before.contains(x));
                    let k = choose|k: int| 0 <= k < before.len() && before[k] == x;
                    assert(now[k] == x);
                }
            }
        }
    }
}

/// What a list that was joined from two holds.
pub proof fn lemma_joined(a: Seq<TaskId>, b: Seq<TaskId>, x: TaskId)
    ensures
        (a + b).contains(x) <==> a.contains(x) || b.contains(x),
{
    if (a + b).contains(x) {
        let k = choose|k: int| 0 <= k < (a + b).len() && (a + b)[k] == x;
        if k < a.len() {
            assert(a[k] == x);
        } else {
            assert(b[k - a.len()] == x);
        }
    }
    if a.contains(x) {
        let k = choose|k: int| 0 <= k < a.len() && a[k] == x;
        assert((a + b)[k] == x);
    }
    if b.contains(x) {
        let k = choose|k: int| 0 <= k < b.len() && b[k] == x;
        assert((a + b)[a.len() + k] == x);
    }
}

/// The tasks are in order once the tasks of a plan that fits are added.
pub proof fn lemma_inserted_wf(
    tasks: Seq<TaskModel>,
    keys: Map<Seq<char>, TaskId>,
    batch: Seq<NewTaskModel>,
    positions: Seq<usize>,
    lists: Seq<Seq<TaskId>>,
    user_priority: Priority,
)
    requires
        graph_wf(tasks),
        index_wf(tasks, keys),
        plan_fits(tasks, keys, batch, positions, lists),
    ensures
        graph_wf(inserted(tasks, batch, positions, lists, user_priority)),
        index_wf(
            inserted(tasks, batch, positions, lists, user_priority),
            inserted_keys(keys, tasks.len(), batch, positions, lists.len() as int),
        ),
{
    let base = tasks.len();
    let m = lists.len() as int;
    let after = inserted(tasks, batch, positions, lists, user_priority);
    assert forall|k: int| 0 <= k < after.len() implies {
        &&& (#[trigger] after[k]).id == k
        &&& after[k].dependents == (if k < base {
            tasks[k].dependents
        } else {
            Seq::empty()
        }) + new_dependents(base, lists, k as TaskId, m)
        &&& after[k].dependencies == (if k < base {
            tasks[k].dependencies
        } else {
            lists[k - base]
        })
        &&& (after[k].state is InMemory) == (k < base && tasks[k].state is InMemory)
        &&& !(after[k].state is Released) == (k >= base || !(tasks[k].state is Released))
    } by {
        let w = wired_dependents(base, lists, k as TaskId, m, 0);
        assert(w =~= new_dependents(base, lists, k as TaskId, m));
        if k < base {
            assert(tasks[k].id == k);
        } else {
            assert(after[k].dependents =~= Seq::<TaskId>::empty() + new_dependents(
                base,
                lists,
                k as TaskId,
                m,
            ));
        }
    }
    assert forall|k: int| 0 <= k < after.len() implies after[k].unmet_count == unmet(
        (#[trigger] after[k]).dependencies,
        after,
    ) by {
        let deps = after[k].dependencies;
        assert forall|j: int| 0 <= j < deps.len() implies is_in_memory(tasks, #[trigger] deps[j])
            == is_in_memory(after, deps[j]) by {
            if k < base {
                assert(is_live(tasks, tasks[k].dependencies[j]));
            } else {
                assert(lists[k - base][j] < base + lists.len());
            }
        }
        lemma_unmet_same(deps, tasks, after);
        if k < base {
            assert(tasks[k].unmet_count == unmet(tasks[k].dependencies, tasks));
        }
    }
    assert forall|k: int| 0 <= k < after.len() implies task_wf(#[trigger] after[k]) by {
        lemma_new_dependents(base, lists, k as TaskId, m);
        let fresh = new_dependents(base, lists, k as TaskId, m);
        let t = after[k];
        if k < base {
            assert(task_wf(tasks[k]));
            assert(tasks[k].id == k);
            assert(t.dependencies == tasks[k].dependencies);
            assert(t.client_owners == tasks[k].client_owners);
            assert(t.worker_owners == tasks[k].worker_owners);
            assert(t.state == tasks[k].state);
            assert(t.unmet_count == tasks[k].unmet_count);
            if t.state is Released {
                assert(!fresh.contains(fresh[0]) || fresh.len() == 0) by {
                    if fresh.len() > 0 {
                        let x = fresh[0];
                        assert(fresh.contains(x));
                        let list = lists[x - base];
                        let j = choose|j: int| 0 <= j < list.len() && list[j] == k as TaskId;
                        assert(is_live(tasks, lists[x - base][j]));
                    }
                }
                assert(fresh.len() == 0);
            }
            let old_list = tasks[k].dependents;
            assert forall|a: int, b: int| 0 <= a < b < (old_list + fresh).len() implies (old_list
                + fresh)[a] < (old_list + fresh)[b] by {
                if b < old_list.len() {
                } else if a < old_list.len() {
                    assert(tasks[k].dependents[a] < tasks.len());
                    assert(base <= fresh[b - old_list.len()]);
                } else {
                    assert(fresh[a - old_list.len()] < fresh[b - old_list.len()]);
                }
            }
            assert(ascending(t.dependents));
        } else {
            assert(Seq::<TaskId>::empty() + fresh =~= fresh);
            lemma_unmet_bound(lists[k - base], tasks);
            assert(lists[k - base].no_duplicates());
            assert(!lists[k - base].contains((tasks.len() + (k - base)) as TaskId));
            assert(t.dependencies == lists[k - base]);
            assert(t.id == k);
            assert(ascending(t.dependents));
            assert(t.client_owners.len() == 0);
            assert(t.worker_owners.len() == 0);
        }
    }
    assert forall|i: int, j: int|
        0 <= i < after.len() && 0 <= j < after[i].dependencies.len() implies is_live(
        after,
        #[trigger] after[i].dependencies[j],
    ) by {
        if i < base {
            assert(is_live(tasks, tasks[i].dependencies[j]));
        } else {
            assert(lists[i - base][j] < base + lists.len());
        }
    }
    assert forall|i: int, j: int|
        0 <= i < after.len() && 0 <= j < after[i].dependents.len() implies (
    #[trigger] after[i].dependents[j]) < after.len() by {
        lemma_new_dependents(base, lists, i as TaskId, m);
        let fresh = new_dependents(base, lists, i as TaskId, m);
        if i < base {
            if j < tasks[i].dependents.len() {
                assert(tasks[i].dependents[j] < tasks.len());
            } else {
                assert(fresh[j - tasks[i].dependents.len()] < base + m);
            }
        } else {
            assert(Seq::<TaskId>::empty() + fresh =~= fresh);
            assert(fresh[j] < base + m);
        }
    }
    assert forall|x: TaskId, d: TaskId|
        #![trigger after[x as int].dependencies.contains(d)]
        #![trigger after[d as int].dependents.contains(x)]
        x < after.len() && d < after.len() implies (after[x as int].dependencies.contains(d)
        <==> after[d as int].dependents.contains(x)) by {
        lemma_new_dependents(base, lists, d, m);
        let fresh = new_dependents(base, lists, d, m);
        let old_list = if d < base {
            tasks[d as int].dependents
        } else {
            Seq::empty()
        };
        lemma_joined(old_list, fresh, x);
        if x < base {
            if d < base {
                assert(tasks[x as int].dependencies.contains(d) <==> tasks[d as int].dependents.contains(
                    x,
                ));
            } else {
                if tasks[x as int].dependencies.contains(d) {
                    let j = choose|j: int|
                        0 <= j < tasks[x as int].dependencies.len()
                            && tasks[x as int].dependencies[j] == d;
                    assert(is_live(tasks, tasks[x as int].dependencies[j]));
                }
            }
        } else {
            if d < base && tasks[d as int].dependents.contains(x) {
                let j = choose|j: int|
                    0 <= j < tasks[d as int].dependents.len() && tasks[d as int].dependents[j]
                        == x;
                assert(tasks[d as int].dependents[j] < tasks.len());
            }
        }
    }
    lemma_inserted_keys(tasks, keys, batch, positions, lists, m);
    let added = inserted_keys(keys, base, batch, positions, m);
    assert forall|k: Seq<char>| #[trigger] added.contains_key(k) implies is_live(after, added[k])
        && after[added[k] as int].key == k by {
        if keys.contains_key(k) {
            assert(is_live(tasks, keys[k]));
        }
    }
    assert forall|i: int|
        0 <= i < after.len() && !((#[trigger] after[i]).state is Released) implies added.contains_key(
        after[i].key,
    ) && added[after[i].key] == i by {
        if i < base {
            assert(!(tasks[i].state is Released));
            assert(keys.contains_key(tasks[i].key));
        }
    }
}

/// Where the keys lead once the first `n` new tasks are added.
pub proof fn lemma_inserted_keys(
    tasks: Seq<TaskModel>,
    keys: Map<Seq<char>, TaskId>,
    batch: Seq<NewTaskModel>,
    positions: Seq<usize>,
    lists: Seq<Seq<TaskId>>,
    n: int,
)
    requires
        plan_fits(tasks, keys, batch, positions, lists),
        0 <= n <= positions.len(),
    ensures
        forall|k: Seq<char>|
            keys.contains_key(k) ==> #[trigger] inserted_keys(
                keys,
                tasks.len(),
                batch,
                positions,
                n,
            ).contains_key(k) && inserted_keys(keys, tasks.len(), batch, positions, n)[k]
                == keys[k],
        forall|r: int|
            0 <= r < n ==> inserted_keys(keys, tasks.len(), batch, positions, n).contains_key(
                batch[#[trigger] positions[r] as int].key,
            ) && inserted_keys(
                keys,
                tasks.len(),
                batch,
                positions,
                n,
            )[batch[positions[r] as int].key] == tasks.len() + r,
        forall|k: Seq<char>| #[trigger]
            inserted_keys(keys, tasks.len(), batch, positions, n).contains_key(k)
                ==> keys.contains_key(k) || (tasks.len() <= inserted_keys(
                keys,
                tasks.len(),
                batch,
                positions,
                n,
            )[k] < tasks.len() + n && batch[positions[inserted_keys(
                keys,
                tasks.len(),
                batch,
                positions,
                n,
            )[k] - tasks.len()] as int].key == k),
    decreases n,
{
    if n > 0 {
        lemma_inserted_keys(tasks, keys, batch, positions, lists, n - 1);
        let before = inserted_keys(keys, tasks.len(), batch, positions, n - 1);
        let now = inserted_keys(keys, tasks.len(), batch, positions, n);
        let key = batch[positions[n - 1] as int].key;
        assert(!keys.contains_key(key));
        assert forall|r: int| 0 <= r < n implies now.contains_key(
            batch[#[trigger] positions[r] as int].key,
        ) && now[batch[positions[r] as int].key] == tasks.len() + r by {
            if r < n - 1 {
                assert(batch[positions[r] as int].key != batch[positions[n - 1] as int].key);
            }
        }
    }
}

fn count_unmet(tasks: &Vec<Task>, deps: &Vec<TaskId>, base: usize) -> (count: usize)
    requires
        base <= tasks@.len(),
    ensures
        count == unmet(deps@, task_views(tasks@).take(base as int)),
{
    let ghost known = task_views(tasks@).take(base as int);
    let mut count: usize = 0;
    let mut j: usize = 0;
    while j < deps.len()
        invariant
            j <= deps.len(),
            base <= tasks@.len(),
            known == task_views(tasks@).take(base as int),
            count == unmet(deps@.take(j as int), known),
            count <= j,
        decreases deps.len() - j,
    {
        proof {
            assert(deps@.take(j + 1).drop_last() =~= deps@.take(j as int));
            assert(deps@.take(j + 1).last() == deps@[j as int]);
        }
        let d: TaskId = deps[j];
        let mut held = false;
        if d < base as u64 {
            proof {
                assert(known[d as int] == tasks@[d as int]@);
            }
            held = match tasks[d as usize].state {
                TaskRuntimeState::InMemory(_) => true,
                _ => false,
            };
        }
        if !held {
            count += 1;
        }
        j += 1;
    }
    proof {
        assert(deps@.take(j as int) =~= deps@);
    }
    count
}

impl NewTask {
    /// A task without content, to stand where one was taken away: it has
    /// the empty key and an empty blob for its specification, depends on
    /// nothing, and carries neither a priority nor the mark of actors.
    fn placeholder() -> (task: NewTask)
        ensures
            task@ == (NewTaskModel {
                key: Seq::empty(),
                spec: ClientTaskSpec::Serialized(MemoryModel::Inline(Seq::empty())),
                dependencies: Seq::empty(),
                client_priority: 0,
                actors: None,
            }),
    {
        let task = NewTask {
            key: String::new(),
            spec: ClientTaskSpec::Serialized(SerializedMemory::Inline(Vec::new())),
            dependencies: Vec::new(),
            client_priority: 0,
            actors: None,
        };
        proof {
            assert(task@.key =~= Seq::<char>::empty());
            assert(task@.dependencies =~= Seq::<Seq<char>>::empty());
            assert(task@.spec == ClientTaskSpec::<MemoryModel>::Serialized(
                MemoryModel::Inline(Seq::empty()),
            ));
        }
        task
    }
}

impl Core {
    /// Appends the records of the new tasks of a plan and enters their keys.
    fn stage_tasks(&mut self, batch: Vec<NewTask>, plan: Plan, user_priority: Priority)
        requires
            old(self).wf(),
            plan_fits(
                old(self).tasks_view(),
                old(self).keys_view(),
                batch_views(batch@),
                plan.positions@,
                list_views(plan.lists@),
            ),
        ensures
            final(self).tasks_view() == staged(
                old(self).tasks_view(),
                batch_views(batch@),
                plan.positions@,
                list_views(plan.lists@),
                user_priority,
                plan.lists@.len() as int,
            ),
            final(self).keys_view() == inserted_keys(
                old(self).keys_view(),
                old(self).tasks_view().len(),
                batch_views(batch@),
                plan.positions@,
                plan.lists@.len() as int,
            ),
            final(self).workers_view() == old(self).workers_view(),
            final(self).clients_view() == old(self).clients_view(),
    {
        let ghost tasks = old(self).tasks_view();
        let ghost keys = old(self).keys_view();
        let ghost entries = batch_views(batch@);
        let ghost positions = plan.positions@;
        let ghost lists = list_views(plan.lists@);
        let base: usize = self.tasks.len();
        let count: usize = plan.lists.len();
        let mut batch = batch;
        let mut plan = plan;
        let mut r: usize = 0;
        proof {
            assert(self.tasks_view() =~= staged(tasks, entries, positions, lists, user_priority, 0));
        }
        while r < count
            invariant
                r <= count,
                count == lists.len(),
                base == tasks.len(),
                self.tasks@.len() == base + r,
                plan_fits(tasks, keys, entries, positions, lists),
                plan.positions@ == positions,
                plan.lists@.len() == count,
                batch@.len() == entries.len(),
                forall|q: int| r <= q < count ==> (#[trigger] plan.lists@[q])@ == lists[q],
                forall|q: int|
                    r <= q < count ==> batch@[(#[trigger] positions[q]) as int]@
                        == entries[positions[q] as int],
                self.tasks_view() == staged(tasks, entries, positions, lists, user_priority, r as int),
                self.keys_view() == inserted_keys(keys, base as nat, entries, positions, r as int),
                self.workers_view() == old(self).workers_view(),
                self.clients_view() == old(self).clients_view(),
            decreases count - r,
        {
            let ghost before = self.tasks_view();
            let ghost held = batch@;
            let p: usize = plan.positions[r];
            assert(p < batch.len());
            let mut entry = NewTask::placeholder();
            std::mem::swap(&mut batch[p], &mut entry);
            let mut deps: Vec<TaskId> = Vec::new();
            std::mem::swap(&mut plan.lists[r], &mut deps);
            proof {
                assert(entry@ == entries[p as int]);
                assert(deps@ == lists[r as int]);
                assert(before.take(base as int) =~= tasks);
                lemma_unmet_bound(deps@, tasks);
                assert forall|q: int| r + 1 <= q < count implies batch@[(
                #[trigger] positions[q]) as int]@ == entries[positions[q] as int] by {
                    assert(entries[positions[r as int] as int].key
                        != entries[positions[q] as int].key);
                    assert(batch@[positions[q] as int] == held[positions[q] as int]);
                }
            }
            let unmet_count: usize = count_unmet(&self.tasks, &deps, base);
            let id: TaskId = (base + r) as u64;
            let state = if unmet_count > 0 {
                TaskRuntimeState::Waiting
            } else {
                TaskRuntimeState::Ready
            };
            self.key_index.insert(entry.key.clone(), id);
            let task = Task {
                id,
                key: entry.key,
                spec: entry.spec,
                dependencies: deps,
                dependents: Vec::new(),
                unmet_count,
                user_priority,
                client_priority: entry.client_priority,
                scheduler_priority: 0,
                client_owners: Vec::new(),
                worker_owners: Vec::new(),
                actors: entry.actors,
                state,
            };
            self.tasks.push(task);
            proof {
                let goal = staged(tasks, entries, positions, lists, user_priority, r + 1);
                let now = self.tasks_view();
                assert(now.len() == goal.len());
                assert forall|k: int| 0 <= k < now.len() implies now[k] == goal[k] by {
                    if k < base + r {
                        assert(now[k] == before[k]);
                    } else {
                        assert(now[k] == task@);
                        assert(task@.dependents =~= Seq::<TaskId>::empty());
                        assert(task@.client_owners =~= Seq::<u64>::empty());
                        assert(task@.worker_owners =~= Seq::<u64>::empty());
                    }
                }
                assert(now =~= goal);
            }
            r += 1;
        }
    }

    /// Enters the new task `base + r` among the dependents of each of its dependencies.
    fn wire_task(
        &mut self,
        base: usize,
        r: usize,
        Ghost(tasks): Ghost<Seq<TaskModel>>,
        Ghost(keys): Ghost<Map<Seq<char>, TaskId>>,
        Ghost(entries): Ghost<Seq<NewTaskModel>>,
        Ghost(positions): Ghost<Seq<usize>>,
        Ghost(lists): Ghost<Seq<Seq<TaskId>>>,
        user_priority: Priority,
    )
        requires
            plan_fits(tasks, keys, entries, positions, lists),
            base == tasks.len(),
            r < lists.len(),
            old(self).tasks_view() == inserting(
                tasks,
                entries,
                positions,
                lists,
                user_priority,
                r as int,
                0,
            ),
        ensures
            final(self).tasks_view() == inserting(
                tasks,
                entries,
                positions,
                lists,
                user_priority,
                r + 1,
                0,
            ),
            final(self).keys_view() == old(self).keys_view(),
            final(self).workers_view() == old(self).workers_view(),
            final(self).clients_view() == old(self).clients_view(),
    {
        let total: usize = self.tasks.len();
        assert(self.tasks_view().len() == self.tasks@.len());
        assert(total == base + lists.len());
        let at: usize = base + r;
        let id: TaskId = at as u64;
        proof {
            assert(self.tasks_view()[at as int] == self.tasks@[at as int]@);
        }
        let count: usize = self.tasks[at].dependencies.len();
        let mut j: usize = 0;
        while j < count
            invariant
                j <= count,
                plan_fits(tasks, keys, entries, positions, lists),
                r < lists.len(),
                base == tasks.len(),
                at == base + r,
                id == at,
                count == lists[r as int].len(),
                self.tasks@.len() == base + lists.len(),
                self.tasks_view() == inserting(
                    tasks,
                    entries,
                    positions,
                    lists,
                    user_priority,
                    r as int,
                    j as int,
                ),
                self.keys_view() == old(self).keys_view(),
                self.workers_view() == old(self).workers_view(),
                self.clients_view() == old(self).clients_view(),
            decreases count - j,
        {
            let ghost before = self.tasks_view();
            let ghost records = self.tasks@;
            let ghost deps = lists[r as int];
            proof {
                assert(before[at as int] == self.tasks@[at as int]@);
                assert(before[at as int].dependencies == deps);
                assert(deps[j as int] < base + lists.len());
            }
            let d: TaskId = self.tasks[at].dependencies[j];
            assert(d < self.tasks.len());
            let slot: usize = d as usize;
            proof {
                assert(before[d as int] == self.tasks@[d as int]@);
            }
            self.tasks[slot].dependents.push(id);
            proof {
                let now = self.tasks_view();
                let goal = inserting(tasks, entries, positions, lists, user_priority, r as int, j + 1);
                let prev = deps.take(j as int);
                let next = deps.take(j + 1);
                assert(next =~= prev.push(d));
                assert(!prev.contains(d)) by {
                    if prev.contains(d) {
                        let a = choose|a: int| 0 <= a < prev.len() && prev[a] == d;
                        assert(deps[a] == deps[j as int]);
                    }
                }
                assert(next.contains(d)) by {
                    assert(next[j as int] == d);
                }
                assert forall|k: int| 0 <= k < now.len() implies now[k] == goal[k] by {
                    assert(now[k] == self.tasks@[k]@);
                    assert(before[k] == records[k]@);
                    let was = wired_dependents(base as nat, lists, k as TaskId, r as int, j as int);
                    let is = wired_dependents(base as nat, lists, k as TaskId, r as int, j + 1);
                    if k == d {
                        assert(was =~= new_dependents(base as nat, lists, d, r as int));
                        assert(is =~= new_dependents(base as nat, lists, d, r as int).push(id));
                        assert(now[k].dependents =~= before[k].dependents.push(id));
                        if k < base {
                            assert(goal[k].dependents =~= tasks[k].dependents + is);
                            assert(before[k].dependents =~= tasks[k].dependents + was);
                        }
                    } else {
                        assert(self.tasks@[k] == records[k]);
                        assert(next.contains(k as TaskId) <==> prev.contains(k as TaskId)) by {
                            if next.contains(k as TaskId) {
                                let a = choose|a: int| 0 <= a < next.len() && next[a] == k as TaskId;
                                assert(prev[a] == k as TaskId);
                            }
                            if prev.contains(k as TaskId) {
                                let a = choose|a: int| 0 <= a < prev.len() && prev[a] == k as TaskId;
                                assert(next[a] == k as TaskId);
                            }
                        }
                        assert(was == is);
                    }
                }
                assert(now =~= goal);
            }
            j += 1;
        }
        proof {
            let now = self.tasks_view();
            let goal = inserting(tasks, entries, positions, lists, user_priority, r + 1, 0);
            let deps = lists[r as int];
            assert(deps.take(count as int) =~= deps);
            assert forall|k: int| 0 <= k < now.len() implies now[k] == goal[k] by {
                let was = wired_dependents(base as nat, lists, k as TaskId, r as int, count as int);
                let is = wired_dependents(base as nat, lists, k as TaskId, r + 1, 0);
                if r + 1 < lists.len() {
                    assert(lists[r + 1].take(0) =~= Seq::<TaskId>::empty());
                }
                assert(was =~= is);
            }
            assert(now =~= goal);
        }
    }

    /// Adds the tasks of a plan that fits the store: the new tasks of
    /// the submission `batch`, in their order.
    pub fn insert_planned(&mut self, batch: Vec<NewTask>, plan: Plan, user_priority: Priority)
        requires
            old(self).wf(),
            plan_fits(
                old(self).tasks_view(),
                old(self).keys_view(),
                batch_views(batch@),
                plan.positions@,
                list_views(plan.lists@),
            ),
        ensures
            final(self).wf(),
            final(self).tasks_view() == inserted(
                old(self).tasks_view(),
                batch_views(batch@),
                plan.positions@,
                list_views(plan.lists@),
                user_priority,
            ),
            final(self).keys_view() == inserted_keys(
                old(self).keys_view(),
                old(self).tasks_view().len(),
                batch_views(batch@),
                plan.positions@,
                plan.lists@.len() as int,
            ),
            final(self).workers_view() == old(self).workers_view(),
            final(self).clients_view() == old(self).clients_view(),
    {
        let ghost tasks = old(self).tasks_view();
        let ghost keys = old(self).keys_view();
        let ghost entries = batch_views(batch@);
        let ghost positions = plan.positions@;
        let ghost lists = list_views(plan.lists@);
        let count: usize = plan.lists.len();
        let base: usize = self.tasks.len();
        self.stage_tasks(batch, plan, user_priority);
        proof {
            let now = self.tasks_view();
            let goal = inserting(tasks, entries, positions, lists, user_priority, 0, 0);
            assert(now.len() == goal.len());
            assert forall|k: int| 0 <= k < now.len() implies now[k] == goal[k] by {
                let w = wired_dependents(tasks.len(), lists, k as TaskId, 0, 0);
                if 0 < lists.len() {
                    assert(lists[0].take(0) =~= Seq::<TaskId>::empty());
                }
                assert(w =~= Seq::<TaskId>::empty());
                if k < tasks.len() {
                    assert(tasks[k].dependents + w =~= tasks[k].dependents);
                }
            }
            assert(now =~= goal);
        }
        let mut r: usize = 0;
        while r < count
            invariant
                r <= count,
                count == lists.len(),
                base == tasks.len(),
                plan_fits(tasks, keys, entries, positions, lists),
                self.tasks_view() == inserting(
                    tasks,
                    entries,
                    positions,
                    lists,
                    user_priority,
                    r as int,
                    0,
                ),
                self.keys_view() == inserted_keys(
                    keys,
                    tasks.len(),
                    entries,
                    positions,
                    lists.len() as int,
                ),
                self.workers_view() == old(self).workers_view(),
                self.clients_view() == old(self).clients_view(),
            decreases count - r,
        {
            self.wire_task(
                base,
                r,
                Ghost(tasks),
                Ghost(keys),
                Ghost(entries),
                Ghost(positions),
                Ghost(lists),
                user_priority,
            );
            r += 1;
        }
        proof {
            lemma_inserted_wf(tasks, keys, entries, positions, lists, user_priority);
        }
    }
}

/// Why a submission is turned down by a store with the given tasks and
/// keys, if it is: a key that occurs twice comes first, then an unknown
/// dependency, then a cycle among the new tasks.
pub open spec fn rejection(
    tasks: Seq<TaskModel>,
    keys: Map<Seq<char>, TaskId>,
    batch: Seq<NewTaskModel>,
) -> Option<EngineError> {
    if has_duplicate(batch) {
        Some(EngineError::DuplicateKey)
    } else if has_unknown(keys, batch) {
        Some(EngineError::UnknownDependency)
    } else if has_cycle(
        tasks.len() as TaskId,
        fresh_lists(keys, tasks.len(), batch, batch.len() as int),
    ) {
        Some(EngineError::CyclicDependency)
    } else {
        None
    }
}

/// The tasks once a submission that is not turned down is added.
pub open spec fn added(
    tasks: Seq<TaskModel>,
    keys: Map<Seq<char>, TaskId>,
    batch: Seq<NewTaskModel>,
    user_priority: Priority,
) -> Seq<TaskModel> {
    inserted(
        tasks,
        batch,
        fresh_positions(keys, batch, batch.len() as int),
        fresh_lists(keys, tasks.len(), batch, batch.len() as int),
        user_priority,
    )
}

/// The keys once a submission that is not turned down is added.
pub open spec fn added_keys(
    tasks: Seq<TaskModel>,
    keys: Map<Seq<char>, TaskId>,
    batch: Seq<NewTaskModel>,
) -> Map<Seq<char>, TaskId> {
    inserted_keys(
        keys,
        tasks.len(),
        batch,
        fresh_positions(keys, batch, batch.len() as int),
        rank(keys, batch, batch.len() as int) as int,
    )
}

/// A task that depends on itself makes a cycle.
pub proof fn lemma_self_dependency(base: TaskId, lists: Seq<Seq<TaskId>>, r: int)
    requires
        0 <= r < lists.len(),
        base + lists.len() <= u64::MAX,
        lists[r].contains((base + r) as TaskId),
    ensures
        has_cycle(base, lists),
{
    let id = (base + r) as TaskId;
    let set = Set::<TaskId>::empty().insert(id);
    assert(set.contains(id));
    assert forall|t: TaskId| #[trigger] set.contains(t) implies is_fresh(base, lists.len(), t)
        && leans_on(deps_at(lists, base, t), set) by {
        let deps = deps_at(lists, base, t);
        let j = choose|j: int| 0 <= j < lists[r].len() && lists[r][j] == id;
        assert(set.contains(deps[j]));
    }
    assert(stuck(set, base, lists));
}

/// The plan of a submission that is not turned down fits the store.
pub proof fn lemma_plan_fits(
    tasks: Seq<TaskModel>,
    keys: Map<Seq<char>, TaskId>,
    batch: Seq<NewTaskModel>,
)
    requires
        index_wf(tasks, keys),
        tasks.len() + batch.len() <= usize::MAX,
        rejection(tasks, keys, batch) is None,
    ensures
        plan_fits(
            tasks,
            keys,
            batch,
            fresh_positions(keys, batch, batch.len() as int),
            fresh_lists(keys, tasks.len(), batch, batch.len() as int),
        ),
        fresh_lists(keys, tasks.len(), batch, batch.len() as int).len() == rank(
            keys,
            batch,
            batch.len() as int,
        ),
{
    let n = batch.len() as int;
    let base = tasks.len();
    let positions = fresh_positions(keys, batch, n);
    let lists = fresh_lists(keys, base, batch, n);
    let names = batch_keys(batch);
    lemma_fresh(keys, base, batch, n);
    assert forall|a: int, b: int| 0 <= a < b < positions.len() implies batch[
        #[trigger] positions[a] as int].key != batch[#[trigger] positions[b] as int].key by {
        assert(positions[a] < positions[b]);
        assert(names[positions[a] as int] == batch[positions[a] as int].key);
        assert(names[positions[b] as int] == batch[positions[b] as int].key);
    }
    assert forall|r: int| 0 <= r < lists.len() implies (#[trigger] lists[r]).no_duplicates()
        && !lists[r].contains((tasks.len() + r) as TaskId) && (forall|j: int|
        0 <= j < lists[r].len() ==> (#[trigger] lists[r][j]) < tasks.len() + lists.len() && (
        lists[r][j] < tasks.len() ==> is_live(tasks, lists[r][j]))) by {
        let p = positions[r];
        let deps = batch[p as int].dependencies;
        assert forall|j: int| 0 <= j < deps.len() implies keys.contains_key(#[trigger] deps[j])
            || names.contains(deps[j]) by {
            if !keys.contains_key(deps[j]) && !names.contains(deps[j]) {
                assert(!keys.contains_key(batch[p as int].dependencies[j]));
                assert(has_unknown(keys, batch));
            }
        }
        lemma_dep_ids(tasks, keys, batch, deps);
        assert(lists[r] == dep_ids(keys, base, batch, deps));
        if lists[r].contains((tasks.len() + r) as TaskId) {
            lemma_self_dependency(base as TaskId, lists, r);
        }
    }
}

/// The position of a new task among the new tasks of its submission.
pub proof fn lemma_position_of_new(
    keys: Map<Seq<char>, TaskId>,
    batch: Seq<NewTaskModel>,
    n: int,
    i: int,
)
    requires
        0 <= i < n <= batch.len(),
        batch.len() <= usize::MAX,
        is_new(keys, batch, i),
    ensures
        rank(keys, batch, i) < fresh_positions(keys, batch, n).len(),
        fresh_positions(keys, batch, n)[rank(keys, batch, i) as int] == i,
    decreases n,
{
    lemma_fresh(keys, 0, batch, n - 1);
    lemma_fresh(keys, 0, batch, n);
    if i < n - 1 {
        lemma_position_of_new(keys, batch, n - 1, i);
    }
}

/// A submission none of whose tasks is new has nothing to add.
pub proof fn lemma_nothing_new(keys: Map<Seq<char>, TaskId>, base: nat, batch: Seq<NewTaskModel>, n: int)
    requires
        0 <= n <= batch.len(),
        forall|i: int| 0 <= i < batch.len() ==> keys.contains_key(#[trigger] batch[i].key),
    ensures
        rank(keys, batch, n) == 0,
        fresh_positions(keys, batch, n) == Seq::<usize>::empty(),
        fresh_lists(keys, base, batch, n) == Seq::<Seq<TaskId>>::empty(),
    decreases n,
{
    if n > 0 {
        lemma_nothing_new(keys, base, batch, n - 1);
        assert(keys.contains_key(batch[n - 1].key));
    }
}

/// Submitting the same tasks a second time adds nothing: the submission
/// is not turned down, none of its tasks is new, the tasks and keys of
/// the store stay as they are, and the policy is told of no new task.
pub proof fn lemma_resubmission_adds_nothing(
    tasks: Seq<TaskModel>,
    keys: Map<Seq<char>, TaskId>,
    batch: Seq<NewTaskModel>,
    user_priority: Priority,
    order: Seq<TaskId>,
)
    requires
        index_wf(tasks, keys),
        tasks.len() + batch.len() <= usize::MAX,
        rejection(tasks, keys, batch) is None,
        is_topological(
            order,
            added(tasks, keys, batch, user_priority).len() as TaskId,
            fresh_lists(
                added_keys(tasks, keys, batch),
                added(tasks, keys, batch, user_priority).len(),
                batch,
                batch.len() as int,
            ),
        ),
    ensures
        rejection(
            added(tasks, keys, batch, user_priority),
            added_keys(tasks, keys, batch),
            batch,
        ) is None,
        rank(added_keys(tasks, keys, batch), batch, batch.len() as int) == 0,
        added(
            added(tasks, keys, batch, user_priority),
            added_keys(tasks, keys, batch),
            batch,
            user_priority,
        ) == added(tasks, keys, batch, user_priority),
        added_keys(
            added(tasks, keys, batch, user_priority),
            added_keys(tasks, keys, batch),
            batch,
        ) == added_keys(tasks, keys, batch),
        order.len() == 0,
{
    let n = batch.len() as int;
    let positions = fresh_positions(keys, batch, n);
    let lists = fresh_lists(keys, tasks.len(), batch, n);
    let tasks1 = added(tasks, keys, batch, user_priority);
    let keys1 = added_keys(tasks, keys, batch);
    lemma_plan_fits(tasks, keys, batch);
    lemma_fresh(keys, tasks.len(), batch, n);
    lemma_inserted_keys(tasks, keys, batch, positions, lists, positions.len() as int);
    assert forall|i: int| 0 <= i < batch.len() implies keys1.contains_key(
        #[trigger] batch[i].key,
    ) by {
        if !keys.contains_key(batch[i].key) {
            lemma_position_of_new(keys, batch, n, i);
            let r = rank(keys, batch, i) as int;
            assert(keys1.contains_key(batch[positions[r] as int].key));
        }
    }
    lemma_nothing_new(keys1, tasks1.len(), batch, n);
    if has_unknown(keys1, batch) {
        let (a, j) = choose|a: int, j: int|
            0 <= a < batch.len() && 0 <= j < batch[a].dependencies.len() && !keys1.contains_key(
                #[trigger] batch[a].dependencies[j],
            ) && !batch_keys(batch).contains(batch[a].dependencies[j]);
        let dep = batch[a].dependencies[j];
        if !keys.contains_key(dep) {
            assert(has_unknown(keys, batch));
        }
    }
    let none = Seq::<Seq<TaskId>>::empty();
    let base1 = tasks1.len() as TaskId;
    if has_cycle(base1, none) {
        let set = choose|set: Set<TaskId>| stuck(set, base1, none);
        let t = choose|t: TaskId| set.contains(t);
        assert(is_fresh(base1, none.len(), t));
    }
    let again = added(tasks1, keys1, batch, user_priority);
    assert(again.len() == tasks1.len());
    assert forall|k: int| 0 <= k < again.len() implies again[k] == tasks1[k] by {
        let w = wired_dependents(tasks1.len(), none, k as TaskId, 0, 0);
        assert(w =~= Seq::<TaskId>::empty());
        assert(tasks1[k].dependents + w =~= tasks1[k].dependents);
    }
    assert(again =~= tasks1);
    if order.len() > 0 {
        assert(is_fresh(tasks1.len() as TaskId, none.len(), order[0]));
    }
}

/// In the order in which the policy is told of the new tasks of a
/// submission, each task comes after all of its dependencies: a
/// dependency of a new task was stored before, or precedes the task.
pub proof fn lemma_dependencies_first(
    tasks: Seq<TaskModel>,
    keys: Map<Seq<char>, TaskId>,
    batch: Seq<NewTaskModel>,
    user_priority: Priority,
    order: Seq<TaskId>,
    k: int,
    j: int,
)
    requires
        index_wf(tasks, keys),
        tasks.len() + batch.len() <= usize::MAX,
        rejection(tasks, keys, batch) is None,
        is_topological(
            order,
            tasks.len() as TaskId,
            fresh_lists(keys, tasks.len(), batch, batch.len() as int),
        ),
        0 <= k < order.len(),
        0 <= j < added(tasks, keys, batch, user_priority)[order[k] as int].dependencies.len(),
    ensures
        tasks.len() <= order[k] < added(tasks, keys, batch, user_priority).len(),
        ({
            let d = added(tasks, keys, batch, user_priority)[order[k] as int].dependencies[j];
            d < tasks.len() || order.take(k).contains(d)
        }),
{
    let lists = fresh_lists(keys, tasks.len(), batch, batch.len() as int);
    lemma_plan_fits(tasks, keys, batch);
    assert(is_fresh(tasks.len() as TaskId, lists.len(), order[k]));
    let d = deps_at(lists, tasks.len() as TaskId, order[k])[j];
    if d >= tasks.len() {
        assert(order.take(k).contains(deps_at(lists, tasks.len() as TaskId, order[k])[j]));
    }
}

impl Core {
    /// Adds the tasks of a submission to the store, or turns the whole
    /// submission down and leaves the store as it is. A task whose key
    /// the store holds already is passed over. The tasks that are new
    /// get the next ids, in the order of the submission. Returned are
    /// the ids of the new tasks in an order in which each comes after
    /// its dependencies.
    pub fn add_tasks(&mut self, batch: Vec<NewTask>, user_priority: Priority) -> (added: Result<
        Vec<TaskId>,
        EngineError,
    >)
        requires
            old(self).wf(),
            old(self).tasks_view().len() + batch@.len() <= usize::MAX,
        ensures
            final(self).wf(),
            final(self).workers_view() == old(self).workers_view(),
            final(self).clients_view() == old(self).clients_view(),
            match added {
                Err(e) => {
                    &&& rejection(old(self).tasks_view(), old(self).keys_view(), batch_views(batch@))
                        == Some(e)
                    &&& final(self).tasks_view() == old(self).tasks_view()
                    &&& final(self).keys_view() == old(self).keys_view()
                },
                Ok(order) => {
                    &&& rejection(old(self).tasks_view(), old(self).keys_view(), batch_views(batch@))
                        is None
                    &&& final(self).tasks_view() == self::added(
                        old(self).tasks_view(),
                        old(self).keys_view(),
                        batch_views(batch@),
                        user_priority,
                    )
                    &&& final(self).keys_view() == added_keys(
                        old(self).tasks_view(),
                        old(self).keys_view(),
                        batch_views(batch@),
                    )
                    &&& is_topological(
                        order@,
                        old(self).tasks_view().len() as TaskId,
                        fresh_lists(
                            old(self).keys_view(),
                            old(self).tasks_view().len(),
                            batch_views(batch@),
                            batch@.len() as int,
                        ),
                    )
                },
            },
    {
        let ghost tasks = old(self).tasks_view();
        let ghost keys = old(self).keys_view();
        let ghost entries = batch_views(batch@);
        let plan = match self.plan_batch(&batch) {
            Ok(plan) => plan,
            Err(e) => { return Err(e); },
        };
        let base: usize = self.tasks.len();
        proof {
            lemma_fresh(keys, tasks.len(), entries, entries.len() as int);
            let lists = fresh_lists(keys, tasks.len(), entries, entries.len() as int);
            assert forall|r: int, j: int|
                0 <= r < plan.lists@.len() && 0 <= j < plan.lists@[r]@.len() implies (
            #[trigger] plan.lists@[r]@[j]) < base + plan.lists@.len() by {
                let p = fresh_positions(keys, entries, entries.len() as int)[r];
                let deps = entries[p as int].dependencies;
                assert forall|x: int| 0 <= x < deps.len() implies keys.contains_key(
                    #[trigger] deps[x],
                ) || batch_keys(entries).contains(deps[x]) by {
                    if !keys.contains_key(deps[x]) && !batch_keys(entries).contains(deps[x]) {
                        assert(!keys.contains_key(entries[p as int].dependencies[x]));
                    }
                }
                lemma_dep_ids(tasks, keys, entries, deps);
                assert(list_views(plan.lists@)[r] == plan.lists@[r]@);
                assert(lists[r][j] < tasks.len() + rank(keys, entries, entries.len() as int));
            }
        }
        let order = match topological_order(base as u64, &plan.lists) {
            Some(order) => order,
            None => { return Err(EngineError::CyclicDependency); },
        };
        proof {
            lemma_plan_fits(tasks, keys, entries);
        }
        self.insert_planned(batch, plan, user_priority);
        Ok(order)
    }
}

} // verus!
