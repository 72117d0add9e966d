//! The report of a worker that a task is finished.

use vstd::prelude::*;
use crate::model::{
    graph_wf, index_wf, is_in_memory, is_live, lemma_unmet_flip, task_wf, unmet, StateModel,
    TaskModel,
};
use crate::notifications::{Notifications, SchedulerEvent};
use crate::store::Core;
use crate::task::{
    ascending, ClientId, DataInfo, TaskId, TaskRuntimeState, Worker, WorkerId,
};

verus! {

/// A task of which one more dependency is in memory: it counts one less,
/// and is ready if it waited for that dependency alone.
pub open spec fn satisfied(t: TaskModel) -> TaskModel {
    TaskModel {
        unmet_count: (t.unmet_count - 1) as nat,
        state: if t.state is Waiting && t.unmet_count == 1 {
            StateModel::Ready
        } else {
            t.state
        },
        ..t
    }
}

/// The tasks when task `id` is in memory on `worker` and the first `done`
/// of its dependents have taken note.
pub open spec fn finished_so_far(
    tasks: Seq<TaskModel>,
    id: TaskId,
    worker: WorkerId,
    data: Seq<u8>,
    done: int,
) -> Seq<TaskModel> {
    Seq::new(
        tasks.len(),
        |i: int|
            if i == id {
                TaskModel {
                    state: StateModel::InMemory(data),
                    worker_owners: seq![worker],
                    ..tasks[i]
                }
            } else if tasks[id as int].dependents.take(done).contains(tasks[i].id) {
                satisfied(tasks[i])
            } else {
                tasks[i]
            },
    )
}

/// The tasks once `worker` has reported that task `id` is finished: the
/// task is in memory on that worker, and each of its dependents counts
/// one dependency less and is ready if none is left.
pub open spec fn finished(tasks: Seq<TaskModel>, id: TaskId, worker: WorkerId, data: Seq<u8>) -> Seq<
    TaskModel,
> {
    finished_so_far(tasks, id, worker, data, tasks[id as int].dependents.len() as int)
}

/// What the policy is told when the given dependents lose their last
/// missing dependency: one event for each that becomes ready, in the
/// order of the dependents.
pub open spec fn ready_events(tasks: Seq<TaskModel>, dependents: Seq<TaskId>) -> Seq<SchedulerEvent>
    decreases dependents.len(),
{
    if dependents.len() == 0 {
        Seq::empty()
    } else {
        let before = ready_events(tasks, dependents.drop_last());
        let d = dependents.last();
        if tasks[d as int].state is Waiting && tasks[d as int].unmet_count == 1 {
            before.push(SchedulerEvent::TaskReady(d))
        } else {
            before
        }
    }
}

/// The policy is told of the dependents that become ready through one
/// finished task in ascending order of their ids.
pub proof fn lemma_ready_events_ascend(tasks: Seq<TaskModel>, dependents: Seq<TaskId>)
    requires
        ascending(dependents),
    ensures
        forall|a: int|
            0 <= a < ready_events(tasks, dependents).len() ==> (#[trigger] ready_events(
                tasks,
                dependents,
            )[a]) is TaskReady && dependents.contains(
                ready_events(tasks, dependents)[a]->TaskReady_0,
            ),
        forall|a: int, b: int|
            0 <= a < b < ready_events(tasks, dependents).len() ==> ready_events(
                tasks,
                dependents,
            )[a]->TaskReady_0 < ready_events(tasks, dependents)[b]->TaskReady_0,
    decreases dependents.len(),
{
    if dependents.len() > 0 {
        let front = dependents.drop_last();
        let last = dependents.last();
        lemma_ready_events_ascend(tasks, front);
        let before = ready_events(tasks, front);
        let all = ready_events(tasks, dependents);
        assert forall|a: int| 0 <= a < before.len() implies dependents.contains(
            before[a]->TaskReady_0,
        ) && before[a]->TaskReady_0 < last by {
            let d = before[a]->TaskReady_0;
            assert(front.contains(d));
            let k = choose|k: int| 0 <= k < front.len() && front[k] == d;
            assert(dependents[k] == d);
            assert(dependents[k] < dependents[dependents.len() - 1]);
        }
        assert forall|a: int| 0 <= a < all.len() implies (#[trigger] all[a]) is TaskReady
            && dependents.contains(all[a]->TaskReady_0) by {
            if a < before.len() {
                assert(all[a] == before[a]);
            } else {
                assert(dependents[dependents.len() - 1] == last);
            }
        }
        assert forall|a: int, b: int| 0 <= a < b < all.len() implies all[a]->TaskReady_0
            < all[b]->TaskReady_0 by {
            assert(all[a] == before[a]);
            if b < before.len() {
                assert(all[b] == before[b]);
            }
        }
    }
}

/// One entry about `task` for each of the given clients.
pub open spec fn owner_entries(owners: Seq<ClientId>, task: TaskId) -> Seq<(ClientId, TaskId)> {
    Seq::new(owners.len(), |i: int| (owners[i], task))
}

/// Whether the report of `worker` that the task with the given key is
/// finished, or failed, is taken: the key is known, its task is assigned,
/// and the worker is connected.
pub open spec fn reportable(
    tasks: Seq<TaskModel>,
    keys: Map<Seq<char>, TaskId>,
    workers: Seq<Option<Worker>>,
    key: Seq<char>,
    worker: WorkerId,
) -> bool {
    &&& keys.contains_key(key)
    &&& keys[key] < tasks.len()
    &&& tasks[keys[key] as int].state is Assigned
    &&& worker < workers.len()
    &&& workers[worker as int] is Some
}

/// A task that depends on a task that is not in memory counts at least one.
pub proof fn lemma_unmet_positive(deps: Seq<TaskId>, tasks: Seq<TaskModel>, x: TaskId)
    requires
        deps.contains(x),
        !is_in_memory(tasks, x),
    ensures
        unmet(deps, tasks) > 0,
    decreases deps.len(),
{
    if deps.len() > 0 {
        if deps.last() != x {
            let front = deps.drop_last();
            let k = choose|k: int| 0 <= k < deps.len() && deps[k] == x;
            assert(front[k] == x);
            lemma_unmet_positive(front, tasks, x);
        }
    }
}

/// What is known of the dependent at position `k` of a task that a worker is running.
pub proof fn lemma_dependent_of_running(tasks: Seq<TaskModel>, id: TaskId, k: int)
    requires
        graph_wf(tasks),
        id < tasks.len(),
        !(tasks[id as int].state is InMemory),
        0 <= k < tasks[id as int].dependents.len(),
    ensures
        tasks[id as int].dependents[k] < tasks.len(),
        tasks[id as int].dependents[k] != id,
        !tasks[id as int].dependents.take(k).contains(tasks[id as int].dependents[k]),
        tasks[tasks[id as int].dependents[k] as int].unmet_count > 0,
        tasks[tasks[id as int].dependents[k] as int].id == tasks[id as int].dependents[k],
{
    let dependents = tasks[id as int].dependents;
    let d = dependents[k];
    assert(task_wf(tasks[id as int]));
    assert(dependents.contains(d));
    assert(tasks[d as int].dependencies.contains(id));
    assert(task_wf(tasks[d as int]));
    lemma_unmet_positive(tasks[d as int].dependencies, tasks, id);
    if dependents.take(k).contains(d) {
        let j = choose|j: int| 0 <= j < dependents.take(k).len() && dependents.take(k)[j] == d;
        assert(dependents[j] < dependents[k]);
    }
}

/// A finished task keeps the tasks in order.
pub proof fn lemma_finished_wf(
    tasks: Seq<TaskModel>,
    keys: Map<Seq<char>, TaskId>,
    id: TaskId,
    worker: WorkerId,
    data: Seq<u8>,
)
    requires
        graph_wf(tasks),
        index_wf(tasks, keys),
        id < tasks.len(),
        tasks[id as int].state is Assigned,
    ensures
        graph_wf(finished(tasks, id, worker, data)),
        index_wf(finished(tasks, id, worker, data), keys),
{
    let after = finished(tasks, id, worker, data);
    let dependents = tasks[id as int].dependents;
    assert(dependents.take(dependents.len() as int) =~= dependents);
    assert(task_wf(tasks[id as int]));
    assert forall|i: int| 0 <= i < tasks.len() implies #[trigger] after[i].dependencies
        == tasks[i].dependencies && after[i].dependents == tasks[i].dependents && after[i].key
        == tasks[i].key && after[i].id == tasks[i].id && (after[i].state is Released)
        == (tasks[i].state is Released) && (i != id ==> (after[i].state is InMemory) == (
    tasks[i].state is InMemory)) by {}
    assert forall|i: int| 0 <= i < after.len() implies (#[trigger] after[i]).id == i && task_wf(
        after[i],
    ) && after[i].unmet_count == unmet(after[i].dependencies, after) by {
        let deps = tasks[i].dependencies;
        assert(tasks[i].id == i);
        assert(task_wf(tasks[i]));
        assert(tasks[i].unmet_count == unmet(deps, tasks));
        assert forall|j: int| 0 <= j < deps.len() && deps[j] != id implies is_in_memory(
            tasks,
            #[trigger] deps[j],
        ) == is_in_memory(after, deps[j]) by {
            assert(is_live(tasks, tasks[i].dependencies[j]));
        }
        lemma_unmet_flip(deps, tasks, after, id);
        assert(tasks[i].dependencies.contains(id) <==> tasks[id as int].dependents.contains(
            i as TaskId,
        ));
        if i == id {
            assert(after[i].worker_owners[0] == worker);
        }
    }
    assert forall|i: int, j: int|
        0 <= i < after.len() && 0 <= j < after[i].dependencies.len() implies is_live(
        after,
        #[trigger] after[i].dependencies[j],
    ) by {
        assert(is_live(tasks, tasks[i].dependencies[j]));
    }
    assert forall|i: int, j: int|
        0 <= i < after.len() && 0 <= j < after[i].dependents.len() implies (
    #[trigger] after[i].dependents[j]) < after.len() by {
        assert(tasks[i].dependents[j] < tasks.len());
    }
    assert forall|x: TaskId, d: TaskId|
        #![trigger after[x as int].dependencies.contains(d)]
        #![trigger after[d as int].dependents.contains(x)]
        x < after.len() && d < after.len() implies (after[x as int].dependencies.contains(d)
        <==> after[d as int].dependents.contains(x)) by {
        assert(tasks[x as int].dependencies.contains(d) <==> tasks[d as int].dependents.contains(
            x,
        ));
    }
    assert forall|k: Seq<char>| #[trigger] keys.contains_key(k) implies is_live(after, keys[k])
        && after[keys[k] as int].key == k by {
        assert(is_live(tasks, keys[k]));
    }
    assert forall|i: int|
        0 <= i < after.len() && !((#[trigger] after[i]).state is Released) implies keys.contains_key(
        after[i].key,
    ) && keys[after[i].key] == i by {
        assert(!(tasks[i].state is Released));
    }
}

impl Core {
    /// Takes the report of `worker` that the task with the given key is
    /// finished. The report is dropped, and `false` returned, unless the
    /// key is known, its task is assigned and the worker is connected.
    /// Otherwise the task is in memory on that worker. Each client that
    /// asked for it is owed the news, and the policy is told of each
    /// dependent that became ready, in ascending order of their ids.
    pub fn on_task_finished(
        &mut self,
        worker: WorkerId,
        key: &str,
        data: DataInfo,
        notifications: &mut Notifications,
    ) -> (taken: bool)
        requires
            old(self).wf(),
        ensures
            final(self).wf(),
            taken == reportable(
                old(self).tasks_view(),
                old(self).keys_view(),
                old(self).workers_view(),
                key@,
                worker,
            ),
            final(self).keys_view() == old(self).keys_view(),
            final(self).workers_view() == old(self).workers_view(),
            final(self).clients_view() == old(self).clients_view(),
            final(notifications).error_tasks == old(notifications).error_tasks,
            final(notifications).rejections == old(notifications).rejections,
            final(notifications).compute_tasks == old(notifications).compute_tasks,
            final(notifications).delete_keys == old(notifications).delete_keys,
            final(notifications).steal_requests == old(notifications).steal_requests,
            !taken ==> final(self).tasks_view() == old(self).tasks_view(),
            !taken ==> final(notifications).in_memory_tasks == old(notifications).in_memory_tasks,
            !taken ==> final(notifications).scheduler_events == old(
                notifications,
            ).scheduler_events,
            taken ==> ({
                let tasks = old(self).tasks_view();
                let id = old(self).keys_view()[key@];
                &&& final(self).tasks_view() == finished(tasks, id, worker, data.data_type@)
                &&& final(notifications).in_memory_tasks@ == old(notifications).in_memory_tasks@
                    + owner_entries(tasks[id as int].client_owners, id)
                &&& final(notifications).scheduler_events@ == old(notifications).scheduler_events@
                    + ready_events(tasks, tasks[id as int].dependents)
            }),
    {
        let id: TaskId = match self.key_index.get(key) {
            Some(id) => *id,
            None => { return false; },
        };
        if id >= self.tasks.len() as u64 || worker >= self.workers.len() as u64 {
            return false;
        }
        let at: usize = id as usize;
        let running = match self.tasks[at].state {
            TaskRuntimeState::Assigned(_) => true,
            _ => false,
        };
        if !running || self.workers[worker as usize].is_none() {
            return false;
        }
        let ghost tasks = old(self).tasks_view();
        let ghost content = data.data_type@;
        proof {
            assert(task_wf(tasks[id as int]));
            assert(tasks[id as int].id == id);
        }
        let mut holders: Vec<WorkerId> = Vec::new();
        holders.push(worker);
        let task = &mut self.tasks[at];
        task.state = TaskRuntimeState::InMemory(data);
        task.worker_owners = holders;
        proof {
            assert(self.tasks[at as int].worker_owners@ =~= seq![worker]);
            assert(self.tasks_view() =~= finished_so_far(tasks, id, worker, content, 0));
        }
        let owner_count: usize = self.tasks[at].client_owners.len();
        let mut c: usize = 0;
        while c < owner_count
            invariant
                c <= owner_count,
                at < self.tasks@.len(),
                id < tasks.len(),
                owner_count == self.tasks@[at as int].client_owners@.len(),
                self.tasks@[at as int].client_owners@ == tasks[id as int].client_owners,
                at == id,
                notifications.in_memory_tasks@ == old(notifications).in_memory_tasks@
                    + owner_entries(tasks[id as int].client_owners, id).take(c as int),
                notifications.error_tasks == old(notifications).error_tasks,
                notifications.rejections == old(notifications).rejections,
                notifications.compute_tasks == old(notifications).compute_tasks,
                notifications.delete_keys == old(notifications).delete_keys,
                notifications.steal_requests == old(notifications).steal_requests,
                notifications.scheduler_events == old(notifications).scheduler_events,
            decreases owner_count - c,
        {
            let client: ClientId = self.tasks[at].client_owners[c];
            notifications.in_memory_tasks.push((client, id));
            proof {
                let entries = owner_entries(tasks[id as int].client_owners, id);
                assert(entries.take(c + 1) =~= entries.take(c as int).push(entries[c as int]));
            }
            c += 1;
        }
        proof {
            let entries = owner_entries(tasks[id as int].client_owners, id);
            assert(entries.take(c as int) =~= entries);
        }
        let dependent_count: usize = self.tasks[at].dependents.len();
        let mut k: usize = 0;
        while k < dependent_count
            invariant
                k <= dependent_count,
                graph_wf(tasks),
                id < tasks.len(),
                at == id,
                tasks[id as int].state is Assigned,
                self.tasks@.len() == tasks.len(),
                dependent_count == tasks[id as int].dependents.len(),
                self.tasks_view() == finished_so_far(tasks, id, worker, content, k as int),
                self.keys_view() == old(self).keys_view(),
                self.workers_view() == old(self).workers_view(),
                self.clients_view() == old(self).clients_view(),
                notifications.scheduler_events@ == old(notifications).scheduler_events@
                    + ready_events(tasks, tasks[id as int].dependents.take(k as int)),
                notifications.in_memory_tasks@ == old(notifications).in_memory_tasks@
                    + owner_entries(tasks[id as int].client_owners, id),
                notifications.error_tasks == old(notifications).error_tasks,
                notifications.rejections == old(notifications).rejections,
                notifications.compute_tasks == old(notifications).compute_tasks,
                notifications.delete_keys == old(notifications).delete_keys,
                notifications.steal_requests == old(notifications).steal_requests,
            decreases dependent_count - k,
        {
            let ghost before = self.tasks_view();
            let ghost old_records = self.tasks@;
            let ghost dependents = tasks[id as int].dependents;
            proof {
                lemma_dependent_of_running(tasks, id, k as int);
                assert(dependents.take(k + 1).drop_last() =~= dependents.take(k as int));
                assert(before[id as int].dependents == dependents);
            }
            proof {
                assert(before[at as int] == self.tasks@[at as int]@);
            }
            let d: TaskId = self.tasks[at].dependents[k];
            assert(d == dependents[k as int]);
            assert(d < self.tasks.len());
            let slot: usize = d as usize;
            proof {
                assert(before[d as int] == self.tasks@[d as int]@);
                assert(before[d as int] == tasks[d as int]);
            }
            let dependent = &mut self.tasks[slot];
            dependent.unmet_count = dependent.unmet_count - 1;
            let waiting = match dependent.state {
                TaskRuntimeState::Waiting => true,
                _ => false,
            };
            if waiting && dependent.unmet_count == 0 {
                dependent.state = TaskRuntimeState::Ready;
                notifications.scheduler_events.push(SchedulerEvent::TaskReady(d));
            }
            proof {
                let now = self.tasks_view();
                let goal = finished_so_far(tasks, id, worker, content, k + 1);
                let prev = dependents.take(k as int);
                let next = dependents.take(k + 1);
                assert(next =~= prev.push(d));
                assert forall|i: int| 0 <= i < now.len() implies now[i] == goal[i] by {
                    assert(tasks[i].id == i);
                    assert(now[i] == self.tasks@[i]@);
                    assert(before[i] == old_records[i]@);
                    if i == d {
                        assert(next[k as int] == d);
                        assert(next.contains(tasks[i].id));
                    } else {
                        assert(self.tasks@[i] == old_records[i]);
                        if next.contains(tasks[i].id) {
                            let j = choose|j: int| 0 <= j < next.len() && next[j] == tasks[i].id;
                            assert(prev[j] == tasks[i].id);
                        }
                        if prev.contains(tasks[i].id) {
                            let j = choose|j: int| 0 <= j < prev.len() && prev[j] == tasks[i].id;
                            assert(next[j] == tasks[i].id);
                        }
                    }
                }
                assert(now =~= goal);
            }
            k += 1;
        }
        proof {
            let dependents = tasks[id as int].dependents;
            assert(dependents.take(k as int) =~= dependents);
            lemma_finished_wf(tasks, old(self).keys_view(), id, worker, content);
        }
        true
    }
}

} // verus!
