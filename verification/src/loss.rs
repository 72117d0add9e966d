//! What the loss of a worker does to the tasks that it ran or held.

use vstd::prelude::*;
use crate::model::{
    graph_wf, index_wf, is_in_memory, is_live, lemma_unmet_bound, lemma_unmet_flip,
    lemma_update_keeps_index, lemma_update_keeps_wf, task_wf, unmet, StateModel, TaskModel,
};
use crate::notifications::{Notifications, SchedulerEvent};
use crate::store::Core;
use crate::task::{
    lemma_without, list_contains, list_remove, without, TaskId, TaskRuntimeState, WorkerId,
};

verus! {

/// A task of which one more dependency is missing: it counts one more,
/// and waits if it was ready.
pub open spec fn unsatisfied(t: TaskModel) -> TaskModel {
    TaskModel {
        unmet_count: t.unmet_count + 1,
        state: if t.state is Ready {
            StateModel::Waiting
        } else {
            t.state
        },
        ..t
    }
}

/// A task that no worker holds or runs: it waits if a dependency is
/// missing, and is ready otherwise.
pub open spec fn reset_task(t: TaskModel) -> TaskModel {
    TaskModel {
        state: if t.unmet_count > 0 {
            StateModel::Waiting
        } else {
            StateModel::Ready
        },
        worker_owners: Seq::empty(),
        ..t
    }
}

/// The tasks when the result of task `id` is lost and the first `done`
/// of its dependents have taken note.
pub open spec fn forgotten_so_far(tasks: Seq<TaskModel>, id: TaskId, done: int) -> Seq<TaskModel> {
    Seq::new(
        tasks.len(),
        |i: int|
            if i == id {
                reset_task(tasks[i])
            } else if tasks[id as int].dependents.take(done).contains(tasks[i].id) {
                unsatisfied(tasks[i])
            } else {
                tasks[i]
            },
    )
}

/// The tasks once the result of task `id` is lost: the task is pending
/// again, and each of its dependents counts one more missing dependency
/// and waits if it was ready.
pub open spec fn forgotten(tasks: Seq<TaskModel>, id: TaskId) -> Seq<TaskModel> {
    forgotten_so_far(tasks, id, tasks[id as int].dependents.len() as int)
}

/// What the loss of `worker` means for task `id`. If the worker was the
/// last to hold the result, the result is lost. If it was one of several
/// holders, the others remain. If it was running the task, the task is
/// pending again. Otherwise nothing changes.
pub open spec fn lost_at(tasks: Seq<TaskModel>, worker: WorkerId, id: TaskId) -> Seq<TaskModel> {
    let t = tasks[id as int];
    if t.worker_owners.contains(worker) {
        if t.worker_owners.len() == 1 {
            forgotten(tasks, id)
        } else {
            tasks.update(
                id as int,
                TaskModel { worker_owners: without(t.worker_owners, worker), ..t },
            )
        }
    } else if t.state == StateModel::Assigned(worker) {
        tasks.update(id as int, reset_task(t))
    } else {
        tasks
    }
}

/// What the policy is told of task `id` when `worker` is lost: that
/// its result is lost, or that it is ready to be assigned again.
pub open spec fn lost_events_at(tasks: Seq<TaskModel>, worker: WorkerId, id: TaskId) -> Seq<
    SchedulerEvent,
> {
    let t = tasks[id as int];
    if t.worker_owners.contains(worker) {
        if t.worker_owners.len() == 1 {
            seq![SchedulerEvent::LostData(id)]
        } else {
            Seq::empty()
        }
    } else if t.state == StateModel::Assigned(worker) && t.unmet_count == 0 {
        seq![SchedulerEvent::TaskReady(id)]
    } else {
        Seq::empty()
    }
}

/// The tasks once the loss of `worker` was seen to for the first `count` tasks.
pub open spec fn lost_upto(tasks: Seq<TaskModel>, worker: WorkerId, count: nat) -> Seq<TaskModel>
    decreases count,
{
    if count == 0 {
        tasks
    } else {
        lost_at(lost_upto(tasks, worker, (count - 1) as nat), worker, (count - 1) as TaskId)
    }
}

/// What the policy is told while the loss of `worker` is seen to for the first `count` tasks.
pub open spec fn lost_events_upto(tasks: Seq<TaskModel>, worker: WorkerId, count: nat) -> Seq<
    SchedulerEvent,
>
    decreases count,
{
    if count == 0 {
        Seq::empty()
    } else {
        lost_events_upto(tasks, worker, (count - 1) as nat) + lost_events_at(
            lost_upto(tasks, worker, (count - 1) as nat),
            worker,
            (count - 1) as TaskId,
        )
    }
}

/// The tasks once `worker` is gone: no task is held or run by it.
pub open spec fn without_worker(tasks: Seq<TaskModel>, worker: WorkerId) -> Seq<TaskModel> {
    lost_upto(tasks, worker, tasks.len())
}

/// What is known of the dependent at position `k` of a task.
pub proof fn lemma_dependent_at(tasks: Seq<TaskModel>, id: TaskId, k: int)
    requires
        graph_wf(tasks),
        id < tasks.len(),
        0 <= k < tasks[id as int].dependents.len(),
    ensures
        tasks[id as int].dependents[k] < tasks.len(),
        tasks[id as int].dependents[k] != id,
        !tasks[id as int].dependents.take(k).contains(tasks[id as int].dependents[k]),
        tasks[tasks[id as int].dependents[k] as int].id == tasks[id as int].dependents[k],
        tasks[tasks[id as int].dependents[k] as int].dependencies.contains(id),
{
    let dependents = tasks[id as int].dependents;
    let d = dependents[k];
    assert(task_wf(tasks[id as int]));
    assert(dependents.contains(d));
    assert(tasks[d as int].dependencies.contains(id));
    assert(task_wf(tasks[d as int]));
    if dependents.take(k).contains(d) {
        let j = choose|j: int| 0 <= j < dependents.take(k).len() && dependents.take(k)[j] == d;
        assert(dependents[j] < dependents[k]);
    }
}

/// The loss of a result keeps the tasks in order.
pub proof fn lemma_forgotten_wf(tasks: Seq<TaskModel>, keys: Map<Seq<char>, TaskId>, id: TaskId)
    requires
        graph_wf(tasks),
        index_wf(tasks, keys),
        id < tasks.len(),
        tasks[id as int].state is InMemory,
    ensures
        graph_wf(forgotten(tasks, id)),
        index_wf(forgotten(tasks, id), keys),
{
    let after = forgotten(tasks, id);
    let dependents = tasks[id as int].dependents;
    assert(dependents.take(dependents.len() as int) =~= dependents);
    assert(task_wf(tasks[id as int]));
    assert forall|i: int| 0 <= i < tasks.len() implies #[trigger] after[i].dependencies
        == tasks[i].dependencies && after[i].dependents == tasks[i].dependents && after[i].key
        == tasks[i].key && after[i].id == tasks[i].id && (after[i].state is Released)
        == (tasks[i].state is Released) && (i != id ==> (after[i].state is InMemory) == (
    tasks[i].state is InMemory)) by {
        assert(task_wf(tasks[i]));
    }
    assert forall|i: int| 0 <= i < after.len() implies (#[trigger] after[i]).id == i && task_wf(
        after[i],
    ) && after[i].unmet_count == unmet(after[i].dependencies, after) by {
        let deps = tasks[i].dependencies;
        assert(tasks[i].id == i);
        assert(task_wf(tasks[i]));
        assert(tasks[i].unmet_count == unmet(deps, tasks));
        assert forall|j: int| 0 <= j < deps.len() && deps[j] != id implies is_in_memory(
            tasks,
            #[trigger] deps[j],
        ) == is_in_memory(after, deps[j]) by {
            assert(is_live(tasks, tasks[i].dependencies[j]));
        }
        lemma_unmet_flip(deps, tasks, after, id);
        assert(tasks[i].dependencies.contains(id) <==> tasks[id as int].dependents.contains(
            i as TaskId,
        ));
    }
    assert forall|i: int, j: int|
        0 <= i < after.len() && 0 <= j < after[i].dependencies.len() implies is_live(
        after,
        #[trigger] after[i].dependencies[j],
    ) by {
        assert(is_live(tasks, tasks[i].dependencies[j]));
    }
    assert forall|i: int, j: int|
        0 <= i < after.len() && 0 <= j < after[i].dependents.len() implies (
    #[trigger] after[i].dependents[j]) < after.len() by {
        assert(tasks[i].dependents[j] < tasks.len());
    }
    assert forall|x: TaskId, d: TaskId|
        #![trigger after[x as int].dependencies.contains(d)]
        #![trigger after[d as int].dependents.contains(x)]
        x < after.len() && d < after.len() implies (after[x as int].dependencies.contains(d)
        <==> after[d as int].dependents.contains(x)) by {
        assert(tasks[x as int].dependencies.contains(d) <==> tasks[d as int].dependents.contains(
            x,
        ));
    }
    assert forall|k: Seq<char>| #[trigger] keys.contains_key(k) implies is_live(after, keys[k])
        && after[keys[k] as int].key == k by {
        assert(is_live(tasks, keys[k]));
    }
    assert forall|i: int|
        0 <= i < after.len() && !((#[trigger] after[i]).state is Released) implies keys.contains_key(
        after[i].key,
    ) && keys[after[i].key] == i by {
        assert(!(tasks[i].state is Released));
    }
}

/// The count of a dependent of a task in memory stays below the number of
/// its dependencies.
pub proof fn lemma_count_has_room(tasks: Seq<TaskModel>, id: TaskId, d: TaskId)
    requires
        graph_wf(tasks),
        id < tasks.len(),
        d < tasks.len(),
        tasks[id as int].state is InMemory,
        tasks[d as int].dependencies.contains(id),
    ensures
        tasks[d as int].unmet_count < tasks[d as int].dependencies.len(),
{
    let deps = tasks[d as int].dependencies;
    let gone = tasks.update(id as int, reset_task(tasks[id as int]));
    assert(task_wf(tasks[d as int]));
    assert(tasks[d as int].unmet_count == unmet(deps, tasks));
    lemma_unmet_flip(deps, tasks, gone, id);
    lemma_unmet_bound(deps, gone);
}

/// Seeing to the loss of a worker for one task keeps the tasks in order.
pub proof fn lemma_lost_at_wf(
    tasks: Seq<TaskModel>,
    keys: Map<Seq<char>, TaskId>,
    worker: WorkerId,
    id: TaskId,
)
    requires
        graph_wf(tasks),
        index_wf(tasks, keys),
        id < tasks.len(),
    ensures
        graph_wf(lost_at(tasks, worker, id)),
        index_wf(lost_at(tasks, worker, id), keys),
        lost_at(tasks, worker, id).len() == tasks.len(),
{
    let t = tasks[id as int];
    assert(task_wf(t));
    assert(t.id == id);
    if t.worker_owners.contains(worker) {
        if t.worker_owners.len() == 1 {
            lemma_forgotten_wf(tasks, keys, id);
        } else {
            lemma_without(t.worker_owners, worker);
            let u = TaskModel { worker_owners: without(t.worker_owners, worker), ..t };
            lemma_update_keeps_wf(tasks, id as int, u);
            lemma_update_keeps_index(tasks, keys, id as int, u);
        }
    } else if t.state == StateModel::Assigned(worker) {
        lemma_update_keeps_wf(tasks, id as int, reset_task(t));
        lemma_update_keeps_index(tasks, keys, id as int, reset_task(t));
    }
}

impl Core {
    /// Takes note that the results of task `id` are lost: the task is
    /// pending again, and each of its dependents counts one more missing
    /// dependency and waits if it was ready.
    fn forget_result(&mut self, id: TaskId)
        requires
            old(self).wf(),
            id < old(self).tasks_view().len(),
            old(self).tasks_view()[id as int].state is InMemory,
        ensures
            final(self).wf(),
            final(self).tasks_view() == forgotten(old(self).tasks_view(), id),
            final(self).keys_view() == old(self).keys_view(),
            final(self).workers_view() == old(self).workers_view(),
            final(self).clients_view() == old(self).clients_view(),
    {
        let ghost tasks = old(self).tasks_view();
        assert(id < self.tasks.len());
        let at: usize = id as usize;
        proof {
            assert(tasks[id as int] == self.tasks@[id as int]@);
            assert(tasks[id as int].id == id);
        }
        let task = &mut self.tasks[at];
        task.state = if task.unmet_count > 0 {
            TaskRuntimeState::Waiting
        } else {
            TaskRuntimeState::Ready
        };
        task.worker_owners = Vec::new();
        proof {
            assert(self.tasks[at as int].worker_owners@ =~= Seq::<WorkerId>::empty());
            assert(self.tasks_view() =~= forgotten_so_far(tasks, id, 0));
        }
        let dependent_count: usize = self.tasks[at].dependents.len();
        let mut k: usize = 0;
        while k < dependent_count
            invariant
                k <= dependent_count,
                graph_wf(tasks),
                id < tasks.len(),
                at == id,
                tasks[id as int].state is InMemory,
                self.tasks@.len() == tasks.len(),
                dependent_count == tasks[id as int].dependents.len(),
                self.tasks_view() == forgotten_so_far(tasks, id, k as int),
                self.keys_view() == old(self).keys_view(),
                self.workers_view() == old(self).workers_view(),
                self.clients_view() == old(self).clients_view(),
            decreases dependent_count - k,
        {
            let ghost before = self.tasks_view();
            let ghost records = self.tasks@;
            let ghost dependents = tasks[id as int].dependents;
            proof {
                lemma_dependent_at(tasks, id, k as int);
                assert(before[at as int] == self.tasks@[at as int]@);
            }
            let d: TaskId = self.tasks[at].dependents[k];
            assert(d == dependents[k as int]);
            assert(d < self.tasks.len());
            let slot: usize = d as usize;
            proof {
                assert(before[d as int] == self.tasks@[d as int]@);
                assert(before[d as int] == tasks[d as int]);
                lemma_count_has_room(tasks, id, d);
                assert(self.tasks@[d as int].dependencies@.len() == self.tasks[d as int].dependencies.len());
            }
            let dependent = &mut self.tasks[slot];
            dependent.unmet_count = dependent.unmet_count + 1;
            let ready = match dependent.state {
                TaskRuntimeState::Ready => true,
                _ => false,
            };
            if ready {
                dependent.state = TaskRuntimeState::Waiting;
            }
            proof {
                let now = self.tasks_view();
                let goal = forgotten_so_far(tasks, id, k + 1);
                let prev = dependents.take(k as int);
                let next = dependents.take(k + 1);
                assert(next =~= prev.push(d));
                assert forall|i: int| 0 <= i < now.len() implies now[i] == goal[i] by {
                    assert(tasks[i].id == i);
                    assert(now[i] == self.tasks@[i]@);
                    assert(before[i] == records[i]@);
                    if i == d {
                        assert(next[k as int] == d);
                        assert(next.contains(tasks[i].id));
                    } else {
                        assert(self.tasks@[i] == records[i]);
                        if next.contains(tasks[i].id) {
                            let j = choose|j: int| 0 <= j < next.len() && next[j] == tasks[i].id;
                            assert(prev[j] == tasks[i].id);
                        }
                        if prev.contains(tasks[i].id) {
                            let j = choose|j: int| 0 <= j < prev.len() && prev[j] == tasks[i].id;
                            assert(next[j] == tasks[i].id);
                        }
                    }
                }
                assert(now =~= goal);
            }
            k += 1;
        }
        proof {
            let dependents = tasks[id as int].dependents;
            assert(dependents.take(k as int) =~= dependents);
            lemma_forgotten_wf(tasks, old(self).keys_view(), id);
        }
    }

    /// Sees to the loss of `worker` for task `id`, and records what the
    /// policy is told of it.
    pub fn lose_worker_at(&mut self, worker: WorkerId, id: TaskId, notifications: &mut Notifications)
        requires
            old(self).wf(),
            id < old(self).tasks_view().len(),
        ensures
            final(self).wf(),
            final(self).tasks_view() == lost_at(old(self).tasks_view(), worker, id),
            final(self).keys_view() == old(self).keys_view(),
            final(self).workers_view() == old(self).workers_view(),
            final(self).clients_view() == old(self).clients_view(),
            final(notifications).scheduler_events@ == old(notifications).scheduler_events@
                + lost_events_at(old(self).tasks_view(), worker, id),
            final(notifications).error_tasks == old(notifications).error_tasks,
            final(notifications).in_memory_tasks == old(notifications).in_memory_tasks,
            final(notifications).rejections == old(notifications).rejections,
            final(notifications).compute_tasks == old(notifications).compute_tasks,
            final(notifications).delete_keys == old(notifications).delete_keys,
            final(notifications).steal_requests == old(notifications).steal_requests,
    {
        let ghost tasks = old(self).tasks_view();
        let ghost keys = old(self).keys_view();
        assert(id < self.tasks.len());
        let at: usize = id as usize;
        proof {
            assert(tasks[id as int] == self.tasks@[id as int]@);
            assert(task_wf(tasks[id as int]));
            lemma_lost_at_wf(tasks, keys, worker, id);
            assert(old(notifications).scheduler_events@ + Seq::<SchedulerEvent>::empty()
                =~= old(notifications).scheduler_events@);
        }
        if list_contains(&self.tasks[at].worker_owners, worker) {
            if self.tasks[at].worker_owners.len() == 1 {
                self.forget_result(id);
                notifications.scheduler_events.push(SchedulerEvent::LostData(id));
                proof {
                    assert(notifications.scheduler_events@ =~= old(notifications).scheduler_events@
                        + seq![SchedulerEvent::LostData(id)]);
                }
            } else {
                list_remove(&mut self.tasks[at].worker_owners, worker);
                proof {
                    let t = tasks[id as int];
                    assert(self.tasks_view() =~= tasks.update(
                        id as int,
                        TaskModel { worker_owners: without(t.worker_owners, worker), ..t },
                    ));
                }
            }
        } else {
            let running = match self.tasks[at].state {
                TaskRuntimeState::Assigned(w) => w == worker,
                _ => false,
            };
            if running {
                let task = &mut self.tasks[at];
                if task.unmet_count > 0 {
                    task.state = TaskRuntimeState::Waiting;
                } else {
                    task.state = TaskRuntimeState::Ready;
                    notifications.scheduler_events.push(SchedulerEvent::TaskReady(id));
                }
                proof {
                    assert(tasks[id as int].worker_owners =~= Seq::<WorkerId>::empty());
                    assert(self.tasks_view() =~= tasks.update(
                        id as int,
                        reset_task(tasks[id as int]),
                    ));
                    if tasks[id as int].unmet_count == 0 {
                        assert(notifications.scheduler_events@ =~= old(
                            notifications,
                        ).scheduler_events@ + seq![SchedulerEvent::TaskReady(id)]);
                    }
                }
            }
        }
    }

    /// Takes the record of a worker out of the store when its connection
    /// ends. Each task is seen to in ascending order of the ids: a result
    /// that only this worker held is lost, and a task that it was running
    /// is pending again; the policy is told of both. Nothing changes, and
    /// `false` is returned, if no such worker is connected.
    pub fn unregister_worker(&mut self, worker: WorkerId, notifications: &mut Notifications) -> (done:
        bool)
        requires
            old(self).wf(),
        ensures
            final(self).wf(),
            done == old(self).has_worker(worker),
            final(self).tasks_view() == if done {
                without_worker(old(self).tasks_view(), worker)
            } else {
                old(self).tasks_view()
            },
            final(self).keys_view() == old(self).keys_view(),
            final(self).clients_view() == old(self).clients_view(),
            final(self).workers_view() == if done {
                old(self).workers_view().update(worker as int, None)
            } else {
                old(self).workers_view()
            },
            final(notifications).scheduler_events@ == old(notifications).scheduler_events@ + if done {
                lost_events_upto(old(self).tasks_view(), worker, old(self).tasks_view().len())
            } else {
                Seq::empty()
            },
            final(notifications).error_tasks == old(notifications).error_tasks,
            final(notifications).in_memory_tasks == old(notifications).in_memory_tasks,
            final(notifications).rejections == old(notifications).rejections,
            final(notifications).compute_tasks == old(notifications).compute_tasks,
            final(notifications).delete_keys == old(notifications).delete_keys,
            final(notifications).steal_requests == old(notifications).steal_requests,
    {
        let ghost tasks = old(self).tasks_view();
        proof {
            assert(old(notifications).scheduler_events@ + Seq::<SchedulerEvent>::empty()
                =~= old(notifications).scheduler_events@);
        }
        if worker >= self.workers.len() as u64 {
            return false;
        }
        if self.workers[worker as usize].is_none() {
            return false;
        }
        self.workers[worker as usize] = None;
        let count: usize = self.tasks.len();
        let mut i: usize = 0;
        while i < count
            invariant
                i <= count,
                count == tasks.len(),
                self.wf(),
                self.tasks_view().len() == tasks.len(),
                self.tasks_view() == lost_upto(tasks, worker, i as nat),
                self.keys_view() == old(self).keys_view(),
                self.clients_view() == old(self).clients_view(),
                self.workers_view() == old(self).workers_view().update(worker as int, None),
                notifications.scheduler_events@ == old(notifications).scheduler_events@
                    + lost_events_upto(tasks, worker, i as nat),
                notifications.error_tasks == old(notifications).error_tasks,
                notifications.in_memory_tasks == old(notifications).in_memory_tasks,
                notifications.rejections == old(notifications).rejections,
                notifications.compute_tasks == old(notifications).compute_tasks,
                notifications.delete_keys == old(notifications).delete_keys,
                notifications.steal_requests == old(notifications).steal_requests,
            decreases count - i,
        {
            proof {
                lemma_lost_at_wf(self.tasks_view(), self.keys_view(), worker, i as TaskId);
            }
            self.lose_worker_at(worker, i as u64, notifications);
            proof {
                assert(notifications.scheduler_events@ =~= old(notifications).scheduler_events@
                    + lost_events_upto(tasks, worker, (i + 1) as nat));
            }
            i += 1;
        }
        true
    }
}

} // verus!
