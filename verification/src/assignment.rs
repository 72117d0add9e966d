//! Assignments of tasks to workers, as the scheduling policy decides them.

use vstd::prelude::*;
use crate::model::{
    graph_wf, index_wf, lemma_update_keeps_index, lemma_update_keeps_wf, task_wf, StateModel,
    TaskModel,
};
use crate::notifications::Notifications;
use crate::store::Core;
use crate::task::{Priority, TaskId, TaskRuntimeState, Worker, WorkerId};

verus! {

/// The decision of the scheduling policy to run a task on a worker.
#[derive(Clone, Copy, Debug, PartialEq, Eq, Structural)]
pub struct TaskAssignment {
    pub task: TaskId,
    pub worker: WorkerId,
    pub priority: Priority,
}

/// Whether an assignment is carried out: its task is ready and its worker
/// is connected. An assignment of an unknown task, of a task that is not
/// ready, or to an unknown worker is dropped.
pub open spec fn assignable(
    tasks: Seq<TaskModel>,
    workers: Seq<Option<Worker>>,
    a: TaskAssignment,
) -> bool {
    &&& a.task < tasks.len()
    &&& tasks[a.task as int].state is Ready
    &&& a.worker < workers.len()
    &&& workers[a.worker as int] is Some
}

/// The tasks once the assignment `a` is carried out.
pub open spec fn assigned(tasks: Seq<TaskModel>, a: TaskAssignment) -> Seq<TaskModel> {
    tasks.update(
        a.task as int,
        TaskModel {
            state: StateModel::Assigned(a.worker),
            scheduler_priority: a.priority,
            ..tasks[a.task as int]
        },
    )
}

/// The tasks once each of the assignments was carried out or dropped, in their order.
pub open spec fn after_assignments(
    tasks: Seq<TaskModel>,
    workers: Seq<Option<Worker>>,
    assignments: Seq<TaskAssignment>,
) -> Seq<TaskModel>
    decreases assignments.len(),
{
    if assignments.len() == 0 {
        tasks
    } else {
        let before = after_assignments(tasks, workers, assignments.drop_last());
        if assignable(before, workers, assignments.last()) {
            assigned(before, assignments.last())
        } else {
            before
        }
    }
}

/// The tasks that workers are told to run, one entry for each assignment
/// that is carried out, in the order of the assignments.
pub open spec fn assignment_messages(
    tasks: Seq<TaskModel>,
    workers: Seq<Option<Worker>>,
    assignments: Seq<TaskAssignment>,
) -> Seq<(WorkerId, TaskId)>
    decreases assignments.len(),
{
    if assignments.len() == 0 {
        Seq::empty()
    } else {
        let before = after_assignments(tasks, workers, assignments.drop_last());
        let sent = assignment_messages(tasks, workers, assignments.drop_last());
        if assignable(before, workers, assignments.last()) {
            sent.push((assignments.last().worker, assignments.last().task))
        } else {
            sent
        }
    }
}

/// The number of entries that tell some worker to run `task`.
pub open spec fn times_sent(messages: Seq<(WorkerId, TaskId)>, task: TaskId) -> nat
    decreases messages.len(),
{
    if messages.len() == 0 {
        0
    } else {
        times_sent(messages.drop_last(), task) + if messages.last().1 == task {
            1nat
        } else {
            0nat
        }
    }
}

/// Carrying out an assignment keeps the tasks in order.
pub proof fn lemma_assigned_wf(tasks: Seq<TaskModel>, keys: Map<Seq<char>, TaskId>, a: TaskAssignment)
    requires
        graph_wf(tasks),
        index_wf(tasks, keys),
        a.task < tasks.len(),
        tasks[a.task as int].state is Ready,
    ensures
        graph_wf(assigned(tasks, a)),
        index_wf(assigned(tasks, a), keys),
{
    let old_task = tasks[a.task as int];
    let t = TaskModel {
        state: StateModel::Assigned(a.worker),
        scheduler_priority: a.priority,
        ..old_task
    };
    assert(task_wf(old_task));
    lemma_update_keeps_wf(tasks, a.task as int, t);
    lemma_update_keeps_index(tasks, keys, a.task as int, t);
}

/// While a batch of assignments is processed, a task is handed to a worker
/// at most once: exactly once if it was ready and is assigned afterwards,
/// and then to the worker that its record names; otherwise never. A task
/// that was not ready keeps its state.
pub proof fn lemma_at_most_one_assignment(
    tasks: Seq<TaskModel>,
    workers: Seq<Option<Worker>>,
    assignments: Seq<TaskAssignment>,
    task: TaskId,
)
    requires
        task < tasks.len(),
    ensures
        after_assignments(tasks, workers, assignments).len() == tasks.len(),
        times_sent(assignment_messages(tasks, workers, assignments), task) == if tasks[task as int].state is Ready
            && after_assignments(tasks, workers, assignments)[task as int].state is Assigned {
            1nat
        } else {
            0nat
        },
        !(tasks[task as int].state is Ready) ==> after_assignments(
            tasks,
            workers,
            assignments,
        )[task as int] == tasks[task as int],
        tasks[task as int].state is Ready ==> (after_assignments(
            tasks,
            workers,
            assignments,
        )[task as int].state is Ready || after_assignments(
            tasks,
            workers,
            assignments,
        )[task as int].state is Assigned),
        forall|k: int|
            0 <= k < assignment_messages(tasks, workers, assignments).len()
                && #[trigger] assignment_messages(tasks, workers, assignments)[k].1 == task
                ==> after_assignments(tasks, workers, assignments)[task as int].state
                == StateModel::Assigned(assignment_messages(tasks, workers, assignments)[k].0),
    decreases assignments.len(),
{
    if assignments.len() > 0 {
        lemma_at_most_one_assignment(tasks, workers, assignments.drop_last(), task);
        let before = after_assignments(tasks, workers, assignments.drop_last());
        let sent = assignment_messages(tasks, workers, assignments.drop_last());
        if assignable(before, workers, assignments.last()) {
            let entry = (assignments.last().worker, assignments.last().task);
            assert(sent.push(entry).drop_last() =~= sent);
            assert(sent.push(entry).last() == entry);
        }
    }
}

impl Core {
    /// Carries out one assignment, or drops it. A ready task whose worker
    /// is connected becomes assigned to that worker and takes the
    /// priority that the policy gave it.
    pub fn assign(&mut self, a: TaskAssignment) -> (done: bool)
        requires
            old(self).wf(),
        ensures
            final(self).wf(),
            done == assignable(old(self).tasks_view(), old(self).workers_view(), a),
            final(self).tasks_view() == if done {
                assigned(old(self).tasks_view(), a)
            } else {
                old(self).tasks_view()
            },
            final(self).keys_view() == old(self).keys_view(),
            final(self).workers_view() == old(self).workers_view(),
            final(self).clients_view() == old(self).clients_view(),
    {
        if a.task >= self.tasks.len() as u64 || a.worker >= self.workers.len() as u64 {
            return false;
        }
        let at: usize = a.task as usize;
        let ready = match self.tasks[at].state {
            TaskRuntimeState::Ready => true,
            _ => false,
        };
        if !ready || self.workers[a.worker as usize].is_none() {
            return false;
        }
        let task = &mut self.tasks[at];
        task.state = TaskRuntimeState::Assigned(a.worker);
        task.scheduler_priority = a.priority;
        proof {
            assert(self.tasks_view() =~= assigned(old(self).tasks_view(), a));
            lemma_assigned_wf(old(self).tasks_view(), old(self).keys_view(), a);
        }
        true
    }

    /// Carries out the assignments of the scheduling policy in their
    /// order and records, for each one carried out, that its worker is to
    /// run its task.
    pub fn process_assignments(
        &mut self,
        assignments: &Vec<TaskAssignment>,
        notifications: &mut Notifications,
    )
        requires
            old(self).wf(),
        ensures
            final(self).wf(),
            final(self).tasks_view() == after_assignments(
                old(self).tasks_view(),
                old(self).workers_view(),
                assignments@,
            ),
            final(self).keys_view() == old(self).keys_view(),
            final(self).workers_view() == old(self).workers_view(),
            final(self).clients_view() == old(self).clients_view(),
            final(notifications).compute_tasks@ == old(notifications).compute_tasks@
                + assignment_messages(
                old(self).tasks_view(),
                old(self).workers_view(),
                assignments@,
            ),
            final(notifications).error_tasks == old(notifications).error_tasks,
            final(notifications).in_memory_tasks == old(notifications).in_memory_tasks,
            final(notifications).rejections == old(notifications).rejections,
            final(notifications).delete_keys == old(notifications).delete_keys,
            final(notifications).steal_requests == old(notifications).steal_requests,
            final(notifications).scheduler_events == old(notifications).scheduler_events,
    {
        let mut i: usize = 0;
        while i < assignments.len()
            invariant
                i <= assignments.len(),
                self.wf(),
                self.tasks_view() == after_assignments(
                    old(self).tasks_view(),
                    old(self).workers_view(),
                    assignments@.take(i as int),
                ),
                self.keys_view() == old(self).keys_view(),
                self.workers_view() == old(self).workers_view(),
                self.clients_view() == old(self).clients_view(),
                notifications.compute_tasks@ == old(notifications).compute_tasks@
                    + assignment_messages(
                    old(self).tasks_view(),
                    old(self).workers_view(),
                    assignments@.take(i as int),
                ),
                notifications.error_tasks == old(notifications).error_tasks,
                notifications.in_memory_tasks == old(notifications).in_memory_tasks,
                notifications.rejections == old(notifications).rejections,
                notifications.delete_keys == old(notifications).delete_keys,
                notifications.steal_requests == old(notifications).steal_requests,
                notifications.scheduler_events == old(notifications).scheduler_events,
            decreases assignments.len() - i,
        {
            proof {
                assert(assignments@.take(i + 1).drop_last() =~= assignments@.take(i as int));
            }
            let a = assignments[i];
            if self.assign(a) {
                notifications.compute_tasks.push((a.worker, a.task));
            }
            i += 1;
        }
        proof {
            assert(assignments@.take(i as int) =~= assignments@);
        }
    }
}

} // verus!
