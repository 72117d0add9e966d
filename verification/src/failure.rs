//! The report of a worker that a task failed, and how the failure spreads.

use vstd::prelude::*;
use crate::completion::{owner_entries, reportable};
use crate::frames::SerializedMemory;
use crate::model::{
    graph_wf, index_wf, lemma_update_keeps_index, lemma_update_keeps_wf, task_wf, ErrorModel,
    StateModel, TaskModel,
};
use crate::notifications::Notifications;
use crate::store::Core;
use crate::task::{list_contains, ClientId, ErrorInfo, TaskId, TaskRuntimeState, WorkerId};

verus! {

/// Whether a task has not been handed to a worker yet.
pub open spec fn is_pending(t: TaskModel) -> bool {
    t.state is Waiting || t.state is Ready
}

/// The number of tasks that have not been handed to a worker yet.
pub open spec fn pending_count(tasks: Seq<TaskModel>) -> nat
    decreases tasks.len(),
{
    if tasks.len() == 0 {
        0
    } else {
        pending_count(tasks.drop_last()) + if is_pending(tasks.last()) {
            1nat
        } else {
            0nat
        }
    }
}

/// The task `t`, failed for the reason `info`.
pub open spec fn failed_task(t: TaskModel, info: ErrorModel) -> TaskModel {
    TaskModel { state: StateModel::Error(info), ..t }
}

/// How replacing one record changes the number of pending tasks.
pub proof fn lemma_pending_update(tasks: Seq<TaskModel>, at: int, t: TaskModel)
    requires
        0 <= at < tasks.len(),
    ensures
        pending_count(tasks.update(at, t)) == pending_count(tasks) - (if is_pending(tasks[at]) {
            1int
        } else {
            0int
        }) + (if is_pending(t) {
            1int
        } else {
            0int
        }),
    decreases tasks.len(),
{
    if at == tasks.len() - 1 {
        assert(tasks.update(at, t).drop_last() =~= tasks.drop_last());
    } else {
        lemma_pending_update(tasks.drop_last(), at, t);
        assert(tasks.update(at, t).drop_last() =~= tasks.drop_last().update(at, t));
    }
}

/// The tasks once a failure has spread from the tasks on `worklist`: the
/// last task of the list fails if it is pending, and then the failure
/// spreads to its dependents; a task that a worker is running, that is in
/// memory or that has failed already keeps its state and stops the spread.
pub open spec fn spread(tasks: Seq<TaskModel>, worklist: Seq<TaskId>, info: ErrorModel) -> Seq<
    TaskModel,
>
    decreases pending_count(tasks), worklist.len(),
{
    if worklist.len() == 0 {
        tasks
    } else {
        let t = worklist.last();
        let rest = worklist.drop_last();
        if t < tasks.len() && is_pending(tasks[t as int]) {
            proof {
                lemma_pending_update(tasks, t as int, failed_task(tasks[t as int], info));
            }
            spread(
                tasks.update(t as int, failed_task(tasks[t as int], info)),
                rest + tasks[t as int].dependents,
                info,
            )
        } else {
            spread(tasks, rest, info)
        }
    }
}

/// The tasks that fail while a failure spreads, in the order in which they fail.
pub open spec fn spread_order(tasks: Seq<TaskModel>, worklist: Seq<TaskId>, info: ErrorModel) -> Seq<
    TaskId,
>
    decreases pending_count(tasks), worklist.len(),
{
    if worklist.len() == 0 {
        Seq::empty()
    } else {
        let t = worklist.last();
        let rest = worklist.drop_last();
        if t < tasks.len() && is_pending(tasks[t as int]) {
            proof {
                lemma_pending_update(tasks, t as int, failed_task(tasks[t as int], info));
            }
            seq![t] + spread_order(
                tasks.update(t as int, failed_task(tasks[t as int], info)),
                rest + tasks[t as int].dependents,
                info,
            )
        } else {
            spread_order(tasks, rest, info)
        }
    }
}

/// The reason for which task `id` and the tasks that wait for it fail.
pub open spec fn failure_of(id: TaskId, exception: SerializedMemory, traceback: SerializedMemory) -> ErrorModel {
    ErrorModel { exception: exception@, traceback: traceback@, cause: id }
}

/// The tasks once task `id` has failed: it is in error, and so is every
/// pending task that depends on it directly or through pending tasks.
pub open spec fn failed(tasks: Seq<TaskModel>, id: TaskId, info: ErrorModel) -> Seq<TaskModel> {
    spread(
        tasks.update(id as int, failed_task(tasks[id as int], info)),
        tasks[id as int].dependents,
        info,
    )
}

/// The tasks that fail with task `id`, in the order in which they fail: first task `id`.
pub open spec fn failed_order(tasks: Seq<TaskModel>, id: TaskId, info: ErrorModel) -> Seq<TaskId> {
    seq![id] + spread_order(
        tasks.update(id as int, failed_task(tasks[id as int], info)),
        tasks[id as int].dependents,
        info,
    )
}

/// The clients that asked for the given tasks, in the order of the tasks.
pub open spec fn all_owners(tasks: Seq<TaskModel>, order: Seq<TaskId>) -> Seq<ClientId>
    decreases order.len(),
{
    if order.len() == 0 {
        Seq::empty()
    } else {
        all_owners(tasks, order.drop_last()) + tasks[order.last() as int].client_owners
    }
}

/// The items of a list, each once, in the order in which they first occur.
pub open spec fn distinct(items: Seq<u64>) -> Seq<u64>
    decreases items.len(),
{
    if items.len() == 0 {
        Seq::empty()
    } else if distinct(items.drop_last()).contains(items.last()) {
        distinct(items.drop_last())
    } else {
        distinct(items.drop_last()).push(items.last())
    }
}

/// For each of the given tasks in turn, one entry for each client that asked for it.
pub open spec fn entries_of(tasks: Seq<TaskModel>, order: Seq<TaskId>) -> Seq<(ClientId, TaskId)>
    decreases order.len(),
{
    if order.len() == 0 {
        Seq::empty()
    } else {
        entries_of(tasks, order.drop_last()) + owner_entries(
            tasks[order.last() as int].client_owners,
            order.last(),
        )
    }
}

/// What clients are owed when the tasks of `order` fail, the first of
/// them being the task that a worker reported: each client that asked for
/// any of them is told once of the reported task, and then each client
/// that asked for one of the others is told of that one.
pub open spec fn failure_entries(tasks: Seq<TaskModel>, order: Seq<TaskId>) -> Seq<
    (ClientId, TaskId),
> {
    owner_entries(distinct(all_owners(tasks, order)), order[0]) + entries_of(tasks, order.skip(1))
}

/// A spreading failure keeps the tasks in order, their number, and
/// everything about each task but its state.
pub proof fn lemma_spread_wf(
    tasks: Seq<TaskModel>,
    keys: Map<Seq<char>, TaskId>,
    worklist: Seq<TaskId>,
    info: ErrorModel,
)
    requires
        graph_wf(tasks),
        index_wf(tasks, keys),
    ensures
        graph_wf(spread(tasks, worklist, info)),
        index_wf(spread(tasks, worklist, info), keys),
        spread(tasks, worklist, info).len() == tasks.len(),
        forall|i: int|
            0 <= i < tasks.len() ==> (#[trigger] spread(tasks, worklist, info)[i]).client_owners
                == tasks[i].client_owners,
        forall|k: int|
            0 <= k < spread_order(tasks, worklist, info).len() ==> (#[trigger] spread_order(
                tasks,
                worklist,
                info,
            )[k]) < tasks.len(),
    decreases pending_count(tasks), worklist.len(),
{
    if worklist.len() > 0 {
        let t = worklist.last();
        let rest = worklist.drop_last();
        if t < tasks.len() && is_pending(tasks[t as int]) {
            let next = tasks.update(t as int, failed_task(tasks[t as int], info));
            lemma_failed_task_wf(tasks, keys, t, info);
            lemma_pending_update(tasks, t as int, failed_task(tasks[t as int], info));
            lemma_spread_wf(next, keys, rest + tasks[t as int].dependents, info);
            let order = spread_order(tasks, worklist, info);
            let later = spread_order(next, rest + tasks[t as int].dependents, info);
            assert(order =~= seq![t] + later);
            assert forall|k: int| 0 <= k < order.len() implies (#[trigger] order[k])
                < tasks.len() by {
                if k > 0 {
                    assert(order[k] == later[k - 1]);
                } else {
                    assert(order[0] == t);
                }
            }
        } else {
            lemma_spread_wf(tasks, keys, rest, info);
            let order = spread_order(tasks, worklist, info);
            let later = spread_order(tasks, rest, info);
            assert(order == later);
            assert forall|k: int| 0 <= k < order.len() implies (#[trigger] order[k])
                < tasks.len() by {
                assert(later[k] < tasks.len());
            }
        }
    } else {
        assert(spread_order(tasks, worklist, info).len() == 0);
    }
}

/// A pending task that fails keeps the tasks in order.
pub proof fn lemma_failed_task_wf(
    tasks: Seq<TaskModel>,
    keys: Map<Seq<char>, TaskId>,
    t: TaskId,
    info: ErrorModel,
)
    requires
        graph_wf(tasks),
        index_wf(tasks, keys),
        t < tasks.len(),
        is_pending(tasks[t as int]) || tasks[t as int].state is Assigned,
    ensures
        graph_wf(tasks.update(t as int, failed_task(tasks[t as int], info))),
        index_wf(tasks.update(t as int, failed_task(tasks[t as int], info)), keys),
{
    assert(task_wf(tasks[t as int]));
    assert(tasks[t as int].id == t);
    lemma_update_keeps_wf(tasks, t as int, failed_task(tasks[t as int], info));
    lemma_update_keeps_index(tasks, keys, t as int, failed_task(tasks[t as int], info));
}

/// Appends the items of `more` to `list`.
pub fn append_ids(list: &mut Vec<u64>, more: &Vec<u64>)
    ensures
        final(list)@ == old(list)@ + more@,
{
    let mut i: usize = 0;
    while i < more.len()
        invariant
            i <= more.len(),
            list@ == old(list)@ + more@.take(i as int),
        decreases more.len() - i,
    {
        list.push(more[i]);
        proof {
            assert(more@.take(i + 1) =~= more@.take(i as int).push(more@[i as int]));
            assert(list@ =~= old(list)@ + more@.take(i + 1));
        }
        i += 1;
    }
    proof {
        assert(more@.take(i as int) =~= more@);
    }
}

/// Appends to `list` those items of `more` that it does not hold yet.
pub fn append_distinct(list: &mut Vec<u64>, more: &Vec<u64>)
    requires
        distinct(old(list)@) == old(list)@,
    ensures
        final(list)@ == distinct(old(list)@ + more@),
{
    let mut i: usize = 0;
    proof {
        assert(old(list)@ + more@.take(0) =~= old(list)@);
    }
    while i < more.len()
        invariant
            i <= more.len(),
            list@ == distinct(old(list)@ + more@.take(i as int)),
        decreases more.len() - i,
    {
        proof {
            let next = old(list)@ + more@.take(i + 1);
            assert(next.drop_last() =~= old(list)@ + more@.take(i as int));
            assert(next.last() == more@[i as int]);
        }
        if !list_contains(list, more[i]) {
            list.push(more[i]);
        }
        i += 1;
    }
    proof {
        assert(more@.take(i as int) =~= more@);
    }
}

/// Records one entry about `task` for each of the given clients.
pub fn push_owner_entries(entries: &mut Vec<(ClientId, TaskId)>, owners: &Vec<ClientId>, task: TaskId)
    ensures
        final(entries)@ == old(entries)@ + owner_entries(owners@, task),
{
    let mut i: usize = 0;
    let ghost all = owner_entries(owners@, task);
    while i < owners.len()
        invariant
            i <= owners.len(),
            all == owner_entries(owners@, task),
            entries@ == old(entries)@ + all.take(i as int),
        decreases owners.len() - i,
    {
        entries.push((owners[i], task));
        proof {
            assert(all.take(i + 1) =~= all.take(i as int).push(all[i as int]));
            assert(entries@ =~= old(entries)@ + all.take(i + 1));
        }
        i += 1;
    }
    proof {
        assert(all.take(i as int) =~= all);
    }
}

impl Core {
    /// Lets a failure spread from the tasks on `worklist`, and returns
    /// the tasks that failed, in the order in which they did.
    pub fn spread_failure(
        &mut self,
        worklist: Vec<TaskId>,
        exception: &SerializedMemory,
        traceback: &SerializedMemory,
        cause: TaskId,
    ) -> (order: Vec<TaskId>)
        requires
            old(self).wf(),
        ensures
            final(self).wf(),
            final(self).tasks_view() == spread(
                old(self).tasks_view(),
                worklist@,
                failure_of(cause, *exception, *traceback),
            ),
            order@ == spread_order(
                old(self).tasks_view(),
                worklist@,
                failure_of(cause, *exception, *traceback),
            ),
            final(self).keys_view() == old(self).keys_view(),
            final(self).workers_view() == old(self).workers_view(),
            final(self).clients_view() == old(self).clients_view(),
    {
        let ghost tasks = old(self).tasks_view();
        let ghost keys = old(self).keys_view();
        let ghost info = failure_of(cause, *exception, *traceback);
        let ghost goal = spread(tasks, worklist@, info);
        let ghost goal_order = spread_order(tasks, worklist@, info);
        let mut worklist = worklist;
        let mut order: Vec<TaskId> = Vec::new();
        proof {
            assert(order@ + goal_order =~= goal_order);
        }
        while worklist.len() > 0
            invariant
                graph_wf(self.tasks_view()),
                index_wf(self.tasks_view(), keys),
                info == failure_of(cause, *exception, *traceback),
                spread(self.tasks_view(), worklist@, info) == goal,
                order@ + spread_order(self.tasks_view(), worklist@, info) == goal_order,
                self.keys_view() == keys,
                self.workers_view() == old(self).workers_view(),
                self.clients_view() == old(self).clients_view(),
            decreases pending_count(self.tasks_view()), worklist@.len(),
        {
            let ghost before = self.tasks_view();
            let ghost list = worklist@;
            let t: TaskId = worklist.pop().unwrap();
            let mut fails = false;
            if t < self.tasks.len() as u64 {
                proof {
                    assert(before[t as int] == self.tasks@[t as int]@);
                }
                fails = match self.tasks[t as usize].state {
                    TaskRuntimeState::Waiting => true,
                    TaskRuntimeState::Ready => true,
                    _ => false,
                };
            }
            if fails {
                let slot: usize = t as usize;
                append_ids(&mut worklist, &self.tasks[slot].dependents);
                self.tasks[slot].state = TaskRuntimeState::Error(
                    ErrorInfo {
                        exception: exception.duplicate(),
                        traceback: traceback.duplicate(),
                        cause,
                    },
                );
                let ghost sofar = order@;
                order.push(t);
                proof {
                    let next = before.update(t as int, failed_task(before[t as int], info));
                    assert(self.tasks_view() =~= next);
                    lemma_failed_task_wf(before, keys, t, info);
                    lemma_pending_update(before, t as int, failed_task(before[t as int], info));
                    assert(worklist@ =~= list.drop_last() + before[t as int].dependents);
                    let later = spread_order(next, worklist@, info);
                    assert(spread_order(before, list, info) == seq![t] + later);
                    assert(order@ + later =~= sofar + (seq![t] + later));
                }
            }
        }
        proof {
            assert(order@ + Seq::<TaskId>::empty() =~= order@);
        }
        order
    }

    /// Records what clients are owed when the tasks of `order` have
    /// failed, the first of them being the task that a worker reported.
    pub fn record_failure(&self, order: &Vec<TaskId>, notifications: &mut Notifications)
        requires
            order@.len() > 0,
            forall|k: int| 0 <= k < order@.len() ==> (#[trigger] order@[k]) < self.tasks_view().len(),
        ensures
            final(notifications).error_tasks@ == old(notifications).error_tasks@ + failure_entries(
                self.tasks_view(),
                order@,
            ),
            final(notifications).in_memory_tasks == old(notifications).in_memory_tasks,
            final(notifications).rejections == old(notifications).rejections,
            final(notifications).compute_tasks == old(notifications).compute_tasks,
            final(notifications).delete_keys == old(notifications).delete_keys,
            final(notifications).steal_requests == old(notifications).steal_requests,
            final(notifications).scheduler_events == old(notifications).scheduler_events,
    {
        let ghost tasks = self.tasks_view();
        let mut clients: Vec<ClientId> = Vec::new();
        let mut i: usize = 0;
        while i < order.len()
            invariant
                i <= order.len(),
                tasks == self.tasks_view(),
                forall|k: int| 0 <= k < order@.len() ==> (#[trigger] order@[k]) < tasks.len(),
                clients@ == distinct(all_owners(tasks, order@.take(i as int))),
            decreases order.len() - i,
        {
            let t: TaskId = order[i];
            assert(t < self.tasks.len());
            proof {
                assert(order@.take(i + 1).drop_last() =~= order@.take(i as int));
                assert(tasks[t as int] == self.tasks@[t as int]@);
                lemma_distinct_idempotent(all_owners(tasks, order@.take(i as int)));
                lemma_distinct_append(
                    all_owners(tasks, order@.take(i as int)),
                    tasks[t as int].client_owners,
                );
            }
            append_distinct(&mut clients, &self.tasks[t as usize].client_owners);
            i += 1;
        }
        proof {
            assert(order@.take(i as int) =~= order@);
        }
        push_owner_entries(&mut notifications.error_tasks, &clients, order[0]);
        let mut j: usize = 1;
        while j < order.len()
            invariant
                1 <= j <= order.len(),
                tasks == self.tasks_view(),
                forall|k: int| 0 <= k < order@.len() ==> (#[trigger] order@[k]) < tasks.len(),
                notifications.error_tasks@ == old(notifications).error_tasks@ + owner_entries(
                    distinct(all_owners(tasks, order@)),
                    order@[0],
                ) + entries_of(tasks, order@.skip(1).take(j - 1)),
                notifications.in_memory_tasks == old(notifications).in_memory_tasks,
                notifications.rejections == old(notifications).rejections,
                notifications.compute_tasks == old(notifications).compute_tasks,
                notifications.delete_keys == old(notifications).delete_keys,
                notifications.steal_requests == old(notifications).steal_requests,
                notifications.scheduler_events == old(notifications).scheduler_events,
            decreases order.len() - j,
        {
            let t: TaskId = order[j];
            assert(t < self.tasks.len());
            proof {
                let rest = order@.skip(1);
                assert(rest.take(j as int).drop_last() =~= rest.take(j - 1));
                assert(rest.take(j as int).last() == t);
                assert(tasks[t as int] == self.tasks@[t as int]@);
            }
            push_owner_entries(
                &mut notifications.error_tasks,
                &self.tasks[t as usize].client_owners,
                t,
            );
            j += 1;
        }
        proof {
            let rest = order@.skip(1);
            assert(rest.take(j - 1) =~= rest);
            assert(notifications.error_tasks@ =~= old(notifications).error_tasks@
                + failure_entries(tasks, order@));
        }
    }

    /// Takes the report of `worker` that the task with the given key
    /// failed. The report is dropped, and nothing returned, unless the
    /// key is known, its task is assigned and the worker is connected.
    /// Otherwise the task is in error, and with it every pending task
    /// that needs it, each naming the reported task as the cause. The
    /// clients that asked for any of these tasks are owed the news.
    /// Returned are the tasks that failed, the reported one first.
    pub fn on_task_error(
        &mut self,
        worker: WorkerId,
        key: &str,
        exception: SerializedMemory,
        traceback: SerializedMemory,
        notifications: &mut Notifications,
    ) -> (order: Vec<TaskId>)
        requires
            old(self).wf(),
        ensures
            final(self).wf(),
            order@.len() > 0 <==> reportable(
                old(self).tasks_view(),
                old(self).keys_view(),
                old(self).workers_view(),
                key@,
                worker,
            ),
            final(self).keys_view() == old(self).keys_view(),
            final(self).workers_view() == old(self).workers_view(),
            final(self).clients_view() == old(self).clients_view(),
            final(notifications).in_memory_tasks == old(notifications).in_memory_tasks,
            final(notifications).rejections == old(notifications).rejections,
            final(notifications).compute_tasks == old(notifications).compute_tasks,
            final(notifications).delete_keys == old(notifications).delete_keys,
            final(notifications).steal_requests == old(notifications).steal_requests,
            final(notifications).scheduler_events == old(notifications).scheduler_events,
            order@.len() == 0 ==> final(self).tasks_view() == old(self).tasks_view(),
            order@.len() == 0 ==> final(notifications).error_tasks == old(notifications).error_tasks,
            order@.len() > 0 ==> ({
                let tasks = old(self).tasks_view();
                let id = old(self).keys_view()[key@];
                let info = failure_of(id, exception, traceback);
                &&& order@ == failed_order(tasks, id, info)
                &&& final(self).tasks_view() == failed(tasks, id, info)
                &&& final(notifications).error_tasks@ == old(notifications).error_tasks@
                    + failure_entries(final(self).tasks_view(), failed_order(tasks, id, info))
            }),
    {
        let id: TaskId = match self.key_index.get(key) {
            Some(id) => *id,
            None => { return Vec::new(); },
        };
        if id >= self.tasks.len() as u64 || worker >= self.workers.len() as u64 {
            return Vec::new();
        }
        let at: usize = id as usize;
        let running = match self.tasks[at].state {
            TaskRuntimeState::Assigned(_) => true,
            _ => false,
        };
        if !running || self.workers[worker as usize].is_none() {
            return Vec::new();
        }
        let ghost tasks = old(self).tasks_view();
        let ghost keys = old(self).keys_view();
        let ghost info = failure_of(id, exception, traceback);
        let mut worklist: Vec<TaskId> = Vec::new();
        append_ids(&mut worklist, &self.tasks[at].dependents);
        self.tasks[at].state = TaskRuntimeState::Error(
            ErrorInfo {
                exception: exception.duplicate(),
                traceback: traceback.duplicate(),
                cause: id,
            },
        );
        proof {
            assert(tasks[id as int] == old(self).tasks@[id as int]@);
            assert(worklist@ =~= tasks[id as int].dependents);
            assert(self.tasks_view() =~= tasks.update(
                id as int,
                failed_task(tasks[id as int], info),
            ));
            lemma_failed_task_wf(tasks, keys, id, info);
        }
        let ghost first = self.tasks_view();
        let later = self.spread_failure(worklist, &exception, &traceback, id);
        let mut order: Vec<TaskId> = Vec::new();
        order.push(id);
        append_ids(&mut order, &later);
        proof {
            lemma_spread_wf(first, keys, tasks[id as int].dependents, info);
            assert(order@ =~= failed_order(tasks, id, info));
            assert forall|k: int| 0 <= k < order@.len() implies (#[trigger] order@[k])
                < self.tasks_view().len() by {
                if k > 0 {
                    assert(order@[k] == later@[k - 1]);
                }
            }
        }
        self.record_failure(&order, notifications);
        order
    }
}

/// A list of distinct items has nothing to lose.
pub proof fn lemma_distinct_idempotent(items: Seq<u64>)
    ensures
        distinct(distinct(items)) == distinct(items),
        forall|x: u64| distinct(items).contains(x) <==> items.contains(x),
        distinct(items).no_duplicates(),
    decreases items.len(),
{
    if items.len() > 0 {
        let front = items.drop_last();
        let last = items.last();
        lemma_distinct_idempotent(front);
        let d = distinct(front);
        assert(items =~= front.push(last));
        assert forall|x: u64| distinct(items).contains(x) <==> items.contains(x) by {
            if items.contains(x) {
                let k = choose|k: int| 0 <= k < items.len() && items[k] == x;
                if k < front.len() {
                    assert(front[k] == x);
                }
            }
            if front.contains(x) {
                let k = choose|k: int| 0 <= k < front.len() && front[k] == x;
                assert(items[k] == x);
            }
            if !d.contains(last) {
                let all = d.push(last);
                assert(all[all.len() - 1] == last);
                if d.contains(x) {
                    let k = choose|k: int| 0 <= k < d.len() && d[k] == x;
                    assert(all[k] == x);
                }
                if all.contains(x) {
                    let k = choose|k: int| 0 <= k < all.len() && all[k] == x;
                    if k < d.len() {
                        assert(d[k] == x);
                    }
                }
            }
            assert(items[items.len() - 1] == last);
        }
        if !d.contains(last) {
            let all = d.push(last);
            assert(all.drop_last() =~= d);
            lemma_distinct_of_distinct(all);
        }
    }
}

/// Removing repetitions from a list without any gives the list.
pub proof fn lemma_distinct_of_distinct(items: Seq<u64>)
    requires
        items.no_duplicates(),
    ensures
        distinct(items) == items,
    decreases items.len(),
{
    if items.len() > 0 {
        let front = items.drop_last();
        lemma_distinct_of_distinct(front);
        if front.contains(items.last()) {
            let k = choose|k: int| 0 <= k < front.len() && front[k] == items.last();
            assert(items[k] == items[items.len() - 1]);
        }
        assert(items =~= front.push(items.last()));
    }
}

/// Repetitions may be removed from the front of a list first.
pub proof fn lemma_distinct_append(a: Seq<u64>, b: Seq<u64>)
    ensures
        distinct(distinct(a) + b) == distinct(a + b),
    decreases b.len(),
{
    if b.len() == 0 {
        assert(a + b =~= a);
        assert(distinct(a) + b =~= distinct(a));
        lemma_distinct_idempotent(a);
    } else {
        let front = b.drop_last();
        lemma_distinct_append(a, front);
        assert((a + b).drop_last() =~= a + front);
        assert((distinct(a) + b).drop_last() =~= distinct(a) + front);
        assert((a + b).last() == b.last());
        assert((distinct(a) + b).last() == b.last());
    }
}

} // verus!
