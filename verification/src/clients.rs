//! What clients do to the store besides submitting: they ask for keys,
//! release them, and leave.

use vstd::prelude::*;
use crate::collection::{collected, collected_drops, lemma_pruned_all, pruned};
use crate::model::{
    graph_wf, index_wf, is_live, lemma_same_graph_keeps_wf, lemma_update_keeps_index,
    lemma_update_keeps_wf, task_wf, TaskModel,
};
use crate::notifications::Notifications;
use crate::store::Core;
use crate::task::{
    key_views, lemma_without, list_contains, list_remove, without, ClientId, TaskId,
    TaskRuntimeState, WorkerId,
};

verus! {

/// The task `t` when `client` no longer asks for it.
pub open spec fn disowned_task(t: TaskModel, client: ClientId) -> TaskModel {
    TaskModel { client_owners: without(t.client_owners, client), ..t }
}

/// The task `t` when `client` asks for it.
pub open spec fn owned_task(t: TaskModel, client: ClientId) -> TaskModel {
    TaskModel {
        client_owners: if t.client_owners.contains(client) {
            t.client_owners
        } else {
            t.client_owners.push(client)
        },
        ..t
    }
}

/// Whether `key` leads to a task that was not removed.
pub open spec fn known(tasks: Seq<TaskModel>, keys: Map<Seq<char>, TaskId>, key: Seq<char>) -> bool {
    keys.contains_key(key) && is_live(tasks, keys[key])
}

/// The tasks once `client` has released one key: the task with that key
/// loses the client and is removed if it is collectible, and so are in
/// turn the tasks that only it needed. An unknown key changes nothing.
pub open spec fn released_key(
    tasks: Seq<TaskModel>,
    keys: Map<Seq<char>, TaskId>,
    client: ClientId,
    key: Seq<char>,
) -> Seq<TaskModel> {
    if known(tasks, keys, key) {
        let id = keys[key];
        collected(tasks.update(id as int, disowned_task(tasks[id as int], client)), seq![id])
    } else {
        tasks
    }
}

/// The results that workers may drop once `client` has released one key.
pub open spec fn released_key_drops(
    tasks: Seq<TaskModel>,
    keys: Map<Seq<char>, TaskId>,
    client: ClientId,
    key: Seq<char>,
) -> Seq<(WorkerId, TaskId)> {
    if known(tasks, keys, key) {
        let id = keys[key];
        collected_drops(tasks.update(id as int, disowned_task(tasks[id as int], client)), seq![id])
    } else {
        Seq::empty()
    }
}

/// The tasks once `client` has released the given keys, one after the other.
pub open spec fn released(
    tasks: Seq<TaskModel>,
    keys: Map<Seq<char>, TaskId>,
    client: ClientId,
    requested: Seq<Seq<char>>,
) -> Seq<TaskModel>
    decreases requested.len(),
{
    if requested.len() == 0 {
        tasks
    } else {
        released_key(
            released(tasks, keys, client, requested.drop_last()),
            keys,
            client,
            requested.last(),
        )
    }
}

/// The results that workers may drop once `client` has released the given keys.
pub open spec fn released_drops(
    tasks: Seq<TaskModel>,
    keys: Map<Seq<char>, TaskId>,
    client: ClientId,
    requested: Seq<Seq<char>>,
) -> Seq<(WorkerId, TaskId)>
    decreases requested.len(),
{
    if requested.len() == 0 {
        Seq::empty()
    } else {
        released_drops(tasks, keys, client, requested.drop_last()) + released_key_drops(
            released(tasks, keys, client, requested.drop_last()),
            keys,
            client,
            requested.last(),
        )
    }
}

/// The tasks once `client` has asked for the given keys: each task with
/// one of the keys has the client among its owners, once.
pub open spec fn desired(
    tasks: Seq<TaskModel>,
    keys: Map<Seq<char>, TaskId>,
    client: ClientId,
    requested: Seq<Seq<char>>,
) -> Seq<TaskModel>
    decreases requested.len(),
{
    if requested.len() == 0 {
        tasks
    } else {
        let before = desired(tasks, keys, client, requested.drop_last());
        if known(before, keys, requested.last()) {
            let id = keys[requested.last()];
            before.update(id as int, owned_task(before[id as int], client))
        } else {
            before
        }
    }
}

/// What `client` is owed at once when it asks for the given keys: one
/// entry for each key whose task is in memory.
pub open spec fn desired_in_memory(
    tasks: Seq<TaskModel>,
    keys: Map<Seq<char>, TaskId>,
    client: ClientId,
    requested: Seq<Seq<char>>,
) -> Seq<(ClientId, TaskId)>
    decreases requested.len(),
{
    if requested.len() == 0 {
        Seq::empty()
    } else {
        let before = desired_in_memory(tasks, keys, client, requested.drop_last());
        if known(tasks, keys, requested.last()) && tasks[keys[requested.last()] as int].state is InMemory {
            before.push((client, keys[requested.last()]))
        } else {
            before
        }
    }
}

/// What `client` is owed at once when it asks for the given keys: one
/// entry for each key whose task has failed.
pub open spec fn desired_errors(
    tasks: Seq<TaskModel>,
    keys: Map<Seq<char>, TaskId>,
    client: ClientId,
    requested: Seq<Seq<char>>,
) -> Seq<(ClientId, TaskId)>
    decreases requested.len(),
{
    if requested.len() == 0 {
        Seq::empty()
    } else {
        let before = desired_errors(tasks, keys, client, requested.drop_last());
        if known(tasks, keys, requested.last()) && tasks[keys[requested.last()] as int].state is Error {
            before.push((client, keys[requested.last()]))
        } else {
            before
        }
    }
}

/// The tasks when none of the first `done` of them has `client` among its owners.
pub open spec fn orphaned_so_far(tasks: Seq<TaskModel>, client: ClientId, done: int) -> Seq<TaskModel> {
    Seq::new(
        tasks.len(),
        |i: int|
            if i < done {
                disowned_task(tasks[i], client)
            } else {
                tasks[i]
            },
    )
}

/// The tasks when no task has `client` among its owners.
pub open spec fn orphaned(tasks: Seq<TaskModel>, client: ClientId) -> Seq<TaskModel> {
    orphaned_so_far(tasks, client, tasks.len() as int)
}

/// The ids of the tasks that `client` asked for, in ascending order.
pub open spec fn owned_by(tasks: Seq<TaskModel>, client: ClientId) -> Seq<TaskId>
    decreases tasks.len(),
{
    if tasks.len() == 0 {
        Seq::empty()
    } else if tasks.last().client_owners.contains(client) {
        owned_by(tasks.drop_last(), client).push((tasks.len() - 1) as TaskId)
    } else {
        owned_by(tasks.drop_last(), client)
    }
}

/// The tasks once `client` is gone: no task has it among its owners, and
/// the tasks that it had asked for are removed where they are
/// collectible, and in turn the tasks that only they needed.
pub open spec fn without_client(tasks: Seq<TaskModel>, client: ClientId) -> Seq<TaskModel> {
    collected(orphaned(tasks, client), owned_by(tasks, client))
}

/// A change of the clients that ask for a task keeps the tasks in order.
pub proof fn lemma_owners_wf(
    tasks: Seq<TaskModel>,
    keys: Map<Seq<char>, TaskId>,
    id: TaskId,
    t: TaskModel,
)
    requires
        graph_wf(tasks),
        index_wf(tasks, keys),
        id < tasks.len(),
        t == (TaskModel { client_owners: t.client_owners, ..tasks[id as int] }),
        t.client_owners.no_duplicates(),
        t.state is Released ==> t.client_owners.len() == 0,
    ensures
        graph_wf(tasks.update(id as int, t)),
        index_wf(tasks.update(id as int, t), keys),
{
    assert(task_wf(tasks[id as int]));
    assert(tasks[id as int].id == id);
    lemma_update_keeps_wf(tasks, id as int, t);
    lemma_update_keeps_index(tasks, keys, id as int, t);
}

impl Core {
    /// Takes note that `client` no longer asks for the task with the
    /// given key. The task is removed if it is collectible then, and so
    /// are in turn the tasks that only it needed; the workers that hold
    /// their results may drop them. An unknown key changes nothing.
    pub fn release_key(&mut self, client: ClientId, key: &str, notifications: &mut Notifications)
        requires
            old(self).wf(),
        ensures
            final(self).wf(),
            final(self).tasks_view() == released_key(
                old(self).tasks_view(),
                old(self).keys_view(),
                client,
                key@,
            ),
            final(self).keys_view() == pruned(old(self).keys_view(), final(self).tasks_view()),
            final(self).workers_view() == old(self).workers_view(),
            final(self).clients_view() == old(self).clients_view(),
            final(notifications).delete_keys@ == old(notifications).delete_keys@
                + released_key_drops(old(self).tasks_view(), old(self).keys_view(), client, key@),
            final(notifications).error_tasks == old(notifications).error_tasks,
            final(notifications).in_memory_tasks == old(notifications).in_memory_tasks,
            final(notifications).rejections == old(notifications).rejections,
            final(notifications).compute_tasks == old(notifications).compute_tasks,
            final(notifications).steal_requests == old(notifications).steal_requests,
            final(notifications).scheduler_events == old(notifications).scheduler_events,
    {
        let ghost tasks = old(self).tasks_view();
        let ghost keys = old(self).keys_view();
        proof {
            lemma_pruned_all(tasks, keys);
            assert(old(notifications).delete_keys@ + Seq::<(WorkerId, TaskId)>::empty()
                =~= old(notifications).delete_keys@);
        }
        let id: TaskId = match self.key_index.get(key) {
            Some(id) => *id,
            None => { return ; },
        };
        assert(id < self.tasks.len());
        let at: usize = id as usize;
        proof {
            assert(tasks[id as int] == self.tasks@[id as int]@);
            assert(task_wf(tasks[id as int]));
            lemma_without(tasks[id as int].client_owners, client);
        }
        list_remove(&mut self.tasks[at].client_owners, client);
        proof {
            let t = disowned_task(tasks[id as int], client);
            assert(self.tasks_view() =~= tasks.update(id as int, t));
            lemma_owners_wf(tasks, keys, id, t);
        }
        let mut worklist: Vec<TaskId> = Vec::new();
        worklist.push(id);
        proof {
            assert(worklist@ =~= seq![id]);
        }
        self.collect(worklist, notifications);
    }

    /// Takes note that `client` no longer asks for the tasks with the
    /// given keys, one key after the other.
    pub fn release_keys(
        &mut self,
        client: ClientId,
        requested: &Vec<String>,
        notifications: &mut Notifications,
    )
        requires
            old(self).wf(),
        ensures
            final(self).wf(),
            final(self).tasks_view() == released(
                old(self).tasks_view(),
                old(self).keys_view(),
                client,
                key_views(requested@),
            ),
            final(self).keys_view() == pruned(old(self).keys_view(), final(self).tasks_view()),
            final(self).workers_view() == old(self).workers_view(),
            final(self).clients_view() == old(self).clients_view(),
            final(notifications).delete_keys@ == old(notifications).delete_keys@ + released_drops(
                old(self).tasks_view(),
                old(self).keys_view(),
                client,
                key_views(requested@),
            ),
            final(notifications).error_tasks == old(notifications).error_tasks,
            final(notifications).in_memory_tasks == old(notifications).in_memory_tasks,
            final(notifications).rejections == old(notifications).rejections,
            final(notifications).compute_tasks == old(notifications).compute_tasks,
            final(notifications).steal_requests == old(notifications).steal_requests,
            final(notifications).scheduler_events == old(notifications).scheduler_events,
    {
        let ghost tasks = old(self).tasks_view();
        let ghost keys = old(self).keys_view();
        let ghost wanted = key_views(requested@);
        let mut i: usize = 0;
        proof {
            lemma_pruned_all(tasks, keys);
            assert(old(notifications).delete_keys@ + Seq::<(WorkerId, TaskId)>::empty()
                =~= old(notifications).delete_keys@);
        }
        while i < requested.len()
            invariant
                i <= requested.len(),
                self.wf(),
                wanted == key_views(requested@),
                self.tasks_view() == released(tasks, keys, client, wanted.take(i as int)),
                self.keys_view() == pruned(keys, self.tasks_view()),
                self.workers_view() == old(self).workers_view(),
                self.clients_view() == old(self).clients_view(),
                notifications.delete_keys@ == old(notifications).delete_keys@ + released_drops(
                    tasks,
                    keys,
                    client,
                    wanted.take(i as int),
                ),
                notifications.error_tasks == old(notifications).error_tasks,
                notifications.in_memory_tasks == old(notifications).in_memory_tasks,
                notifications.rejections == old(notifications).rejections,
                notifications.compute_tasks == old(notifications).compute_tasks,
                notifications.steal_requests == old(notifications).steal_requests,
                notifications.scheduler_events == old(notifications).scheduler_events,
            decreases requested.len() - i,
        {
            let ghost before = self.tasks_view();
            proof {
                assert(wanted.take(i + 1).drop_last() =~= wanted.take(i as int));
                assert(wanted.take(i + 1).last() == requested@[i as int]@);
            }
            self.release_key(client, requested[i].as_str(), notifications);
            proof {
                let key = requested@[i as int]@;
                assert(known(before, pruned(keys, before), key) == known(before, keys, key));
                assert(pruned(pruned(keys, before), self.tasks_view()) =~= pruned(
                    keys,
                    self.tasks_view(),
                )) by {
                    crate::collection::lemma_collected_only_removes(
                        before.update(
                            keys[key] as int,
                            disowned_task(before[keys[key] as int], client),
                        ),
                        seq![keys[key]],
                    );
                }
                assert(notifications.delete_keys@ =~= old(notifications).delete_keys@
                    + released_drops(tasks, keys, client, wanted.take(i + 1)));
            }
            i += 1;
        }
        proof {
            assert(wanted.take(i as int) =~= wanted);
        }
    }

    /// Takes note that `client` asks for the task with the given key,
    /// and returns the id of the task. An unknown key changes nothing.
    pub fn desire_key(&mut self, client: ClientId, key: &str) -> (found: Option<TaskId>)
        requires
            old(self).wf(),
        ensures
            final(self).wf(),
            found == if old(self).keys_view().contains_key(key@) {
                Some(old(self).keys_view()[key@])
            } else {
                None
            },
            final(self).tasks_view() == match found {
                Some(id) => old(self).tasks_view().update(
                    id as int,
                    owned_task(old(self).tasks_view()[id as int], client),
                ),
                None => old(self).tasks_view(),
            },
            final(self).keys_view() == old(self).keys_view(),
            final(self).workers_view() == old(self).workers_view(),
            final(self).clients_view() == old(self).clients_view(),
    {
        let ghost before = self.tasks_view();
        let ghost keys = self.keys_view();
        let id: TaskId = match self.key_index.get(key) {
            Some(id) => *id,
            None => { return None; },
        };
        assert(id < self.tasks.len());
        let at: usize = id as usize;
        proof {
            assert(before[id as int] == self.tasks@[id as int]@);
            assert(task_wf(before[id as int]));
        }
        if !list_contains(&self.tasks[at].client_owners, client) {
            self.tasks[at].client_owners.push(client);
        }
        proof {
            let t = owned_task(before[id as int], client);
            assert(self.tasks_view() =~= before.update(id as int, t));
            assert(t.client_owners.no_duplicates()) by {
                let owners = before[id as int].client_owners;
                if !owners.contains(client) {
                    assert forall|a: int, b: int|
                        0 <= a < t.client_owners.len() && 0 <= b < t.client_owners.len() && a
                            != b implies t.client_owners[a] != t.client_owners[b] by {
                        if a < owners.len() {
                            assert(owners.contains(owners[a]));
                        }
                        if b < owners.len() {
                            assert(owners.contains(owners[b]));
                        }
                    }
                }
            }
            lemma_owners_wf(before, keys, id, t);
        }
        Some(id)
    }

    /// Takes note that `client` asks for the tasks with the given keys.
    /// For each key whose task is in memory or has failed the client is
    /// owed that news at once. An unknown key is passed over.
    pub fn desire_keys(
        &mut self,
        client: ClientId,
        requested: &Vec<String>,
        notifications: &mut Notifications,
    )
        requires
            old(self).wf(),
        ensures
            final(self).wf(),
            final(self).tasks_view() == desired(
                old(self).tasks_view(),
                old(self).keys_view(),
                client,
                key_views(requested@),
            ),
            final(self).keys_view() == old(self).keys_view(),
            final(self).workers_view() == old(self).workers_view(),
            final(self).clients_view() == old(self).clients_view(),
            final(notifications).in_memory_tasks@ == old(notifications).in_memory_tasks@
                + desired_in_memory(
                old(self).tasks_view(),
                old(self).keys_view(),
                client,
                key_views(requested@),
            ),
            final(notifications).error_tasks@ == old(notifications).error_tasks@ + desired_errors(
                old(self).tasks_view(),
                old(self).keys_view(),
                client,
                key_views(requested@),
            ),
            final(notifications).delete_keys == old(notifications).delete_keys,
            final(notifications).rejections == old(notifications).rejections,
            final(notifications).compute_tasks == old(notifications).compute_tasks,
            final(notifications).steal_requests == old(notifications).steal_requests,
            final(notifications).scheduler_events == old(notifications).scheduler_events,
    {
        let ghost tasks = old(self).tasks_view();
        let ghost keys = old(self).keys_view();
        let ghost wanted = key_views(requested@);
        let mut i: usize = 0;
        proof {
            assert(old(notifications).in_memory_tasks@ + Seq::<(ClientId, TaskId)>::empty()
                =~= old(notifications).in_memory_tasks@);
            assert(old(notifications).error_tasks@ + Seq::<(ClientId, TaskId)>::empty()
                =~= old(notifications).error_tasks@);
        }
        while i < requested.len()
            invariant
                i <= requested.len(),
                self.wf(),
                index_wf(tasks, keys),
                wanted == key_views(requested@),
                self.tasks_view() == desired(tasks, keys, client, wanted.take(i as int)),
                self.tasks_view().len() == tasks.len(),
                forall|k: int|
                    0 <= k < tasks.len() ==> (#[trigger] self.tasks_view()[k]).state
                        == tasks[k].state,
                self.keys_view() == keys,
                self.workers_view() == old(self).workers_view(),
                self.clients_view() == old(self).clients_view(),
                notifications.in_memory_tasks@ == old(notifications).in_memory_tasks@
                    + desired_in_memory(tasks, keys, client, wanted.take(i as int)),
                notifications.error_tasks@ == old(notifications).error_tasks@ + desired_errors(
                    tasks,
                    keys,
                    client,
                    wanted.take(i as int),
                ),
                notifications.delete_keys == old(notifications).delete_keys,
                notifications.rejections == old(notifications).rejections,
                notifications.compute_tasks == old(notifications).compute_tasks,
                notifications.steal_requests == old(notifications).steal_requests,
                notifications.scheduler_events == old(notifications).scheduler_events,
            decreases requested.len() - i,
        {
            proof {
                assert(wanted.take(i + 1).drop_last() =~= wanted.take(i as int));
                assert(wanted.take(i + 1).last() == requested@[i as int]@);
            }
            match self.desire_key(client, requested[i].as_str()) {
                Some(id) => {
                    assert(id < self.tasks.len());
                    proof {
                        assert(self.tasks_view()[id as int] == self.tasks@[id as int]@);
                        assert(self.tasks_view()[id as int].state == tasks[id as int].state);
                    }
                    match self.tasks[id as usize].state {
                        TaskRuntimeState::InMemory(_) => {
                            notifications.in_memory_tasks.push((client, id));
                        },
                        TaskRuntimeState::Error(_) => {
                            notifications.error_tasks.push((client, id));
                        },
                        _ => {},
                    }
                },
                None => {},
            }
            i += 1;
        }
        proof {
            assert(wanted.take(i as int) =~= wanted);
        }
    }

    /// Takes the record of a client out of the store when its connection
    /// ends. No task has the client among its owners afterwards; the
    /// tasks that it had asked for are removed where they are
    /// collectible. Nothing changes, and `false` is returned, if no such
    /// client is connected.
    pub fn unregister_client(&mut self, client: ClientId, notifications: &mut Notifications) -> (done:
        bool)
        requires
            old(self).wf(),
        ensures
            final(self).wf(),
            done == old(self).has_client(client),
            final(self).tasks_view() == if done {
                without_client(old(self).tasks_view(), client)
            } else {
                old(self).tasks_view()
            },
            final(self).keys_view() == pruned(old(self).keys_view(), final(self).tasks_view()),
            final(self).workers_view() == old(self).workers_view(),
            final(self).clients_view() == if done {
                old(self).clients_view().update(client as int, None)
            } else {
                old(self).clients_view()
            },
            final(notifications).delete_keys@ == old(notifications).delete_keys@ + if done {
                collected_drops(
                    orphaned(old(self).tasks_view(), client),
                    owned_by(old(self).tasks_view(), client),
                )
            } else {
                Seq::empty()
            },
            final(notifications).error_tasks == old(notifications).error_tasks,
            final(notifications).in_memory_tasks == old(notifications).in_memory_tasks,
            final(notifications).rejections == old(notifications).rejections,
            final(notifications).compute_tasks == old(notifications).compute_tasks,
            final(notifications).steal_requests == old(notifications).steal_requests,
            final(notifications).scheduler_events == old(notifications).scheduler_events,
    {
        let ghost tasks = old(self).tasks_view();
        let ghost keys = old(self).keys_view();
        proof {
            lemma_pruned_all(tasks, keys);
            assert(old(notifications).delete_keys@ + Seq::<(WorkerId, TaskId)>::empty()
                =~= old(notifications).delete_keys@);
        }
        if client >= self.clients.len() as u64 {
            return false;
        }
        if self.clients[client as usize].is_none() {
            return false;
        }
        self.clients[client as usize] = None;
        let mut worklist: Vec<TaskId> = Vec::new();
        let mut i: usize = 0;
        proof {
            assert(self.tasks_view() =~= orphaned_so_far(tasks, client, 0));
        }
        while i < self.tasks.len()
            invariant
                i <= self.tasks@.len(),
                graph_wf(tasks),
                self.tasks@.len() == tasks.len(),
                self.tasks_view() == orphaned_so_far(tasks, client, i as int),
                worklist@ == owned_by(tasks.take(i as int), client),
                self.keys_view() == keys,
                self.workers_view() == old(self).workers_view(),
                self.clients_view() == old(self).clients_view().update(client as int, None),
            decreases self.tasks@.len() - i,
        {
            let ghost before = self.tasks_view();
            let ghost records = self.tasks@;
            proof {
                assert(before[i as int] == self.tasks@[i as int]@);
                assert(task_wf(tasks[i as int]));
                assert(tasks.take(i + 1).drop_last() =~= tasks.take(i as int));
            }
            let owned = list_remove(&mut self.tasks[i].client_owners, client);
            if owned {
                worklist.push(i as u64);
            }
            proof {
                let now = self.tasks_view();
                let goal = orphaned_so_far(tasks, client, i + 1);
                assert forall|k: int| 0 <= k < now.len() implies now[k] == goal[k] by {
                    assert(now[k] == self.tasks@[k]@);
                    assert(before[k] == records[k]@);
                    if k != i {
                        assert(self.tasks@[k] == records[k]);
                    }
                }
                assert(now =~= goal);
            }
            i += 1;
        }
        proof {
            assert(tasks.take(i as int) =~= tasks);
            let after = orphaned(tasks, client);
            assert forall|k: int| 0 <= k < tasks.len() implies task_wf(#[trigger] after[k]) by {
                assert(task_wf(tasks[k]));
                lemma_without(tasks[k].client_owners, client);
            }
            lemma_same_graph_keeps_wf(tasks, after, keys);
        }
        self.collect(worklist, notifications);
        true
    }
}

} // verus!
