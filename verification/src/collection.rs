//! Removal of tasks that nobody needs any more.

use vstd::prelude::*;
use crate::clientmsg::ClientTaskSpec;
use crate::completion::owner_entries;
use crate::failure::{append_ids, push_owner_entries};
use crate::frames::{MemoryModel, SerializedMemory};
use crate::model::{
    graph_wf, index_wf, is_in_memory, is_live, lemma_unmet_same, task_wf, unmet, StateModel,
    TaskModel,
};
use crate::notifications::Notifications;
use crate::store::Core;
use crate::task::{
    lemma_ascending_distinct, lemma_without, list_remove, without, TaskId, TaskRuntimeState,
    WorkerId,
};

verus! {

/// What is left of a removed task: its id and key, and nothing else.
pub open spec fn tombstone(t: TaskModel) -> TaskModel {
    TaskModel {
        state: StateModel::Released,
        spec: ClientTaskSpec::Serialized(MemoryModel::Inline(Seq::empty())),
        dependencies: Seq::empty(),
        dependents: Seq::empty(),
        client_owners: Seq::empty(),
        worker_owners: Seq::empty(),
        unmet_count: 0,
        ..t
    }
}

/// The tasks when the first `done` dependencies of task `id` no longer
/// list it among their dependents.
pub open spec fn unlinked_so_far(tasks: Seq<TaskModel>, id: TaskId, done: int) -> Seq<TaskModel> {
    Seq::new(
        tasks.len(),
        |i: int|
            if i != id && tasks[id as int].dependencies.take(done).contains(tasks[i].id) {
                TaskModel { dependents: without(tasks[i].dependents, id), ..tasks[i] }
            } else {
                tasks[i]
            },
    )
}

/// The tasks once task `id` is removed: none of its dependencies lists it
/// among its dependents, and a tombstone stands in its place.
pub open spec fn removed(tasks: Seq<TaskModel>, id: TaskId) -> Seq<TaskModel> {
    unlinked_so_far(tasks, id, tasks[id as int].dependencies.len() as int).update(
        id as int,
        tombstone(tasks[id as int]),
    )
}

/// The number of tasks that were not removed.
pub open spec fn live_count(tasks: Seq<TaskModel>) -> nat
    decreases tasks.len(),
{
    if tasks.len() == 0 {
        0
    } else {
        live_count(tasks.drop_last()) + if tasks.last().state is Released {
            0nat
        } else {
            1nat
        }
    }
}

/// Removing one task leaves one task less.
pub proof fn lemma_live_count_drops(a: Seq<TaskModel>, b: Seq<TaskModel>, x: int)
    requires
        a.len() == b.len(),
        0 <= x < a.len(),
        !(a[x].state is Released),
        b[x].state is Released,
        forall|i: int|
            0 <= i < a.len() && i != x ==> ((#[trigger] a[i]).state is Released) == (
            b[i].state is Released),
    ensures
        live_count(b) == live_count(a) - 1,
    decreases a.len(),
{
    if x == a.len() - 1 {
        lemma_live_count_same(a.drop_last(), b.drop_last());
    } else {
        lemma_live_count_drops(a.drop_last(), b.drop_last(), x);
    }
}

/// The same tasks are left where the same tasks were removed.
pub proof fn lemma_live_count_same(a: Seq<TaskModel>, b: Seq<TaskModel>)
    requires
        a.len() == b.len(),
        forall|i: int|
            0 <= i < a.len() ==> ((#[trigger] a[i]).state is Released) == (b[i].state is Released),
    ensures
        live_count(b) == live_count(a),
    decreases a.len(),
{
    if a.len() > 0 {
        lemma_live_count_same(a.drop_last(), b.drop_last());
    }
}

/// The tasks once the tasks on `worklist` were looked at for removal: the
/// last task of the list is removed if it is collectible, and then its
/// dependencies are looked at; a task that is not collectible stays.
pub open spec fn collected(tasks: Seq<TaskModel>, worklist: Seq<TaskId>) -> Seq<TaskModel>
    decreases live_count(tasks), worklist.len(),
{
    if worklist.len() == 0 {
        tasks
    } else {
        let t = worklist.last();
        let rest = worklist.drop_last();
        if t < tasks.len() && tasks[t as int].is_collectible() {
            proof {
                lemma_live_count_drops(tasks, removed(tasks, t), t as int);
            }
            collected(removed(tasks, t), rest + tasks[t as int].dependencies)
        } else {
            collected(tasks, rest)
        }
    }
}

/// The results that workers may drop while the tasks on `worklist` are
/// looked at for removal: for each task that is removed, in the order of
/// removal, one entry for each worker that holds its result.
pub open spec fn collected_drops(tasks: Seq<TaskModel>, worklist: Seq<TaskId>) -> Seq<
    (WorkerId, TaskId),
>
    decreases live_count(tasks), worklist.len(),
{
    if worklist.len() == 0 {
        Seq::empty()
    } else {
        let t = worklist.last();
        let rest = worklist.drop_last();
        if t < tasks.len() && tasks[t as int].is_collectible() {
            proof {
                lemma_live_count_drops(tasks, removed(tasks, t), t as int);
            }
            owner_entries(tasks[t as int].worker_owners, t) + collected_drops(
                removed(tasks, t),
                rest + tasks[t as int].dependencies,
            )
        } else {
            collected_drops(tasks, rest)
        }
    }
}

/// The keys that lead to tasks that were not removed.
pub open spec fn pruned(keys: Map<Seq<char>, TaskId>, tasks: Seq<TaskModel>) -> Map<
    Seq<char>,
    TaskId,
> {
    Map::new(|k: Seq<char>| keys.contains_key(k) && is_live(tasks, keys[k]), |k: Seq<char>| keys[k])
}

/// Removing a collectible task keeps the tasks in order; its key no longer leads anywhere.
pub proof fn lemma_removed_wf(tasks: Seq<TaskModel>, keys: Map<Seq<char>, TaskId>, id: TaskId)
    requires
        graph_wf(tasks),
        index_wf(tasks, keys),
        id < tasks.len(),
        tasks[id as int].is_collectible(),
    ensures
        graph_wf(removed(tasks, id)),
        index_wf(removed(tasks, id), keys.remove(tasks[id as int].key)),
        keys.remove(tasks[id as int].key) == pruned(keys, removed(tasks, id)),
        removed(tasks, id).len() == tasks.len(),
{
    let after = removed(tasks, id);
    let deps = tasks[id as int].dependencies;
    let gone = tasks[id as int].key;
    assert(deps.take(deps.len() as int) =~= deps);
    assert(task_wf(tasks[id as int]));
    assert(tasks[id as int].id == id);
    assert forall|i: int| 0 <= i < tasks.len() implies !(#[trigger] tasks[i]).dependencies.contains(
        id,
    ) by {
        assert(tasks[i].dependencies.contains(id) <==> tasks[id as int].dependents.contains(
            i as TaskId,
        ));
    }
    assert forall|i: int| 0 <= i < after.len() implies (#[trigger] after[i]).id == i && task_wf(
        after[i],
    ) && after[i].unmet_count == unmet(after[i].dependencies, after) by {
        assert(tasks[i].id == i);
        assert(task_wf(tasks[i]));
        if i != id {
            lemma_ascending_distinct(tasks[i].dependents);
            lemma_without(tasks[i].dependents, id);
            let d = tasks[i].dependencies;
            assert forall|j: int| 0 <= j < d.len() implies is_in_memory(tasks, #[trigger] d[j])
                == is_in_memory(after, d[j]) by {
                assert(is_live(tasks, tasks[i].dependencies[j]));
                assert(d.contains(d[j]));
            }
            lemma_unmet_same(d, tasks, after);
        }
    }
    assert forall|i: int, j: int|
        0 <= i < after.len() && 0 <= j < after[i].dependencies.len() implies is_live(
        after,
        #[trigger] after[i].dependencies[j],
    ) by {
        assert(is_live(tasks, tasks[i].dependencies[j]));
        assert(tasks[i].dependencies.contains(tasks[i].dependencies[j]));
    }
    assert forall|i: int, j: int|
        0 <= i < after.len() && 0 <= j < after[i].dependents.len() implies (
    #[trigger] after[i].dependents[j]) < after.len() by {
        assert(task_wf(tasks[i]));
        lemma_ascending_distinct(tasks[i].dependents);
        lemma_without(tasks[i].dependents, id);
        let x = after[i].dependents[j];
        assert(after[i].dependents.contains(x));
        assert(tasks[i].dependents.contains(x));
        let k = choose|k: int| 0 <= k < tasks[i].dependents.len() && tasks[i].dependents[k] == x;
        assert(tasks[i].dependents[k] < tasks.len());
    }
    assert forall|x: TaskId, d: TaskId|
        #![trigger after[x as int].dependencies.contains(d)]
        #![trigger after[d as int].dependents.contains(x)]
        x < after.len() && d < after.len() implies (after[x as int].dependencies.contains(d)
        <==> after[d as int].dependents.contains(x)) by {
        assert(tasks[x as int].dependencies.contains(d) <==> tasks[d as int].dependents.contains(
            x,
        ));
        assert(tasks[d as int].id == d);
        assert(task_wf(tasks[d as int]));
        lemma_ascending_distinct(tasks[d as int].dependents);
        lemma_without(tasks[d as int].dependents, id);
        assert(!tasks[x as int].dependencies.contains(id));
    }
    let left = keys.remove(gone);
    assert(keys.contains_key(gone) && keys[gone] == id);
    assert forall|k: Seq<char>| #[trigger] left.contains_key(k) implies is_live(after, left[k])
        && after[left[k] as int].key == k by {
        assert(keys.contains_key(k));
        assert(is_live(tasks, keys[k]));
    }
    assert forall|i: int|
        0 <= i < after.len() && !((#[trigger] after[i]).state is Released) implies left.contains_key(
        after[i].key,
    ) && left[after[i].key] == i by {
        assert(!(tasks[i].state is Released));
    }
    assert forall|k: Seq<char>| left.contains_key(k) <==> pruned(keys, after).contains_key(k) by {
        if keys.contains_key(k) {
            assert(is_live(tasks, keys[k]));
        }
    }
    assert(left =~= pruned(keys, after));
}

/// While the keys are in order, all of them lead to tasks that were not removed.
pub proof fn lemma_pruned_all(tasks: Seq<TaskModel>, keys: Map<Seq<char>, TaskId>)
    requires
        index_wf(tasks, keys),
    ensures
        pruned(keys, tasks) == keys,
{
    assert(pruned(keys, tasks) =~= keys);
}

/// A task that was removed before stays removed.
pub proof fn lemma_collected_only_removes(tasks: Seq<TaskModel>, worklist: Seq<TaskId>)
    ensures
        collected(tasks, worklist).len() == tasks.len(),
        forall|i: int|
            0 <= i < tasks.len() && (#[trigger] tasks[i]).state is Released ==> collected(
                tasks,
                worklist,
            )[i].state is Released,
    decreases live_count(tasks), worklist.len(),
{
    if worklist.len() > 0 {
        let t = worklist.last();
        let rest = worklist.drop_last();
        if t < tasks.len() && tasks[t as int].is_collectible() {
            let next = removed(tasks, t);
            lemma_live_count_drops(tasks, next, t as int);
            lemma_collected_only_removes(next, rest + tasks[t as int].dependencies);
            assert forall|i: int|
                0 <= i < tasks.len() && (#[trigger] tasks[i]).state is Released implies collected(
                tasks,
                worklist,
            )[i].state is Released by {
                assert(next[i].state is Released);
            }
        } else {
            lemma_collected_only_removes(tasks, rest);
        }
    }
}

/// What is known of the dependency at position `k` of a task.
pub proof fn lemma_dependency_at(tasks: Seq<TaskModel>, id: TaskId, k: int)
    requires
        graph_wf(tasks),
        id < tasks.len(),
        0 <= k < tasks[id as int].dependencies.len(),
    ensures
        tasks[id as int].dependencies[k] < tasks.len(),
        tasks[id as int].dependencies[k] != id,
        !tasks[id as int].dependencies.take(k).contains(tasks[id as int].dependencies[k]),
        tasks[tasks[id as int].dependencies[k] as int].id == tasks[id as int].dependencies[k],
        tasks[tasks[id as int].dependencies[k] as int].dependents.no_duplicates(),
{
    let deps = tasks[id as int].dependencies;
    let d = deps[k];
    assert(task_wf(tasks[id as int]));
    assert(is_live(tasks, tasks[id as int].dependencies[k]));
    assert(deps.contains(d));
    assert(tasks[id as int].id == id);
    assert(task_wf(tasks[d as int]));
    lemma_ascending_distinct(tasks[d as int].dependents);
    if deps.take(k).contains(d) {
        let j = choose|j: int| 0 <= j < deps.take(k).len() && deps.take(k)[j] == d;
        assert(deps[j] == deps[k]);
    }
}

impl Core {
    /// Removes task `id` if it is collectible: nobody asked for it,
    /// nothing needs it, and no worker is running it. Its dependencies no
    /// longer list it, its key no longer leads to it, and each worker
    /// that holds its result may drop it. A task that is not collectible
    /// stays, and `false` is returned.
    pub fn remove_task(&mut self, id: TaskId, notifications: &mut Notifications) -> (done: bool)
        requires
            old(self).wf(),
        ensures
            final(self).wf(),
            done == (id < old(self).tasks_view().len() && old(self).tasks_view()[id as int].is_collectible()),
            final(self).tasks_view() == if done {
                removed(old(self).tasks_view(), id)
            } else {
                old(self).tasks_view()
            },
            final(self).keys_view() == pruned(old(self).keys_view(), final(self).tasks_view()),
            final(self).workers_view() == old(self).workers_view(),
            final(self).clients_view() == old(self).clients_view(),
            final(notifications).delete_keys@ == old(notifications).delete_keys@ + if done {
                owner_entries(old(self).tasks_view()[id as int].worker_owners, id)
            } else {
                Seq::empty()
            },
            final(notifications).error_tasks == old(notifications).error_tasks,
            final(notifications).in_memory_tasks == old(notifications).in_memory_tasks,
            final(notifications).rejections == old(notifications).rejections,
            final(notifications).compute_tasks == old(notifications).compute_tasks,
            final(notifications).steal_requests == old(notifications).steal_requests,
            final(notifications).scheduler_events == old(notifications).scheduler_events,
    {
        let ghost tasks = old(self).tasks_view();
        let ghost keys = old(self).keys_view();
        proof {
            lemma_pruned_all(tasks, keys);
            assert(old(notifications).delete_keys@ + Seq::<(WorkerId, TaskId)>::empty()
                =~= old(notifications).delete_keys@);
        }
        if id >= self.tasks.len() as u64 {
            return false;
        }
        let at: usize = id as usize;
        proof {
            assert(tasks[id as int] == self.tasks@[id as int]@);
        }
        let busy = match self.tasks[at].state {
            TaskRuntimeState::Assigned(_) => true,
            TaskRuntimeState::Released => true,
            _ => false,
        };
        if busy || self.tasks[at].client_owners.len() > 0 || self.tasks[at].dependents.len() > 0 {
            return false;
        }
        push_owner_entries(&mut notifications.delete_keys, &self.tasks[at].worker_owners, id);
        let count: usize = self.tasks[at].dependencies.len();
        let mut k: usize = 0;
        proof {
            assert(self.tasks_view() =~= unlinked_so_far(tasks, id, 0));
        }
        while k < count
            invariant
                k <= count,
                graph_wf(tasks),
                id < tasks.len(),
                at == id,
                self.tasks@.len() == tasks.len(),
                count == tasks[id as int].dependencies.len(),
                self.tasks_view() == unlinked_so_far(tasks, id, k as int),
                self.keys_view() == keys,
                self.workers_view() == old(self).workers_view(),
                self.clients_view() == old(self).clients_view(),
            decreases count - k,
        {
            let ghost before = self.tasks_view();
            let ghost records = self.tasks@;
            let ghost deps = tasks[id as int].dependencies;
            proof {
                lemma_dependency_at(tasks, id, k as int);
                assert(before[at as int] == self.tasks@[at as int]@);
            }
            let d: TaskId = self.tasks[at].dependencies[k];
            assert(d == deps[k as int]);
            assert(d < self.tasks.len());
            let slot: usize = d as usize;
            proof {
                assert(before[d as int] == self.tasks@[d as int]@);
                assert(before[d as int] == tasks[d as int]);
            }
            list_remove(&mut self.tasks[slot].dependents, id);
            proof {
                let now = self.tasks_view();
                let goal = unlinked_so_far(tasks, id, k + 1);
                let prev = deps.take(k as int);
                let next = deps.take(k + 1);
                assert(next =~= prev.push(d));
                assert forall|i: int| 0 <= i < now.len() implies now[i] == goal[i] by {
                    assert(tasks[i].id == i);
                    assert(now[i] == self.tasks@[i]@);
                    assert(before[i] == records[i]@);
                    if i == d {
                        assert(next[k as int] == d);
                        assert(next.contains(tasks[i].id));
                    } else {
                        assert(self.tasks@[i] == records[i]);
                        if next.contains(tasks[i].id) {
                            let j = choose|j: int| 0 <= j < next.len() && next[j] == tasks[i].id;
                            assert(prev[j] == tasks[i].id);
                        }
                        if prev.contains(tasks[i].id) {
                            let j = choose|j: int| 0 <= j < prev.len() && prev[j] == tasks[i].id;
                            assert(next[j] == tasks[i].id);
                        }
                    }
                }
                assert(now =~= goal);
            }
            k += 1;
        }
        let ghost linked = self.tasks_view();
        let ghost records = self.tasks@;
        let task = &mut self.tasks[at];
        task.state = TaskRuntimeState::Released;
        task.spec = ClientTaskSpec::Serialized(SerializedMemory::Inline(Vec::new()));
        task.dependencies = Vec::new();
        task.worker_owners = Vec::new();
        task.unmet_count = 0;
        self.key_index.remove(self.tasks[at].key.as_str());
        proof {
            let now = self.tasks_view();
            let goal = removed(tasks, id);
            assert(linked[id as int] == records[id as int]@);
            assert(linked[id as int] == tasks[id as int]);
            assert forall|i: int| 0 <= i < now.len() implies now[i] == goal[i] by {
                assert(now[i] == self.tasks@[i]@);
                assert(linked[i] == records[i]@);
                if i == id {
                    assert(now[i].dependents =~= Seq::<TaskId>::empty());
                    assert(now[i].client_owners =~= Seq::<u64>::empty());
                    assert(now[i].dependencies =~= Seq::<TaskId>::empty());
                    assert(now[i].worker_owners =~= Seq::<u64>::empty());
                    assert(now[i].spec == ClientTaskSpec::<MemoryModel>::Serialized(
                        MemoryModel::Inline(Seq::empty()),
                    ));
                } else {
                    assert(self.tasks@[i] == records[i]);
                }
            }
            assert(now =~= goal);
            lemma_removed_wf(tasks, keys, id);
        }
        true
    }

    /// Looks at the tasks on `worklist` for removal, last first: a task
    /// that is collectible is removed, and then its dependencies are
    /// looked at in turn.
    #[verifier::rlimit(60)]
    pub fn collect(&mut self, worklist: Vec<TaskId>, notifications: &mut Notifications)
        requires
            old(self).wf(),
        ensures
            final(self).wf(),
            final(self).tasks_view() == collected(old(self).tasks_view(), worklist@),
            final(self).keys_view() == pruned(old(self).keys_view(), final(self).tasks_view()),
            final(self).workers_view() == old(self).workers_view(),
            final(self).clients_view() == old(self).clients_view(),
            final(notifications).delete_keys@ == old(notifications).delete_keys@ + collected_drops(
                old(self).tasks_view(),
                worklist@,
            ),
            final(notifications).error_tasks == old(notifications).error_tasks,
            final(notifications).in_memory_tasks == old(notifications).in_memory_tasks,
            final(notifications).rejections == old(notifications).rejections,
            final(notifications).compute_tasks == old(notifications).compute_tasks,
            final(notifications).steal_requests == old(notifications).steal_requests,
            final(notifications).scheduler_events == old(notifications).scheduler_events,
    {
        let ghost tasks = old(self).tasks_view();
        let ghost keys = old(self).keys_view();
        let ghost goal = collected(tasks, worklist@);
        let ghost drops = old(notifications).delete_keys@ + collected_drops(tasks, worklist@);
        let mut worklist = worklist;
        proof {
            lemma_pruned_all(tasks, keys);
        }
        while worklist.len() > 0
            invariant
                self.wf(),
                collected(self.tasks_view(), worklist@) == goal,
                notifications.delete_keys@ + collected_drops(self.tasks_view(), worklist@) == drops,
                self.keys_view() == pruned(keys, self.tasks_view()),
                self.tasks_view().len() == tasks.len(),
                self.workers_view() == old(self).workers_view(),
                self.clients_view() == old(self).clients_view(),
                notifications.error_tasks == old(notifications).error_tasks,
                notifications.in_memory_tasks == old(notifications).in_memory_tasks,
                notifications.rejections == old(notifications).rejections,
                notifications.compute_tasks == old(notifications).compute_tasks,
                notifications.steal_requests == old(notifications).steal_requests,
                notifications.scheduler_events == old(notifications).scheduler_events,
            decreases live_count(self.tasks_view()), worklist@.len(),
        {
            let ghost before = self.tasks_view();
            let ghost list = worklist@;
            let ghost sent = notifications.delete_keys@;
            let t: TaskId = worklist.pop().unwrap();
            proof {
                assert(worklist@ == list.drop_last());
                assert(t == list.last());
            }
            if t < self.tasks.len() as u64 {
                proof {
                    assert(before[t as int] == self.tasks@[t as int]@);
                }
                append_ids(&mut worklist, &self.tasks[t as usize].dependencies);
                let done = self.remove_task(t, notifications);
                if !done {
                    let count: usize = self.tasks[t as usize].dependencies.len();
                    let keep: usize = worklist.len() - count;
                    worklist.truncate(keep);
                    proof {
                        assert(worklist@ =~= list.drop_last());
                        assert(notifications.delete_keys@ =~= sent);
                    }
                } else {
                    proof {
                        lemma_live_count_drops(before, self.tasks_view(), t as int);
                        assert(worklist@ =~= list.drop_last() + before[t as int].dependencies);
                        let later = collected_drops(self.tasks_view(), worklist@);
                        let own = owner_entries(before[t as int].worker_owners, t);
                        assert(notifications.delete_keys@ + later =~= sent + (own + later));
                        assert(pruned(pruned(keys, before), self.tasks_view()) =~= pruned(
                            keys,
                            self.tasks_view(),
                        ));
                    }
                }
            }
        }
        proof {
            assert(notifications.delete_keys@ + Seq::<(WorkerId, TaskId)>::empty()
                =~= notifications.delete_keys@);
        }
    }
}

} // verus!
