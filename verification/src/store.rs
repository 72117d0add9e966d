//! The store of tasks, workers and clients.

use vstd::prelude::*;
use vstd::hash_map::StringHashMap;
use crate::clientmsg::ClientTaskSpec;
use crate::frames::SerializedMemory;
use crate::model::{
    graph_wf, index_wf, is_live, lemma_unmet_is_cardinality, lemma_vacant_wf, task_views, task_wf,
    unmet, unmet_set, vacant, TaskModel,
};
use crate::task::{ascending, Client, ClientId, Task, TaskId, TaskRuntimeState, Worker, WorkerId};

verus! {

/// The store of every task, worker and client that the coordinator knows.
///
/// A task's id is its position among the tasks, a worker's or client's id
/// its position among the workers or clients; a position is never given
/// out twice. All references between records are ids.
pub struct Core {
    pub(crate) tasks: Vec<Task>,
    pub(crate) key_index: StringHashMap<TaskId>,
    pub(crate) workers: Vec<Option<Worker>>,
    pub(crate) clients: Vec<Option<Client>>,
}

impl Core {
    /// The task records, by id.
    pub open(crate) spec fn tasks_view(&self) -> Seq<TaskModel> {
        task_views(self.tasks@)
    }

    /// The id that each key of a stored task leads to.
    pub open(crate) spec fn keys_view(&self) -> Map<Seq<char>, TaskId> {
        self.key_index@
    }

    /// The worker records, by id; a worker that is not connected has none.
    pub open(crate) spec fn workers_view(&self) -> Seq<Option<Worker>> {
        self.workers@
    }

    /// The client records, by id; a client that is not connected has none.
    pub open(crate) spec fn clients_view(&self) -> Seq<Option<Client>> {
        self.clients@
    }

    /// The invariant of the store.
    pub open spec fn wf(&self) -> bool {
        &&& graph_wf(self.tasks_view())
        &&& index_wf(self.tasks_view(), self.keys_view())
    }

    /// The task with the given id, unless it was removed or never existed.
    pub open spec fn task(&self, id: TaskId) -> Option<TaskModel> {
        if is_live(self.tasks_view(), id) {
            Some(self.tasks_view()[id as int])
        } else {
            None
        }
    }

    /// The task with the given key, if the store holds one.
    pub open spec fn task_by_key(&self, key: Seq<char>) -> Option<TaskModel> {
        if self.keys_view().contains_key(key) {
            self.task(self.keys_view()[key])
        } else {
            None
        }
    }

    /// Whether a worker with the given id is connected.
    pub open spec fn has_worker(&self, id: WorkerId) -> bool {
        id < self.workers_view().len() && self.workers_view()[id as int] is Some
    }

    /// Whether a client with the given id is connected.
    pub open spec fn has_client(&self, id: ClientId) -> bool {
        id < self.clients_view().len() && self.clients_view()[id as int] is Some
    }

    /// An empty store.
    pub fn new() -> (core: Core)
        ensures
            core.wf(),
            core.tasks_view().len() == 0,
            core.keys_view() == Map::<Seq<char>, TaskId>::empty(),
            core.workers_view().len() == 0,
            core.clients_view().len() == 0,
    {
        Core {
            tasks: Vec::new(),
            key_index: StringHashMap::new(),
            workers: Vec::new(),
            clients: Vec::new(),
        }
    }

    /// The number of task ids given out so far.
    pub fn task_slots(&self) -> (count: usize)
        ensures
            count == self.tasks_view().len(),
    {
        self.tasks.len()
    }

    pub fn get_task(&self, id: TaskId) -> (task: Option<&Task>)
        ensures
            match task {
                Some(t) => self.task(id) == Some(t@),
                None => self.task(id) is None,
            },
    {
        if id < self.tasks.len() as u64 {
            let t = &self.tasks[id as usize];
            match t.state {
                TaskRuntimeState::Released => None,
                _ => Some(t),
            }
        } else {
            None
        }
    }

    /// The id of the task with the given key.
    pub fn get_task_id(&self, key: &str) -> (id: Option<TaskId>)
        ensures
            id == if self.keys_view().contains_key(key@) {
                Some(self.keys_view()[key@])
            } else {
                None
            },
    {
        match self.key_index.get(key) {
            Some(id) => Some(*id),
            None => None,
        }
    }

    pub fn get_task_by_key(&self, key: &str) -> (task: Option<&Task>)
        ensures
            match task {
                Some(t) => self.task_by_key(key@) == Some(t@),
                None => self.task_by_key(key@) is None,
            },
    {
        match self.key_index.get(key) {
            Some(id) => self.get_task(*id),
            None => None,
        }
    }

    pub fn get_worker(&self, id: WorkerId) -> (worker: Option<&Worker>)
        ensures
            match worker {
                Some(w) => self.has_worker(id) && self.workers_view()[id as int] == Some(*w),
                None => !self.has_worker(id),
            },
    {
        if id < self.workers.len() as u64 {
            self.workers[id as usize].as_ref()
        } else {
            None
        }
    }

    pub fn get_client(&self, id: ClientId) -> (client: Option<&Client>)
        ensures
            match client {
                Some(c) => self.has_client(id) && self.clients_view()[id as int] == Some(*c),
                None => !self.has_client(id),
            },
    {
        if id < self.clients.len() as u64 {
            self.clients[id as usize].as_ref()
        } else {
            None
        }
    }

    /// Gives out the next task id for no task: the id is used up, and
    /// leads to no task.
    pub fn new_task_id(&mut self) -> (id: TaskId)
        requires
            old(self).wf(),
            old(self).tasks_view().len() < usize::MAX,
        ensures
            final(self).wf(),
            id == old(self).tasks_view().len(),
            final(self).tasks_view() == old(self).tasks_view().push(vacant(id)),
            final(self).task(id) is None,
            final(self).keys_view() == old(self).keys_view(),
            final(self).workers_view() == old(self).workers_view(),
            final(self).clients_view() == old(self).clients_view(),
    {
        let id: TaskId = self.tasks.len() as u64;
        let ghost before = self.tasks_view();
        let task = Task {
            id,
            key: String::new(),
            spec: ClientTaskSpec::Serialized(SerializedMemory::Inline(Vec::new())),
            dependencies: Vec::new(),
            dependents: Vec::new(),
            unmet_count: 0,
            user_priority: 0,
            client_priority: 0,
            scheduler_priority: 0,
            client_owners: Vec::new(),
            worker_owners: Vec::new(),
            actors: None,
            state: TaskRuntimeState::Released,
        };
        proof {
            assert(task@ == vacant(id)) by {
                assert(task@.key =~= Seq::<char>::empty());
                assert(task@.dependencies =~= Seq::<TaskId>::empty());
                assert(task@.dependents =~= Seq::<TaskId>::empty());
                assert(task@.client_owners =~= Seq::<u64>::empty());
                assert(task@.worker_owners =~= Seq::<u64>::empty());
            }
            lemma_vacant_wf(before, self.keys_view());
        }
        self.tasks.push(task);
        proof {
            assert(self.tasks_view() =~= before.push(vacant(id)));
        }
        id
    }

    /// Gives out the next worker id. No worker is connected under it until
    /// one is registered.
    pub fn new_worker_id(&mut self) -> (id: WorkerId)
        ensures
            id == old(self).workers_view().len(),
            final(self).workers_view() == old(self).workers_view().push(None),
            final(self).tasks_view() == old(self).tasks_view(),
            final(self).keys_view() == old(self).keys_view(),
            final(self).clients_view() == old(self).clients_view(),
    {
        let id: WorkerId = self.workers.len() as u64;
        self.workers.push(None);
        id
    }

    /// Gives out the next client id.
    pub fn new_client_id(&mut self) -> (id: ClientId)
        ensures
            id == old(self).clients_view().len(),
            final(self).clients_view() == old(self).clients_view().push(None),
            final(self).tasks_view() == old(self).tasks_view(),
            final(self).keys_view() == old(self).keys_view(),
            final(self).workers_view() == old(self).workers_view(),
    {
        let id: ClientId = self.clients.len() as u64;
        self.clients.push(None);
        id
    }

    /// Whether a worker could be registered under `id`: the id was given
    /// out and no worker is connected under it.
    pub open spec fn worker_slot_free(&self, id: WorkerId) -> bool {
        id < self.workers_view().len() && self.workers_view()[id as int] is None
    }

    /// Whether a client could be registered under `id`.
    pub open spec fn client_slot_free(&self, id: ClientId) -> bool {
        id < self.clients_view().len() && self.clients_view()[id as int] is None
    }

    /// Stores the record of a worker under its id. Nothing is stored, and
    /// `false` returned, unless the id was given out and is not in use.
    pub fn register_worker(&mut self, worker: Worker) -> (registered: bool)
        ensures
            registered == old(self).worker_slot_free(worker.id),
            final(self).workers_view() == if registered {
                old(self).workers_view().update(worker.id as int, Some(worker))
            } else {
                old(self).workers_view()
            },
            final(self).tasks_view() == old(self).tasks_view(),
            final(self).keys_view() == old(self).keys_view(),
            final(self).clients_view() == old(self).clients_view(),
    {
        if worker.id < self.workers.len() as u64 {
            let slot: usize = worker.id as usize;
            if self.workers[slot].is_none() {
                self.workers[slot] = Some(worker);
                return true;
            }
        }
        false
    }

    /// Stores the record of a client under its id. Nothing is stored, and
    /// `false` returned, unless the id was given out and is not in use.
    pub fn register_client(&mut self, client: Client) -> (registered: bool)
        ensures
            registered == old(self).client_slot_free(client.id),
            final(self).clients_view() == if registered {
                old(self).clients_view().update(client.id as int, Some(client))
            } else {
                old(self).clients_view()
            },
            final(self).tasks_view() == old(self).tasks_view(),
            final(self).keys_view() == old(self).keys_view(),
            final(self).workers_view() == old(self).workers_view(),
    {
        if client.id < self.clients.len() as u64 {
            let slot: usize = client.id as usize;
            if self.clients[slot].is_none() {
                self.clients[slot] = Some(client);
                return true;
            }
        }
        false
    }

    /// The ids of the connected workers, in ascending order.
    pub fn worker_ids(&self) -> (ids: Vec<WorkerId>)
        ensures
            ascending(ids@),
            forall|id: WorkerId| ids@.contains(id) <==> self.has_worker(id),
    {
        let mut ids: Vec<WorkerId> = Vec::new();
        let mut i: usize = 0;
        while i < self.workers.len()
            invariant
                i <= self.workers.len(),
                ascending(ids@),
                forall|k: int| 0 <= k < ids@.len() ==> ids@[k] < i,
                forall|id: WorkerId| ids@.contains(id) <==> id < i && self.has_worker(id),
            decreases self.workers.len() - i,
        {
            if self.workers[i].is_some() {
                let ghost before = ids@;
                ids.push(i as u64);
                proof {
                    assert forall|id: WorkerId| ids@.contains(id) <==> id < i + 1
                        && self.has_worker(id) by {
                        if ids@.contains(id) {
                            let k = choose|k: int| 0 <= k < ids@.len() && ids@[k] == id;
                            if k < before.len() {
                                assert(before[k] == id);
                                assert(before.contains(id));
                            }
                        }
                        if id < i + 1 && self.has_worker(id) {
                            if id < i {
                                assert(before.contains(id));
                                let k = choose|k: int| 0 <= k < before.len() && before[k] == id;
                                assert(ids@[k] == id);
                            } else {
                                assert(ids@[before.len() as int] == id);
                            }
                        }
                    }
                }
            }
            i += 1;
        }
        ids
    }

    /// The ids of the connected clients, in ascending order.
    pub fn client_ids(&self) -> (ids: Vec<ClientId>)
        ensures
            ascending(ids@),
            forall|id: ClientId| ids@.contains(id) <==> self.has_client(id),
    {
        let mut ids: Vec<ClientId> = Vec::new();
        let mut i: usize = 0;
        while i < self.clients.len()
            invariant
                i <= self.clients.len(),
                ascending(ids@),
                forall|k: int| 0 <= k < ids@.len() ==> ids@[k] < i,
                forall|id: ClientId| ids@.contains(id) <==> id < i && self.has_client(id),
            decreases self.clients.len() - i,
        {
            if self.clients[i].is_some() {
                let ghost before = ids@;
                ids.push(i as u64);
                proof {
                    assert forall|id: ClientId| ids@.contains(id) <==> id < i + 1
                        && self.has_client(id) by {
                        if ids@.contains(id) {
                            let k = choose|k: int| 0 <= k < ids@.len() && ids@[k] == id;
                            if k < before.len() {
                                assert(before[k] == id);
                                assert(before.contains(id));
                            }
                        }
                        if id < i + 1 && self.has_client(id) {
                            if id < i {
                                assert(before.contains(id));
                                let k = choose|k: int| 0 <= k < before.len() && before[k] == id;
                                assert(ids@[k] == id);
                            } else {
                                assert(ids@[before.len() as int] == id);
                            }
                        }
                    }
                }
            }
            i += 1;
        }
        ids
    }
}

/// A key leads to the task that has it, and the id of a stored task leads
/// back to the same task by its key.
pub proof fn lemma_key_id_bijection(core: &Core, key: Seq<char>, id: TaskId)
    requires
        core.wf(),
    ensures
        core.task_by_key(key) matches Some(t) ==> t.key == key && core.task(t.id) == Some(t),
        core.task(id) matches Some(t) ==> t.id == id && core.task_by_key(t.key) == Some(t),
        core.keys_view().contains_key(key) ==> core.task_by_key(key) is Some,
{
    let tasks = core.tasks_view();
    if core.keys_view().contains_key(key) {
        let i = core.keys_view()[key];
        assert(tasks[i as int].id == i);
    }
    if is_live(tasks, id) {
        assert(tasks[id as int].id == id);
    }
}

/// Among the stored tasks, one task depends on a second exactly if the
/// second has the first among its dependents.
pub proof fn lemma_dependency_symmetry(core: &Core, t: TaskId, d: TaskId)
    requires
        core.wf(),
    ensures
        (core.task(t) matches Some(task) && task.dependencies.contains(d)) <==> (core.task(
            d,
        ) matches Some(dep) && dep.dependents.contains(t)),
{
    let tasks = core.tasks_view();
    if t < tasks.len() && tasks[t as int].dependencies.contains(d) {
        let j = choose|j: int|
            0 <= j < tasks[t as int].dependencies.len() && tasks[t as int].dependencies[j] == d;
        assert(is_live(tasks, tasks[t as int].dependencies[j]));
        assert(tasks[d as int].dependents.contains(t));
        assert(task_wf(tasks[t as int]));
    }
    if d < tasks.len() && tasks[d as int].dependents.contains(t) {
        let j = choose|j: int|
            0 <= j < tasks[d as int].dependents.len() && tasks[d as int].dependents[j] == t;
        assert(tasks[d as int].dependents[j] < tasks.len());
        assert(tasks[t as int].dependencies.contains(d));
        assert(task_wf(tasks[t as int]));
        assert(task_wf(tasks[d as int]));
    }
}

/// A stored task counts exactly its dependencies that are not in memory:
/// its count is the number of elements of the set of those dependencies.
/// While it waits there is at least one, and once it is ready there is none.
pub proof fn lemma_count_correct(core: &Core, id: TaskId)
    requires
        core.wf(),
        core.task(id) is Some,
    ensures
        core.task(id)->0.unmet_count == unmet(core.task(id)->0.dependencies, core.tasks_view()),
        unmet_set(core.task(id)->0.dependencies, core.tasks_view()).finite(),
        core.task(id)->0.unmet_count == unmet_set(
            core.task(id)->0.dependencies,
            core.tasks_view(),
        ).len(),
        core.task(id)->0.state is Waiting ==> unmet(
            core.task(id)->0.dependencies,
            core.tasks_view(),
        ) > 0,
        core.task(id)->0.state is Ready ==> unmet(
            core.task(id)->0.dependencies,
            core.tasks_view(),
        ) == 0,
{
    let tasks = core.tasks_view();
    assert(task_wf(tasks[id as int]));
    lemma_unmet_is_cardinality(tasks[id as int].dependencies, tasks);
}

} // verus!
