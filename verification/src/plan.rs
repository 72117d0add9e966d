//! Resolving the keys of a submission to ids before anything is stored.

use vstd::prelude::*;
use vstd::hash_map::StringHashMap;
use crate::clientmsg::ClientTaskSpec;
use crate::error::EngineError;
use crate::frames::{MemoryModel, SerializedMemory};
use crate::model::{index_wf, is_live, TaskModel};
use crate::order::list_views;
use crate::store::Core;
use crate::task::{key_views, list_contains, Priority, TaskId};

verus! {

/// One task of a submission, its dependencies given by their keys.
pub struct NewTask {
    pub key: String,
    pub spec: ClientTaskSpec<SerializedMemory>,
    pub dependencies: Vec<String>,
    pub client_priority: Priority,
    pub actors: Option<bool>,
}

/// Mathematical content of a [`NewTask`].
pub struct NewTaskModel {
    pub key: Seq<char>,
    pub spec: ClientTaskSpec<MemoryModel>,
    pub dependencies: Seq<Seq<char>>,
    pub client_priority: Priority,
    pub actors: Option<bool>,
}

impl View for NewTask {
    type V = NewTaskModel;

    open spec fn view(&self) -> NewTaskModel {
        NewTaskModel {
            key: self.key@,
            spec: self.spec@,
            dependencies: key_views(self.dependencies@),
            client_priority: self.client_priority,
            actors: self.actors,
        }
    }
}

/// The content of each task of a submission.
pub open spec fn batch_views(batch: Seq<NewTask>) -> Seq<NewTaskModel> {
    batch.map_values(|t: NewTask| t@)
}

/// The keys of the tasks of a submission, in their order.
pub open spec fn batch_keys(batch: Seq<NewTaskModel>) -> Seq<Seq<char>> {
    Seq::new(batch.len(), |i: int| batch[i].key)
}

/// Whether a key occurs twice in the submission.
pub open spec fn has_duplicate(batch: Seq<NewTaskModel>) -> bool {
    !batch_keys(batch).no_duplicates()
}

/// Whether the task at position `i` of the submission is new to the store.
pub open spec fn is_new(keys: Map<Seq<char>, TaskId>, batch: Seq<NewTaskModel>, i: int) -> bool {
    !keys.contains_key(batch[i].key)
}

/// The number of tasks before position `i` that are new to the store.
pub open spec fn rank(keys: Map<Seq<char>, TaskId>, batch: Seq<NewTaskModel>, i: int) -> nat
    decreases i,
{
    if i <= 0 {
        0
    } else {
        rank(keys, batch, i - 1) + if is_new(keys, batch, i - 1) {
            1nat
        } else {
            0nat
        }
    }
}

/// The id of the task at position `i` of the submission: the id that its
/// key leads to in the store, else the next free id, new tasks being
/// numbered from `base` in the order in which they are submitted.
pub open spec fn entry_id(
    keys: Map<Seq<char>, TaskId>,
    base: nat,
    batch: Seq<NewTaskModel>,
    i: int,
) -> TaskId {
    if keys.contains_key(batch[i].key) {
        keys[batch[i].key]
    } else {
        (base + rank(keys, batch, i)) as TaskId
    }
}

/// The id that a key stands for: that of a stored task, else that of a
/// task of the submission; none if the key is unknown.
pub open spec fn resolve(
    keys: Map<Seq<char>, TaskId>,
    base: nat,
    batch: Seq<NewTaskModel>,
    key: Seq<char>,
) -> Option<TaskId> {
    if keys.contains_key(key) {
        Some(keys[key])
    } else if batch_keys(batch).contains(key) {
        Some(entry_id(keys, base, batch, batch_keys(batch).index_of(key)))
    } else {
        None
    }
}

/// Whether some task of the submission depends on a key that is neither
/// stored nor submitted with it.
pub open spec fn has_unknown(keys: Map<Seq<char>, TaskId>, batch: Seq<NewTaskModel>) -> bool {
    exists|i: int, j: int|
        0 <= i < batch.len() && 0 <= j < batch[i].dependencies.len() && !keys.contains_key(
            #[trigger] batch[i].dependencies[j],
        ) && !batch_keys(batch).contains(batch[i].dependencies[j])
}

/// The ids that the given keys stand for, each once, in the order in
/// which they first occur.
pub open spec fn dep_ids(
    keys: Map<Seq<char>, TaskId>,
    base: nat,
    batch: Seq<NewTaskModel>,
    deps: Seq<Seq<char>>,
) -> Seq<TaskId>
    decreases deps.len(),
{
    if deps.len() == 0 {
        Seq::empty()
    } else {
        let before = dep_ids(keys, base, batch, deps.drop_last());
        let id = resolve(keys, base, batch, deps.last())->0;
        if before.contains(id) {
            before
        } else {
            before.push(id)
        }
    }
}

/// The positions of the first `n` tasks of the submission that are new
/// to the store.
pub open spec fn fresh_positions(keys: Map<Seq<char>, TaskId>, batch: Seq<NewTaskModel>, n: int) -> Seq<
    usize,
>
    decreases n,
{
    if n <= 0 {
        Seq::empty()
    } else if is_new(keys, batch, n - 1) {
        fresh_positions(keys, batch, n - 1).push((n - 1) as usize)
    } else {
        fresh_positions(keys, batch, n - 1)
    }
}

/// The dependencies, as ids, of those of the first `n` tasks of the
/// submission that are new to the store.
pub open spec fn fresh_lists(
    keys: Map<Seq<char>, TaskId>,
    base: nat,
    batch: Seq<NewTaskModel>,
    n: int,
) -> Seq<Seq<TaskId>>
    decreases n,
{
    if n <= 0 {
        Seq::empty()
    } else if is_new(keys, batch, n - 1) {
        fresh_lists(keys, base, batch, n - 1).push(
            dep_ids(keys, base, batch, batch[n - 1].dependencies),
        )
    } else {
        fresh_lists(keys, base, batch, n - 1)
    }
}

/// Which tasks of a submission are new, and what each of them depends on.
pub struct Plan {
    /// The positions in the submission of the tasks that are new.
    pub positions: Vec<usize>,
    /// The dependencies of each of them, as ids.
    pub lists: Vec<Vec<TaskId>>,
}

/// What is known of the new tasks among the first `n` of a submission.
pub proof fn lemma_fresh(keys: Map<Seq<char>, TaskId>, base: nat, batch: Seq<NewTaskModel>, n: int)
    requires
        0 <= n <= batch.len(),
        batch.len() <= usize::MAX,
    ensures
        fresh_positions(keys, batch, n).len() == rank(keys, batch, n),
        fresh_lists(keys, base, batch, n).len() == rank(keys, batch, n),
        rank(keys, batch, n) <= n,
        forall|r: int|
            0 <= r < rank(keys, batch, n) ==> {
                let p = #[trigger] fresh_positions(keys, batch, n)[r];
                &&& 0 <= p < n
                &&& is_new(keys, batch, p as int)
                &&& rank(keys, batch, p as int) == r
                &&& fresh_lists(keys, base, batch, n)[r] == dep_ids(
                    keys,
                    base,
                    batch,
                    batch[p as int].dependencies,
                )
            },
        forall|i: int|
            0 <= i < n && is_new(keys, batch, i) ==> #[trigger] rank(keys, batch, i) < rank(
                keys,
                batch,
                n,
            ),
        forall|a: int, b: int|
            0 <= a < b < rank(keys, batch, n) ==> fresh_positions(keys, batch, n)[a]
                < fresh_positions(keys, batch, n)[b],
    decreases n,
{
    if n > 0 {
        lemma_fresh(keys, base, batch, n - 1);
        let before = fresh_positions(keys, batch, n - 1);
        let now = fresh_positions(keys, batch, n);
        assert forall|r: int| 0 <= r < rank(keys, batch, n) implies {
            let p = #[trigger] fresh_positions(keys, batch, n)[r];
            &&& 0 <= p < n
            &&& is_new(keys, batch, p as int)
            &&& rank(keys, batch, p as int) == r
            &&& fresh_lists(keys, base, batch, n)[r] == dep_ids(
                keys,
                base,
                batch,
                batch[p as int].dependencies,
            )
        } by {
            let lists_before = fresh_lists(keys, base, batch, n - 1);
            let lists_now = fresh_lists(keys, base, batch, n);
            if r < rank(keys, batch, n - 1) {
                assert(now[r] == before[r]);
                assert(lists_now[r] == lists_before[r]);
            } else {
                assert(is_new(keys, batch, n - 1));
                assert(now[r] == (n - 1) as usize);
                assert(lists_now[r] == dep_ids(keys, base, batch, batch[n - 1].dependencies));
            }
        }
        assert forall|a: int, b: int| 0 <= a < b < rank(keys, batch, n) implies now[a]
            < now[b] by {
            if b < rank(keys, batch, n - 1) {
                assert(now[a] == before[a] && now[b] == before[b]);
            } else {
                assert(now[a] == before[a]);
            }
        }
    }
}

/// What is known of the ids that the dependencies of a task stand for,
/// where none of them is unknown.
pub proof fn lemma_dep_ids(
    tasks: Seq<TaskModel>,
    keys: Map<Seq<char>, TaskId>,
    batch: Seq<NewTaskModel>,
    deps: Seq<Seq<char>>,
)
    requires
        index_wf(tasks, keys),
        batch.len() <= usize::MAX,
        batch_keys(batch).no_duplicates(),
        forall|j: int|
            0 <= j < deps.len() ==> keys.contains_key(#[trigger] deps[j]) || batch_keys(
                batch,
            ).contains(deps[j]),
        tasks.len() + batch.len() <= u64::MAX,
    ensures
        dep_ids(keys, tasks.len(), batch, deps).no_duplicates(),
        forall|k: int|
            0 <= k < dep_ids(keys, tasks.len(), batch, deps).len() ==> {
                let d = #[trigger] dep_ids(keys, tasks.len(), batch, deps)[k];
                &&& d < tasks.len() + rank(keys, batch, batch.len() as int)
                &&& d < tasks.len() ==> is_live(tasks, d)
            },
    decreases deps.len(),
{
    if deps.len() > 0 {
        let front = deps.drop_last();
        assert forall|j: int| 0 <= j < front.len() implies keys.contains_key(#[trigger] front[j])
            || batch_keys(batch).contains(front[j]) by {
            assert(front[j] == deps[j]);
        }
        lemma_dep_ids(tasks, keys, batch, front);
        let before = dep_ids(keys, tasks.len(), batch, front);
        let key = deps.last();
        assert(key == deps[deps.len() - 1]);
        let id = resolve(keys, tasks.len(), batch, key)->0;
        if keys.contains_key(key) {
            assert(is_live(tasks, keys[key]));
        } else {
            let p = batch_keys(batch).index_of(key);
            assert(batch_keys(batch)[p] == key);
            lemma_fresh(keys, tasks.len(), batch, batch.len() as int);
            assert(is_new(keys, batch, p));
            assert(rank(keys, batch, p) < rank(keys, batch, batch.len() as int));
        }
        lemma_fresh(keys, tasks.len(), batch, batch.len() as int);
        if !before.contains(id) {
            let all = before.push(id);
            assert forall|a: int, b: int| 0 <= a < all.len() && 0 <= b < all.len() && a
                != b implies all[a] != all[b] by {
                if a < before.len() {
                    assert(before.contains(before[a]));
                }
                if b < before.len() {
                    assert(before.contains(before[b]));
                }
            }
        }
    }
}

/// Whether `index` leads from the key of each of the first `n` tasks of
/// the submission to the id of that task, and from no other key.
#[verifier::opaque]
pub open spec fn indexed(
    index: Map<Seq<char>, TaskId>,
    keys: Map<Seq<char>, TaskId>,
    base: nat,
    batch: Seq<NewTaskModel>,
    n: int,
) -> bool {
    &&& forall|k: Seq<char>| #[trigger]
        index.contains_key(k) ==> batch_keys(batch).take(n).contains(k)
    &&& forall|j: int|
        0 <= j < n ==> index.contains_key(#[trigger] batch_keys(batch)[j]) && index[batch_keys(
            batch,
        )[j]] == entry_id(keys, base, batch, j)
}

/// What a look-up in the index of a submission says.
pub proof fn lemma_indexed_lookup(
    index: Map<Seq<char>, TaskId>,
    keys: Map<Seq<char>, TaskId>,
    base: nat,
    batch: Seq<NewTaskModel>,
    n: int,
    key: Seq<char>,
)
    requires
        indexed(index, keys, base, batch, n),
        0 <= n <= batch.len(),
        batch_keys(batch).take(n).no_duplicates(),
    ensures
        index.contains_key(key) <==> batch_keys(batch).take(n).contains(key),
        index.contains_key(key) ==> index[key] == entry_id(
            keys,
            base,
            batch,
            batch_keys(batch).take(n).index_of(key),
        ),
{
    reveal(indexed);
    let seen = batch_keys(batch).take(n);
    if seen.contains(key) {
        let p = seen.index_of(key);
        assert(seen[p] == key);
        assert(batch_keys(batch)[p] == key);
    }
}

/// The index of a submission after the key of one more task was entered.
pub proof fn lemma_indexed_insert(
    index: Map<Seq<char>, TaskId>,
    keys: Map<Seq<char>, TaskId>,
    base: nat,
    batch: Seq<NewTaskModel>,
    n: int,
)
    requires
        indexed(index, keys, base, batch, n),
        0 <= n < batch.len(),
        !index.contains_key(batch[n].key),
        batch_keys(batch).take(n).no_duplicates(),
    ensures
        indexed(
            index.insert(batch[n].key, entry_id(keys, base, batch, n)),
            keys,
            base,
            batch,
            n + 1,
        ),
        batch_keys(batch).take(n + 1).no_duplicates(),
{
    reveal(indexed);
    let names = batch_keys(batch);
    let seen = names.take(n);
    let next = names.take(n + 1);
    let after = index.insert(batch[n].key, entry_id(keys, base, batch, n));
    assert(next =~= seen.push(names[n]));
    assert forall|k: Seq<char>| #[trigger] after.contains_key(k) implies next.contains(k) by {
        if k == names[n] {
            assert(next[n] == k);
        } else {
            let a = choose|a: int| 0 <= a < seen.len() && seen[a] == k;
            assert(next[a] == k);
        }
    }
    assert forall|j: int| 0 <= j < n + 1 implies after.contains_key(#[trigger] names[j])
        && after[names[j]] == entry_id(keys, base, batch, j) by {
        if j < n {
            assert(seen[j] == names[j]);
            assert(seen.contains(names[j]));
        }
    }
    assert forall|a: int, b: int| 0 <= a < next.len() && 0 <= b < next.len() && a
        != b implies next[a] != next[b] by {
        if a < n {
            assert(seen[a] == next[a]);
            assert(seen.contains(seen[a]));
        }
        if b < n {
            assert(seen[b] == next[b]);
            assert(seen.contains(seen[b]));
        }
    }
}

impl Core {
    /// Enters the key of each task of a submission in an index, and
    /// notes the positions of the tasks that are new to the store. There
    /// is no index if a key occurs twice.
    fn index_batch(&self, batch: &Vec<NewTask>) -> (found: Option<(StringHashMap<TaskId>, Vec<usize>)>)
        requires
            self.wf(),
            self.tasks_view().len() + batch@.len() <= usize::MAX,
        ensures
            found is None <==> has_duplicate(batch_views(batch@)),
            found matches Some(pair) ==> indexed(
                pair.0@,
                self.keys_view(),
                self.tasks_view().len(),
                batch_views(batch@),
                batch@.len() as int,
            ) && pair.1@ == fresh_positions(
                self.keys_view(),
                batch_views(batch@),
                batch@.len() as int,
            ),
    {
        let ghost entries = batch_views(batch@);
        let ghost keys = self.keys_view();
        let ghost names = batch_keys(entries);
        let base: usize = self.tasks.len();
        let mut index: StringHashMap<TaskId> = StringHashMap::new();
        let mut positions: Vec<usize> = Vec::new();
        let mut i: usize = 0;
        proof {
            reveal(indexed);
        }
        while i < batch.len()
            invariant
                i <= batch.len(),
                entries == batch_views(batch@),
                names == batch_keys(entries),
                keys == self.keys_view(),
                base == self.tasks_view().len(),
                base + batch@.len() <= usize::MAX,
                positions@ == fresh_positions(keys, entries, i as int),
                positions@.len() == rank(keys, entries, i as int),
                positions@.len() <= i,
                indexed(index@, keys, base as nat, entries, i as int),
                names.take(i as int).no_duplicates(),
            decreases batch.len() - i,
        {
            let ghost seen = names.take(i as int);
            proof {
                assert(names[i as int] == batch@[i as int]@.key);
                lemma_indexed_lookup(index@, keys, base as nat, entries, i as int, names[i as int]);
            }
            let key = &batch[i].key;
            if index.contains_key(key.as_str()) {
                proof {
                    let first = choose|a: int| 0 <= a < seen.len() && seen[a] == names[i as int];
                    assert(names[first] == names[i as int]);
                }
                return None;
            }
            let id: TaskId = match self.key_index.get(key.as_str()) {
                Some(found) => *found,
                None => {
                    let fresh: usize = base + positions.len();
                    positions.push(i);
                    fresh as u64
                },
            };
            proof {
                lemma_indexed_insert(index@, keys, base as nat, entries, i as int);
            }
            index.insert(key.clone(), id);
            i += 1;
        }
        proof {
            assert(names.take(i as int) =~= names);
        }
        Some((index, positions))
    }

    /// Finds the ids that the given keys stand for, each once. There is
    /// no such list if one of the keys is neither stored nor submitted.
    fn resolve_all(
        &self,
        index: &StringHashMap<TaskId>,
        deps: &Vec<String>,
        Ghost(batch): Ghost<Seq<NewTaskModel>>,
    ) -> (found: Option<Vec<TaskId>>)
        requires
            self.wf(),
            indexed(
                index@,
                self.keys_view(),
                self.tasks_view().len(),
                batch,
                batch.len() as int,
            ),
            batch_keys(batch).no_duplicates(),
        ensures
            found is Some <==> forall|j: int|
                0 <= j < deps@.len() ==> self.keys_view().contains_key(
                    #[trigger] key_views(deps@)[j],
                ) || batch_keys(batch).contains(key_views(deps@)[j]),
            found matches Some(list) ==> list@ == dep_ids(
                self.keys_view(),
                self.tasks_view().len(),
                batch,
                key_views(deps@),
            ),
    {
        let ghost keys = self.keys_view();
        let ghost base = self.tasks_view().len();
        let ghost names = batch_keys(batch);
        let ghost wanted = key_views(deps@);
        let mut list: Vec<TaskId> = Vec::new();
        let mut j: usize = 0;
        proof {
            assert(names.take(batch.len() as int) =~= names);
        }
        while j < deps.len()
            invariant
                j <= deps.len(),
                keys == self.keys_view(),
                base == self.tasks_view().len(),
                names == batch_keys(batch),
                wanted == key_views(deps@),
                names.take(batch.len() as int) == names,
                names.no_duplicates(),
                indexed(index@, keys, base, batch, batch.len() as int),
                list@ == dep_ids(keys, base, batch, wanted.take(j as int)),
                forall|k: int|
                    0 <= k < j ==> keys.contains_key(#[trigger] wanted[k]) || names.contains(
                        wanted[k],
                    ),
            decreases deps.len() - j,
        {
            let dep = &deps[j];
            proof {
                assert(wanted.take(j + 1).drop_last() =~= wanted.take(j as int));
                assert(wanted.take(j + 1).last() == dep@);
                assert(wanted[j as int] == dep@);
                lemma_indexed_lookup(index@, keys, base, batch, batch.len() as int, dep@);
            }
            let id: TaskId = match self.key_index.get(dep.as_str()) {
                Some(found) => *found,
                None => match index.get(dep.as_str()) {
                    Some(found) => *found,
                    None => {
                        return None;
                    },
                },
            };
            if !list_contains(&list, id) {
                list.push(id);
            }
            j += 1;
        }
        proof {
            assert(wanted.take(j as int) =~= wanted);
        }
        Some(list)
    }

    /// Finds the tasks of a submission that are new to the store, and
    /// the ids that the dependencies of each stand for. The submission is
    /// turned down if a key occurs twice in it, or else if a task
    /// depends on a key that is neither stored nor submitted with it.
    pub fn plan_batch(&self, batch: &Vec<NewTask>) -> (plan: Result<Plan, EngineError>)
        requires
            self.wf(),
            self.tasks_view().len() + batch@.len() <= usize::MAX,
        ensures
            match plan {
                Err(e) => e == (if has_duplicate(batch_views(batch@)) {
                    EngineError::DuplicateKey
                } else {
                    EngineError::UnknownDependency
                }) && (has_duplicate(batch_views(batch@)) || has_unknown(
                    self.keys_view(),
                    batch_views(batch@),
                )),
                Ok(p) => {
                    &&& !has_duplicate(batch_views(batch@))
                    &&& !has_unknown(self.keys_view(), batch_views(batch@))
                    &&& p.positions@ == fresh_positions(
                        self.keys_view(),
                        batch_views(batch@),
                        batch@.len() as int,
                    )
                    &&& list_views(p.lists@) == fresh_lists(
                        self.keys_view(),
                        self.tasks_view().len(),
                        batch_views(batch@),
                        batch@.len() as int,
                    )
                },
            },
    {
        let ghost entries = batch_views(batch@);
        let ghost keys = self.keys_view();
        let ghost names = batch_keys(entries);
        let ghost base = self.tasks_view().len();
        let (index, positions) = match self.index_batch(batch) {
            Some(pair) => pair,
            None => { return Err(EngineError::DuplicateKey); },
        };
        let mut lists: Vec<Vec<TaskId>> = Vec::new();
        let mut e: usize = 0;
        while e < batch.len()
            invariant
                e <= batch.len(),
                self.wf(),
                entries == batch_views(batch@),
                names == batch_keys(entries),
                keys == self.keys_view(),
                base == self.tasks_view().len(),
                names.no_duplicates(),
                indexed(index@, keys, base, entries, entries.len() as int),
                list_views(lists@) == fresh_lists(keys, base, entries, e as int),
                forall|a: int, j: int|
                    0 <= a < e && 0 <= j < entries[a].dependencies.len() ==> keys.contains_key(
                        #[trigger] entries[a].dependencies[j],
                    ) || names.contains(entries[a].dependencies[j]),
            decreases batch.len() - e,
        {
            proof {
                assert(entries[e as int] == batch@[e as int]@);
                assert(entries[e as int].dependencies == key_views(batch@[e as int].dependencies@));
            }
            let list = match self.resolve_all(&index, &batch[e].dependencies, Ghost(entries)) {
                Some(list) => list,
                None => {
                    proof {
                        let wanted = entries[e as int].dependencies;
                        let j = choose|j: int|
                            0 <= j < wanted.len() && !(keys.contains_key(#[trigger] wanted[j])
                                || names.contains(wanted[j]));
                        assert(!keys.contains_key(entries[e as int].dependencies[j]));
                    }
                    return Err(EngineError::UnknownDependency);
                },
            };
            if self.key_index.get(batch[e].key.as_str()).is_none() {
                let ghost before = lists@;
                lists.push(list);
                proof {
                    assert(list_views(lists@) =~= list_views(before).push(list@));
                }
            }
            e += 1;
        }
        proof {
            if has_unknown(keys, entries) {
                let (a, j) = choose|a: int, j: int|
                    0 <= a < entries.len() && 0 <= j < entries[a].dependencies.len()
                        && !keys.contains_key(#[trigger] entries[a].dependencies[j])
                        && !batch_keys(entries).contains(entries[a].dependencies[j]);
                assert(keys.contains_key(entries[a].dependencies[j]) || names.contains(
                    entries[a].dependencies[j],
                ));
            }
        }
        Ok(Plan { positions, lists })
    }
}

} // verus!
