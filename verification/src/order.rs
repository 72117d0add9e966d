//! An order of new tasks in which each comes after its dependencies.

use vstd::prelude::*;
use crate::task::TaskId;

verus! {

/// Whether `id` is one of the `count` ids from `base` on: the id of a
/// task that is being added.
pub open spec fn is_fresh(base: TaskId, count: nat, id: TaskId) -> bool {
    base <= id < base + count
}

/// The dependencies of the task `id` that is being added, where
/// `lists` holds those of the task `base` first.
pub open spec fn deps_at(lists: Seq<Seq<TaskId>>, base: TaskId, id: TaskId) -> Seq<TaskId> {
    lists[id - base]
}

/// Whether one of the given dependencies is in `set`.
pub open spec fn leans_on(deps: Seq<TaskId>, set: Set<TaskId>) -> bool {
    exists|j: int| 0 <= j < deps.len() && set.contains(#[trigger] deps[j])
}

/// Whether `set` is a group of tasks that are being added, none of which
/// can come first: each depends on another of the group.
pub open spec fn stuck(set: Set<TaskId>, base: TaskId, lists: Seq<Seq<TaskId>>) -> bool {
    &&& exists|t: TaskId| set.contains(t)
    &&& forall|t: TaskId| #[trigger]
        set.contains(t) ==> is_fresh(base, lists.len(), t) && leans_on(
            deps_at(lists, base, t),
            set,
        )
}

/// Whether the dependencies among the tasks that are being added form a cycle.
pub open spec fn has_cycle(base: TaskId, lists: Seq<Seq<TaskId>>) -> bool {
    exists|set: Set<TaskId>| stuck(set, base, lists)
}

/// Whether `order` lists the first tasks of a topological order: each
/// once, and each after those of its dependencies that are being added
/// with it.
pub open spec fn is_partial_order(order: Seq<TaskId>, base: TaskId, lists: Seq<Seq<TaskId>>) -> bool {
    &&& order.no_duplicates()
    &&& forall|k: int| 0 <= k < order.len() ==> is_fresh(base, lists.len(), #[trigger] order[k])
    &&& forall|k: int, j: int|
        0 <= k < order.len() && 0 <= j < deps_at(lists, base, order[k]).len() && base <= deps_at(
            lists,
            base,
            order[k],
        )[j] ==> order.take(k).contains(#[trigger] deps_at(lists, base, order[k])[j])
}

/// Whether `order` is a topological order of the tasks that are being
/// added: it lists each of them once, and each after those of its
/// dependencies that are being added with it.
pub open spec fn is_topological(order: Seq<TaskId>, base: TaskId, lists: Seq<Seq<TaskId>>) -> bool {
    &&& is_partial_order(order, base, lists)
    &&& forall|t: TaskId| is_fresh(base, lists.len(), t) ==> order.contains(t)
}

/// The number of entries that are `false`.
pub open spec fn count_false(flags: Seq<bool>) -> nat
    decreases flags.len(),
{
    if flags.len() == 0 {
        0
    } else {
        count_false(flags.drop_last()) + if flags.last() {
            0nat
        } else {
            1nat
        }
    }
}

/// Setting an entry that was `false` leaves one less.
pub proof fn lemma_count_false_set(flags: Seq<bool>, at: int)
    requires
        0 <= at < flags.len(),
        !flags[at],
    ensures
        count_false(flags.update(at, true)) == count_false(flags) - 1,
    decreases flags.len(),
{
    if at == flags.len() - 1 {
        assert(flags.update(at, true).drop_last() =~= flags.drop_last());
    } else {
        lemma_count_false_set(flags.drop_last(), at);
        assert(flags.update(at, true).drop_last() =~= flags.drop_last().update(at, true));
    }
}

/// Whether each of the given dependencies was there before, or is listed already.
pub open spec fn all_listed(base: TaskId, deps: Seq<TaskId>, done: Seq<bool>) -> bool {
    forall|j: int| 0 <= j < deps.len() ==> #[trigger] deps[j] < base || done[deps[j] - base]
}

fn all_emitted(base: TaskId, deps: &Vec<TaskId>, done: &Vec<bool>) -> (ok: bool)
    requires
        forall|j: int| 0 <= j < deps@.len() ==> #[trigger] deps@[j] < base + done@.len(),
    ensures
        ok == all_listed(base, deps@, done@),
{
    let mut j: usize = 0;
    while j < deps.len()
        invariant
            j <= deps.len(),
            forall|k: int| 0 <= k < deps@.len() ==> #[trigger] deps@[k] < base + done@.len(),
            forall|k: int| 0 <= k < j ==> #[trigger] deps@[k] < base || done@[deps@[k] - base],
        decreases deps.len() - j,
    {
        let d: TaskId = deps[j];
        if d >= base {
            let at: u64 = d - base;
            assert(at < done.len());
            if !done[at as usize] {
                return false;
            }
        }
        j += 1;
    }
    true
}

/// No group of tasks is stuck when a topological order exists.
pub proof fn lemma_order_excludes_cycle(order: Seq<TaskId>, base: TaskId, lists: Seq<Seq<TaskId>>)
    requires
        is_topological(order, base, lists),
    ensures
        !has_cycle(base, lists),
{
    if has_cycle(base, lists) {
        let set = choose|set: Set<TaskId>| stuck(set, base, lists);
        lemma_no_stuck_member(order, base, lists, set, order.len() as int);
        let t = choose|t: TaskId| set.contains(t);
        assert(order.contains(t));
        let k = choose|k: int| 0 <= k < order.len() && order[k] == t;
        assert(order.take(order.len() as int)[k] == t);
    }
}

/// None of the first `upto` tasks of an order belongs to a stuck group.
pub proof fn lemma_no_stuck_member(
    order: Seq<TaskId>,
    base: TaskId,
    lists: Seq<Seq<TaskId>>,
    set: Set<TaskId>,
    upto: int,
)
    requires
        is_partial_order(order, base, lists),
        stuck(set, base, lists),
        0 <= upto <= order.len(),
    ensures
        forall|t: TaskId| set.contains(t) ==> !order.take(upto).contains(t),
    decreases upto,
{
    if upto > 0 {
        lemma_no_stuck_member(order, base, lists, set, upto - 1);
        let x = order[upto - 1];
        assert(order.take(upto) =~= order.take(upto - 1).push(x));
        if set.contains(x) {
            let deps = deps_at(lists, base, x);
            let j = choose|j: int| 0 <= j < deps.len() && set.contains(#[trigger] deps[j]);
            assert(is_fresh(base, lists.len(), deps[j]));
            assert(order.take(upto - 1).contains(deps_at(lists, base, order[upto - 1])[j]));
        }
        assert forall|t: TaskId| set.contains(t) implies !order.take(upto).contains(t) by {
            if order.take(upto).contains(t) {
                let k = choose|k: int| 0 <= k < upto && order.take(upto)[k] == t;
                if k < upto - 1 {
                    assert(order.take(upto - 1)[k] == t);
                }
            }
        }
    }
}

/// Where a partial order cannot be extended, the tasks that it leaves out are stuck.
pub proof fn lemma_blocked_is_cycle(
    order: Seq<TaskId>,
    done: Seq<bool>,
    base: TaskId,
    lists: Seq<Seq<TaskId>>,
    left: int,
)
    requires
        done.len() == lists.len(),
        base + lists.len() <= u64::MAX,
        0 <= left < done.len(),
        !done[left],
        forall|r: int| 0 <= r < done.len() && !#[trigger] done[r] ==> !all_listed(base, lists[r], done),
        forall|r: int, j: int|
            0 <= r < lists.len() && 0 <= j < lists[r].len() ==> #[trigger] lists[r][j] < base
                + lists.len(),
    ensures
        has_cycle(base, lists),
{
    let set = Set::new(|t: TaskId| is_fresh(base, lists.len(), t) && !done[t - base]);
    assert(set.contains((base + left) as TaskId));
    assert forall|t: TaskId| #[trigger] set.contains(t) implies is_fresh(base, lists.len(), t)
        && leans_on(deps_at(lists, base, t), set) by {
        let r = t - base;
        assert(!done[r]);
        assert(!all_listed(base, lists[r], done));
        let deps = lists[r];
        let j = choose|j: int| 0 <= j < deps.len() && !(#[trigger] deps[j] < base || done[deps[j]
            - base]);
        assert(lists[r][j] < base + lists.len());
        assert(set.contains(deps[j]));
    }
    assert(stuck(set, base, lists));
}

/// The lists of ids that the given vectors hold.
pub open spec fn list_views(lists: Seq<Vec<TaskId>>) -> Seq<Seq<TaskId>> {
    lists.map_values(|l: Vec<TaskId>| l@)
}

/// Puts the tasks that are being added in an order in which each comes
/// after its dependencies. The task at position `r` of `lists` has the id
/// `base + r`; a dependency below `base` was there before. There is no
/// such order exactly if the dependencies form a cycle.
pub fn topological_order(base: TaskId, lists: &Vec<Vec<TaskId>>) -> (order: Option<Vec<TaskId>>)
    requires
        base + lists@.len() <= u64::MAX,
        forall|r: int, j: int|
            0 <= r < lists@.len() && 0 <= j < lists@[r]@.len() ==> #[trigger] lists@[r]@[j] < base
                + lists@.len(),
    ensures
        order is None <==> has_cycle(base, list_views(lists@)),
        order matches Some(o) ==> is_topological(o@, base, list_views(lists@)),
{
    let ghost graph = list_views(lists@);
    let count: usize = lists.len();
    let mut done: Vec<bool> = Vec::new();
    let mut i: usize = 0;
    while i < count
        invariant
            i <= count,
            done@.len() == i,
            forall|r: int| 0 <= r < i ==> !#[trigger] done@[r],
        decreases count - i,
    {
        done.push(false);
        i += 1;
    }
    let mut order: Vec<TaskId> = Vec::new();
    let mut progress = true;
    while progress
        invariant
            count == lists@.len(),
            graph == list_views(lists@),
            base + count <= u64::MAX,
            done@.len() == count,
            forall|r: int, j: int|
                0 <= r < graph.len() && 0 <= j < graph[r].len() ==> #[trigger] graph[r][j] < base
                    + count,
            is_partial_order(order@, base, graph),
            forall|r: int| 0 <= r < count ==> (#[trigger] done@[r] <==> order@.contains(
                (base + r) as TaskId,
            )),
            forall|set: Set<TaskId>, t: TaskId|
                stuck(set, base, graph) && #[trigger] set.contains(t) ==> !order@.contains(t),
            !progress ==> forall|r: int|
                0 <= r < count && !#[trigger] done@[r] ==> !all_listed(base, graph[r], done@),
        decreases count_false(done@) + if progress { 1nat } else { 0nat },
    {
        let ghost start = count_false(done@);
        progress = false;
        let mut r: usize = 0;
        while r < count
            invariant
                r <= count,
                count == lists@.len(),
                graph == list_views(lists@),
                base + count <= u64::MAX,
                done@.len() == count,
                forall|r: int, j: int|
                    0 <= r < graph.len() && 0 <= j < graph[r].len() ==> #[trigger] graph[r][j]
                        < base + count,
                is_partial_order(order@, base, graph),
                forall|r: int| 0 <= r < count ==> (#[trigger] done@[r] <==> order@.contains(
                    (base + r) as TaskId,
                )),
                forall|set: Set<TaskId>, t: TaskId|
                    stuck(set, base, graph) && #[trigger] set.contains(t) ==> !order@.contains(t),
                progress ==> count_false(done@) < start,
                !progress ==> count_false(done@) == start,
                !progress ==> forall|q: int|
                    0 <= q < r && !#[trigger] done@[q] ==> !all_listed(base, graph[q], done@),
            decreases count - r,
        {
            if !done[r] {
                proof {
                    assert(graph[r as int] == lists@[r as int]@);
                    assert forall|j: int| 0 <= j < lists@[r as int]@.len() implies (
                    #[trigger] lists@[r as int]@[j]) < base + done@.len() by {
                        assert(graph[r as int][j] < base + count);
                    }
                }
                if all_emitted(base, &lists[r], &done) {
                    let ghost before = order@;
                    let ghost flags = done@;
                    let id: TaskId = base + r as u64;
                    order.push(id);
                    done[r] = true;
                    progress = true;
                    proof {
                        lemma_count_false_set(flags, r as int);
                        assert(done@ =~= flags.update(r as int, true));
                        assert(!before.contains(id));
                        assert(order@.take(before.len() as int) =~= before);
                        assert forall|q: int| 0 <= q < count implies (#[trigger] done@[q]
                            <==> order@.contains((base + q) as TaskId)) by {
                            let x = (base + q) as TaskId;
                            if q == r {
                                assert(order@[before.len() as int] == x);
                            } else {
                                assert(flags[q] <==> before.contains(x));
                                if before.contains(x) {
                                    let k = choose|k: int| 0 <= k < before.len() && before[k] == x;
                                    assert(order@[k] == x);
                                }
                                if order@.contains(x) {
                                    let k = choose|k: int| 0 <= k < order@.len() && order@[k] == x;
                                    assert(before[k] == x);
                                }
                            }
                        }
                        assert forall|k: int, j: int|
                            0 <= k < order@.len() && 0 <= j < deps_at(graph, base, order@[k]).len()
                                && base <= deps_at(
                                graph,
                                base,
                                order@[k],
                            )[j] implies order@.take(k).contains(
                            #[trigger] deps_at(graph, base, order@[k])[j],
                        ) by {
                            if k < before.len() {
                                assert(order@[k] == before[k]);
                                assert(before.take(k).contains(deps_at(graph, base, before[k])[j]));
                                assert(order@.take(k) =~= before.take(k));
                            } else {
                                let d = graph[r as int][j];
                                assert(deps_at(graph, base, order@[k]) == graph[r as int]);
                                assert(flags[d - base]);
                                assert(before.contains((base + (d - base)) as TaskId));
                            }
                        }
                        assert forall|set: Set<TaskId>, t: TaskId|
                            stuck(set, base, graph) && #[trigger] set.contains(
                                t,
                            ) implies !order@.contains(t) by {
                            if order@.contains(t) {
                                let k = choose|k: int| 0 <= k < order@.len() && order@[k] == t;
                                if k < before.len() {
                                    assert(before[k] == t);
                                    assert(before.contains(t));
                                } else {
                                    let deps = deps_at(graph, base, id);
                                    let j = choose|j: int|
                                        0 <= j < deps.len() && set.contains(#[trigger] deps[j]);
                                    assert(set.contains(deps[j]));
                                    assert(is_fresh(base, graph.len(), deps[j]));
                                    assert(flags[deps[j] - base]);
                                    assert(before.contains((base + (deps[j] - base)) as TaskId));
                                }
                            }
                        }
                        assert(order@.no_duplicates()) by {
                            assert forall|a: int, b: int|
                                0 <= a < order@.len() && 0 <= b < order@.len() && a
                                    != b implies order@[a] != order@[b] by {
                                if a < before.len() {
                                    assert(before.contains(before[a]));
                                }
                                if b < before.len() {
                                    assert(before.contains(before[b]));
                                }
                            }
                        }
                    }
                }
            }
            r += 1;
        }
    }
    let mut q: usize = 0;
    while q < count
        invariant
            q <= count,
            count == lists@.len(),
            graph == list_views(lists@),
            base + count <= u64::MAX,
            done@.len() == count,
            forall|r: int, j: int|
                0 <= r < graph.len() && 0 <= j < graph[r].len() ==> #[trigger] graph[r][j] < base
                    + count,
            forall|r: int|
                0 <= r < count && !#[trigger] done@[r] ==> !all_listed(base, graph[r], done@),
            forall|r: int| 0 <= r < q ==> #[trigger] done@[r],
        decreases count - q,
    {
        if !done[q] {
            proof {
                lemma_blocked_is_cycle(order@, done@, base, graph, q as int);
            }
            return None;
        }
        q += 1;
    }
    proof {
        assert forall|t: TaskId| is_fresh(base, graph.len(), t) implies order@.contains(t) by {
            assert(done@[t - base]);
            assert(order@.contains((base + (t - base)) as TaskId));
        }
        lemma_order_excludes_cycle(order@, base, graph);
    }
    Some(order)
}

} // verus!
