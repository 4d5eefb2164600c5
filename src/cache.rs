//! The model of the global layout cache and of one pass over it.
use crate::geometry::{LayoutBox, NodeKey};
use vstd::prelude::*;

verus! {

/// What the cache holds for one node: its last absolute box and whether it is subscribed.
#[derive(Clone, Copy, Debug, PartialEq, Eq, Structural)]
pub struct GlobalLayout {
    pub layout: LayoutBox,
    pub is_listening: bool,
}

/// One node reached by a pass: `parent` is the index, among the visits of the same
/// pass, of the node whose children listed it (`None` for the root).
#[derive(Clone, Copy, Debug, PartialEq, Eq, Structural)]
pub struct Visit {
    pub key: NodeKey,
    pub parent: Option<usize>,
    pub relative: LayoutBox,
    pub absolute: LayoutBox,
}

/// A notification: the node `key` now has the absolute box `layout`.
#[derive(Clone, Copy, Debug, PartialEq, Eq, Structural)]
pub struct Change {
    pub key: NodeKey,
    pub layout: LayoutBox,
}

/// The absolute-offset invariant over the visits of one pass: the first visit is the
/// root, whose absolute box is its relative box; every other visit names an earlier
/// visit as its parent and lies at the parent's absolute location plus its own
/// relative location, with its own size and order.
pub open spec fn offsets_accumulate(visits: Seq<Visit>) -> bool {
    forall|i: int|
        0 <= i < visits.len() ==> match (#[trigger] visits[i]).parent {
            None => i == 0 && visits[i].absolute == visits[i].relative,
            Some(p) => 0 <= p < i && visits[i].absolute.order == visits[i].relative.order
                && visits[i].absolute.size == visits[i].relative.size
                && visits[i].absolute.location.x == visits[p as int].absolute.location.x
                + visits[i].relative.location.x
                && visits[i].absolute.location.y == visits[p as int].absolute.location.y
                + visits[i].relative.location.y,
        }
}

/// Whether visiting `key` with the absolute box `bx` notifies: always on first sight,
/// afterwards only for a subscribed node whose box differs from the cached one.
pub open spec fn notifies(cache: Map<u64, GlobalLayout>, key: u64, bx: LayoutBox) -> bool {
    !cache.contains_key(key) || (cache[key].is_listening && cache[key].layout != bx)
}

/// The cache after visiting `key` with the absolute box `bx`: the box is stored, the
/// subscription flag kept, and a new entry starts unsubscribed.
pub open spec fn recorded(cache: Map<u64, GlobalLayout>, key: u64, bx: LayoutBox) -> Map<
    u64,
    GlobalLayout,
> {
    if cache.contains_key(key) {
        cache.insert(key, GlobalLayout { layout: bx, is_listening: cache[key].is_listening })
    } else {
        cache.insert(key, GlobalLayout { layout: bx, is_listening: false })
    }
}

/// The cache after the visits, in their order.
pub open spec fn applied(cache: Map<u64, GlobalLayout>, visits: Seq<Visit>) -> Map<
    u64,
    GlobalLayout,
>
    decreases visits.len(),
{
    if visits.len() == 0 {
        cache
    } else {
        let v = visits.last();
        recorded(applied(cache, visits.drop_last()), v.key.id, v.absolute)
    }
}

/// The notifications that the visits give, in their order.
pub open spec fn notices(cache: Map<u64, GlobalLayout>, visits: Seq<Visit>) -> Seq<Change>
    decreases visits.len(),
{
    if visits.len() == 0 {
        Seq::empty()
    } else {
        let v = visits.last();
        let before = notices(cache, visits.drop_last());
        if notifies(applied(cache, visits.drop_last()), v.key.id, v.absolute) {
            before.push(Change { key: v.key, layout: v.absolute })
        } else {
            before
        }
    }
}

/// How many of the notifications are for `key`.
pub open spec fn count_for(changes: Seq<Change>, key: u64) -> nat
    decreases changes.len(),
{
    if changes.len() == 0 {
        0
    } else {
        count_for(changes.drop_last(), key) + if changes.last().key.id == key {
            1nat
        } else {
            0nat
        }
    }
}

/// The keys that the visits name.
pub open spec fn visited_keys(visits: Seq<Visit>) -> Set<u64> {
    Set::new(|k: u64| exists|i: int| 0 <= i < visits.len() && (#[trigger] visits[i]).key.id == k)
}

/// No two visits name the same node.
pub open spec fn keys_distinct(visits: Seq<Visit>) -> bool {
    forall|i: int, j: int|
        0 <= i < visits.len() && 0 <= j < visits.len() && i != j ==> (#[trigger] visits[i]).key
            != (#[trigger] visits[j]).key
}

proof fn lemma_count_push(changes: Seq<Change>, c: Change, key: u64)
    ensures
        count_for(changes.push(c), key) == count_for(changes, key) + if c.key.id == key {
            1nat
        } else {
            0nat
        },
{
    assert(changes.push(c).drop_last() == changes);
}

proof fn lemma_visited_keys_last(visits: Seq<Visit>, k: u64)
    requires
        visits.len() > 0,
    ensures
        visited_keys(visits).contains(k) <==> (visited_keys(visits.drop_last()).contains(k)
            || visits.last().key.id == k),
{
    let init = visits.drop_last();
    if visited_keys(visits).contains(k) {
        let i = choose|i: int| 0 <= i < visits.len() && (#[trigger] visits[i]).key.id == k;
        if i < visits.len() - 1 {
            assert(init[i] == visits[i]);
        }
    }
    if visited_keys(init).contains(k) {
        let i = choose|i: int| 0 <= i < init.len() && (#[trigger] init[i]).key.id == k;
        assert(visits[i] == init[i]);
    }
    if visits.last().key.id == k {
        assert(visits[visits.len() - 1].key.id == k);
    }
}

/// A pass creates entries only for the nodes it visits, and never removes one.
pub proof fn lemma_entries_only_from_visits(cache: Map<u64, GlobalLayout>, visits: Seq<Visit>)
    ensures
        applied(cache, visits).dom() == cache.dom() + visited_keys(visits),
    decreases visits.len(),
{
    if visits.len() > 0 {
        lemma_entries_only_from_visits(cache, visits.drop_last());
        assert forall|k: u64|
            #[trigger] applied(cache, visits).dom().contains(k) <==> (cache.dom()
                + visited_keys(visits)).contains(k) by {
            lemma_visited_keys_last(visits, k);
        }
        assert(applied(cache, visits).dom() =~= cache.dom() + visited_keys(visits));
    }
}

/// A pass never changes a subscription flag, and a node first seen in it ends the
/// pass unsubscribed.
pub proof fn lemma_flags_kept(cache: Map<u64, GlobalLayout>, visits: Seq<Visit>, k: u64)
    requires
        applied(cache, visits).contains_key(k),
    ensures
        cache.contains_key(k) ==> applied(cache, visits)[k].is_listening == cache[k].is_listening,
        !cache.contains_key(k) ==> !applied(cache, visits)[k].is_listening,
    decreases visits.len(),
{
    if visits.len() > 0 {
        let before = applied(cache, visits.drop_last());
        lemma_entries_only_from_visits(cache, visits.drop_last());
        if before.contains_key(k) {
            lemma_flags_kept(cache, visits.drop_last(), k);
        }
    }
}

/// A node that a pass visits and that had no entry before is notified exactly once in
/// that pass, whatever its subscription.
pub proof fn lemma_first_sight_notifies_once(cache: Map<u64, GlobalLayout>, visits: Seq<Visit>, k: u64)
    requires
        !cache.contains_key(k),
        visited_keys(visits).contains(k),
    ensures
        count_for(notices(cache, visits), k) == 1,
    decreases visits.len(),
{
    let init = visits.drop_last();
    let v = visits.last();
    let before = applied(cache, init);
    lemma_visited_keys_last(visits, k);
    lemma_entries_only_from_visits(cache, init);
    if notifies(before, v.key.id, v.absolute) {
        lemma_count_push(notices(cache, init), Change { key: v.key, layout: v.absolute }, k);
    }
    if visited_keys(init).contains(k) {
        lemma_first_sight_notifies_once(cache, init, k);
        if v.key.id == k {
            lemma_flags_kept(cache, init, k);
        }
    } else {
        lemma_no_notices_for_unvisited(cache, init, k);
    }
}

/// A node that the visits do not name gets no notification from them.
pub proof fn lemma_no_notices_for_unvisited(cache: Map<u64, GlobalLayout>, visits: Seq<Visit>, k: u64)
    requires
        !visited_keys(visits).contains(k),
    ensures
        count_for(notices(cache, visits), k) == 0,
    decreases visits.len(),
{
    if visits.len() > 0 {
        let init = visits.drop_last();
        let v = visits.last();
        lemma_visited_keys_last(visits, k);
        lemma_no_notices_for_unvisited(cache, init, k);
        if notifies(applied(cache, init), v.key.id, v.absolute) {
            lemma_count_push(notices(cache, init), Change { key: v.key, layout: v.absolute }, k);
        }
    }
}

/// A node that already has an entry and is not subscribed gets no notification from a
/// pass, whatever boxes the pass gives it.
pub proof fn lemma_unsubscribed_stays_silent(cache: Map<u64, GlobalLayout>, visits: Seq<Visit>, k: u64)
    requires
        cache.contains_key(k),
        !cache[k].is_listening,
    ensures
        count_for(notices(cache, visits), k) == 0,
    decreases visits.len(),
{
    if visits.len() > 0 {
        let init = visits.drop_last();
        let v = visits.last();
        lemma_unsubscribed_stays_silent(cache, init, k);
        lemma_entries_only_from_visits(cache, init);
        lemma_flags_kept(cache, init, k);
        if notifies(applied(cache, init), v.key.id, v.absolute) {
            lemma_count_push(notices(cache, init), Change { key: v.key, layout: v.absolute }, k);
        }
    }
}

/// The visits leave the entry of a node that they do not name as it was.
pub proof fn lemma_unvisited_untouched(cache: Map<u64, GlobalLayout>, visits: Seq<Visit>, k: u64)
    requires
        !visited_keys(visits).contains(k),
    ensures
        applied(cache, visits).contains_key(k) == cache.contains_key(k),
        cache.contains_key(k) ==> applied(cache, visits)[k] == cache[k],
    decreases visits.len(),
{
    if visits.len() > 0 {
        lemma_visited_keys_last(visits, k);
        lemma_unvisited_untouched(cache, visits.drop_last(), k);
    }
}

/// A subscribed node that a pass visits once is notified in that pass if and only if
/// its new absolute box differs from the cached one in location, order or size.
pub proof fn lemma_subscribed_notified_iff_changed(
    cache: Map<u64, GlobalLayout>,
    visits: Seq<Visit>,
    i: int,
)
    requires
        0 <= i < visits.len(),
        cache.contains_key(visits[i].key.id),
        cache[visits[i].key.id].is_listening,
        forall|j: int|
            0 <= j < visits.len() && j != i ==> (#[trigger] visits[j]).key.id != visits[i].key.id,
    ensures
        count_for(notices(cache, visits), visits[i].key.id) == if cache[visits[i].key.id].layout
            != visits[i].absolute {
            1nat
        } else {
            0nat
        },
    decreases visits.len(),
{
    let k = visits[i].key.id;
    let init = visits.drop_last();
    let v = visits.last();
    if i == visits.len() - 1 {
        assert(!visited_keys(init).contains(k)) by {
            if visited_keys(init).contains(k) {
                let j = choose|j: int| 0 <= j < init.len() && (#[trigger] init[j]).key.id == k;
                assert(visits[j] == init[j]);
            }
        }
        lemma_no_notices_for_unvisited(cache, init, k);
        lemma_unvisited_untouched(cache, init, k);
    } else {
        assert forall|j: int| 0 <= j < init.len() && j != i implies (#[trigger] init[j]).key.id
            != init[i].key.id by {
            assert(init[j] == visits[j]);
        }
        assert(init[i] == visits[i]);
        lemma_subscribed_notified_iff_changed(cache, init, i);
        assert(v.key.id != k) by {
            assert(visits[visits.len() - 1] == v);
        }
    }
    if notifies(applied(cache, init), v.key.id, v.absolute) {
        lemma_count_push(notices(cache, init), Change { key: v.key, layout: v.absolute }, k);
    }
}

/// Where no two visits name the same node, each visited node ends with the box that
/// its visit gave.
proof fn lemma_last_box(cache: Map<u64, GlobalLayout>, visits: Seq<Visit>, i: int)
    requires
        keys_distinct(visits),
        0 <= i < visits.len(),
    ensures
        applied(cache, visits).contains_key(visits[i].key.id),
        applied(cache, visits)[visits[i].key.id].layout == visits[i].absolute,
    decreases visits.len(),
{
    let init = visits.drop_last();
    if i < visits.len() - 1 {
        assert(init[i] == visits[i]);
        assert forall|a: int, b: int|
            0 <= a < init.len() && 0 <= b < init.len() && a != b implies (#[trigger] init[a]).key
            != (#[trigger] init[b]).key by {
            assert(init[a] == visits[a] && init[b] == visits[b]);
        }
        lemma_last_box(cache, init, i);
        assert(visits[i].key != visits[visits.len() - 1].key);
    }
}

/// Visits that find every node already holding the box they give change nothing and
/// notify nobody.
proof fn lemma_quiet(cache: Map<u64, GlobalLayout>, visits: Seq<Visit>)
    requires
        forall|i: int|
            0 <= i < visits.len() ==> cache.contains_key((#[trigger] visits[i]).key.id)
                && cache[visits[i].key.id].layout == visits[i].absolute,
    ensures
        applied(cache, visits) == cache,
        notices(cache, visits).len() == 0,
    decreases visits.len(),
{
    if visits.len() > 0 {
        let init = visits.drop_last();
        assert forall|i: int| 0 <= i < init.len() implies cache.contains_key(
            (#[trigger] init[i]).key.id,
        ) && cache[init[i].key.id].layout == init[i].absolute by {
            assert(init[i] == visits[i]);
        }
        lemma_quiet(cache, init);
        let v = visits.last();
        assert(visits[visits.len() - 1] == v);
        assert(recorded(cache, v.key.id, v.absolute) =~= cache);
    }
}

/// Running the same visits twice in a row, each node visited once, leaves the cache
/// as the first run left it, and the second run notifies nobody.
pub proof fn lemma_repeat_pass_is_quiet(cache: Map<u64, GlobalLayout>, visits: Seq<Visit>)
    requires
        keys_distinct(visits),
    ensures
        applied(applied(cache, visits), visits) == applied(cache, visits),
        notices(applied(cache, visits), visits).len() == 0,
{
    assert forall|i: int| 0 <= i < visits.len() implies applied(cache, visits).contains_key(
        (#[trigger] visits[i]).key.id,
    ) && applied(cache, visits)[visits[i].key.id].layout == visits[i].absolute by {
        lemma_last_box(cache, visits, i);
    }
    lemma_quiet(applied(cache, visits), visits);
}

} // verus!
