//! The layout tree: a taffy tree, the global cache of absolute boxes, and the pass
//! that turns the solver's relative boxes into absolute ones and reports changes.
use crate::cache::{
    applied, notices, offsets_accumulate, Change, GlobalLayout, Visit,
};
use crate::geometry::{fits_translated, translate, translated, LayoutBox, NodeKey};
use crate::solver::{child_lists, node_keys, solved_boxes};
use crate::solver;
use std::collections::{HashMap, HashSet};
use taffy::style::Style;
use taffy::Taffy;
use vstd::prelude::*;

verus! {

broadcast use vstd::std_specs::hash::group_hash_axioms;

/// Why a call on a [`LayoutTree`] failed.
#[derive(Clone, Copy, Debug, PartialEq, Eq, Structural)]
pub enum LayoutError {
    /// The solver could not lay out the tree, or the root is not a node of it.
    Solve,
    /// The node has no cache entry: no pass has visited it yet.
    NotFound,
    /// A child is not a node of this tree.
    InvalidChild,
    /// An absolute coordinate does not fit in `i64`.
    Overflow,
}

/// One entry of the traversal stack: visit `key`, a child of the visit at `parent`.
struct Frame {
    key: u64,
    parent: Option<usize>,
    /// Which child of the parent's node this is.
    slot: Ghost<nat>,
}

/// Layout nodes in a constraint solver, with the absolute box and subscription of
/// each node that some pass has visited.
pub struct LayoutTree {
    taffy: Taffy,
    nodes: HashSet<u64>,
    global_layouts: HashMap<u64, GlobalLayout>,
    /// The order of creation of each node: a child is always older than its parent.
    rank: Ghost<Map<u64, nat>>,
    next_rank: Ghost<nat>,
}

impl Default for LayoutTree {
    fn default() -> (r: Self)
        ensures
            r.wf(),
            r.nodes() == Set::<u64>::empty(),
            r.cache() == Map::<u64, GlobalLayout>::empty(),
    {
        LayoutTree::new()
    }
}

/// The number of visits that a pass makes below and at `k`, a node counted once for
/// each path that reaches it. `rank` orders the nodes by creation; a child comes before
/// its parent, which makes the count finite.
pub open spec fn subtree_size(ch: Map<u64, Seq<u64>>, rank: Map<u64, nat>, k: u64) -> nat
    decreases rank[k], ch[k].len() + 1,
{
    1 + forest_size(ch, rank, ch[k], rank[k])
}

/// The sizes of the subtrees of `s`, those of a rank under `bound`.
pub open spec fn forest_size(ch: Map<u64, Seq<u64>>, rank: Map<u64, nat>, s: Seq<u64>, bound: nat) -> nat
    decreases bound, s.len(),
{
    if s.len() == 0 {
        0
    } else if rank[s.last()] < bound {
        forest_size(ch, rank, s.drop_last(), bound) + subtree_size(ch, rank, s.last())
    } else {
        forest_size(ch, rank, s.drop_last(), bound)
    }
}

/// The visits still owed to the frames of a stack.
spec fn stack_weight(ch: Map<u64, Seq<u64>>, rank: Map<u64, nat>, s: Seq<Frame>) -> nat
    decreases s.len(),
{
    if s.len() == 0 {
        0
    } else {
        stack_weight(ch, rank, s.drop_last()) + subtree_size(ch, rank, s.last().key)
    }
}

/// Where a pre-order walk puts the `j`-th child of the `i`-th visit's node: right after
/// that visit and the whole subtrees of the earlier children.
pub open spec fn child_index(
    children: Map<u64, Seq<u64>>,
    rank: Map<u64, nat>,
    visits: Seq<Visit>,
    i: int,
    j: int,
) -> int {
    i + 1 + forest_size(
        children,
        rank,
        children[visits[i].key.id].take(j),
        rank[visits[i].key.id],
    )
}

/// The `j`-th child of the `i`-th visit's node is visited, under it, at its pre-order place.
pub open spec fn child_placed(
    children: Map<u64, Seq<u64>>,
    rank: Map<u64, nat>,
    visits: Seq<Visit>,
    i: int,
    j: int,
) -> bool {
    let c = child_index(children, rank, visits, i, j);
    &&& c < visits.len()
    &&& visits[c].key.id == children[visits[i].key.id][j]
    &&& visits[c].parent == Some(i as usize)
}

/// The visits so far are the start of a pass from `root`: the root first, every other
/// visit a child of its parent's node, every relative box the solver's, every absolute
/// box placed by the absolute-offset invariant.
pub open spec fn pass_prefix(
    nodes: Set<u64>,
    children: Map<u64, Seq<u64>>,
    boxes: Map<u64, LayoutBox>,
    root: u64,
    vs: Seq<Visit>,
) -> bool {
    &&& vs.len() > 0 ==> vs[0].key.id == root
    &&& offsets_accumulate(vs)
    &&& forall|i: int|
        0 <= i < vs.len() ==> nodes.contains((#[trigger] vs[i]).key.id) && vs[i].relative
            == boxes[vs[i].key.id]
    &&& forall|i: int|
        0 <= i < vs.len() ==> match (#[trigger] vs[i]).parent {
            Some(p) => children[vs[p as int].key.id].contains(vs[i].key.id),
            None => true,
        }
}

/// Visits are a whole pass from `root`: the depth-first pre-order walk, siblings in
/// their order, one visit for each path from the root.
pub open spec fn is_pass(
    nodes: Set<u64>,
    children: Map<u64, Seq<u64>>,
    rank: Map<u64, nat>,
    boxes: Map<u64, LayoutBox>,
    root: u64,
    visits: Seq<Visit>,
) -> bool {
    &&& visits.len() == subtree_size(children, rank, root)
    &&& visits.len() > 0
    &&& pass_prefix(nodes, children, boxes, root, visits)
    &&& forall|i: int, j: int|
        0 <= i < visits.len() && 0 <= j < children[visits[i].key.id].len() ==> #[trigger] child_placed(
            children,
            rank,
            visits,
            i,
            j,
        )
}

/// A start of a pass from `root` that cannot go on: the next child of one of its visits
/// would have a coordinate out of `i64`.
pub open spec fn pass_overflows(
    nodes: Set<u64>,
    children: Map<u64, Seq<u64>>,
    boxes: Map<u64, LayoutBox>,
    root: u64,
    vs: Seq<Visit>,
    p: int,
    c: u64,
) -> bool {
    &&& pass_prefix(nodes, children, boxes, root, vs)
    &&& 0 <= p < vs.len()
    &&& children[vs[p].key.id].contains(c)
    &&& !fits_translated(boxes[c], vs[p].absolute)
}

impl LayoutTree {
    /// The nodes of the tree.
    pub closed spec fn nodes(&self) -> Set<u64> {
        self.nodes@
    }

    /// The ordered children of each node.
    pub closed spec fn children_of(&self) -> Map<u64, Seq<u64>> {
        child_lists(self.taffy)
    }

    /// The order of creation of the nodes: every child is older than its parent.
    pub closed spec fn rank(&self) -> Map<u64, nat> {
        self.rank@
    }

    /// The box of each node relative to its parent, as the last solve left it.
    pub closed spec fn solved(&self) -> Map<u64, LayoutBox> {
        solved_boxes(self.taffy)
    }

    /// The cache: for each node visited by some pass, its last absolute box and flag.
    pub closed spec fn cache(&self) -> Map<u64, GlobalLayout> {
        self.global_layouts@
    }

    /// The node set mirrors taffy's, only nodes have cache entries, and every child is a
    /// node older than its parent.
    pub closed spec fn wf(&self) -> bool {
        &&& self.nodes@ == node_keys(self.taffy)
        &&& self.nodes@.finite()
        &&& self.global_layouts@.dom().subset_of(self.nodes@)
        &&& forall|k: u64|
            #![trigger self.nodes@.contains(k)]
            self.nodes@.contains(k) ==> child_lists(self.taffy).contains_key(k)
                && self.rank@.contains_key(k) && self.rank@[k] < self.next_rank@
        &&& forall|k: u64, i: int|
            self.nodes@.contains(k) && 0 <= i < child_lists(self.taffy)[k].len() ==> {
                let c = #[trigger] child_lists(self.taffy)[k][i];
                self.nodes@.contains(c) && self.rank@[c] < self.rank@[k]
            }
    }

    /// An empty tree with an empty cache.
    pub fn new() -> (r: Self)
        ensures
            r.wf(),
            r.nodes() == Set::<u64>::empty(),
            r.cache() == Map::<u64, GlobalLayout>::empty(),
    {
        LayoutTree {
            taffy: solver::new_solver(),
            nodes: HashSet::new(),
            global_layouts: HashMap::new(),
            rank: Ghost(Map::empty()),
            next_rank: Ghost(0),
        }
    }

    /// The number of nodes of the tree.
    pub fn node_count(&self) -> (r: usize)
        requires
            self.wf(),
        ensures
            r == self.nodes().len(),
    {
        self.nodes.len()
    }

    /// The last absolute box cached for `key`, or `None` where no pass has visited it.
    pub fn get(&self, key: NodeKey) -> (r: Option<LayoutBox>)
        ensures
            r == if self.cache().contains_key(key.id) {
                Some(self.cache()[key.id].layout)
            } else {
                None
            },
    {
        match self.global_layouts.get(&key.id) {
            Some(g) => Some(g.layout),
            None => None,
        }
    }

    /// Adds a leaf node with `style`; the cache is left as it is.
    pub fn insert(&mut self, style: Style) -> (r: NodeKey)
        requires
            old(self).wf(),
            old(self).nodes().len() + 2 < u32::MAX,
        ensures
            final(self).wf(),
            !old(self).nodes().contains(r.id),
            final(self).nodes() == old(self).nodes().insert(r.id),
            final(self).children_of() == old(self).children_of().insert(r.id, Seq::empty()),
            final(self).cache() == old(self).cache(),
            !final(self).cache().contains_key(r.id),
    {
        match solver::new_leaf(&mut self.taffy, style) {
            Ok(k) => {
                self.nodes.insert(k);
                self.rank = Ghost(self.rank@.insert(k, self.next_rank@));
                self.next_rank = Ghost(self.next_rank@ + 1);
                proof {
                    assert forall|n: u64, i: int|
                        self.nodes@.contains(n) && 0 <= i < child_lists(self.taffy)[n].len() implies {
                            let c = #[trigger] child_lists(self.taffy)[n][i];
                            self.nodes@.contains(c) && self.rank@[c] < self.rank@[n]
                        } by {
                        if n != k {
                            assert(child_lists(self.taffy)[n] == child_lists(old(self).taffy)[n]);
                            assert(old(self).nodes@.contains(n));
                        }
                    }
                }
                NodeKey { id: k }
            },
            // new_leaf always succeeds: this arm is never taken.
            Err(_) => NodeKey { id: 0 },
        }
    }

    /// Adds a node with `style` whose children are `children`, in their order; fails
    /// with `InvalidChild`, changing nothing, where one of them is not a node of this tree.
    pub fn insert_with_children(&mut self, style: Style, children: &[NodeKey]) -> (r: Result<
        NodeKey,
        LayoutError,
    >)
        requires
            old(self).wf(),
            old(self).nodes().len() + 2 < u32::MAX,
        ensures
            final(self).wf(),
            final(self).cache() == old(self).cache(),
            match r {
                Ok(k) => {
                    &&& forall|i: int|
                        0 <= i < children@.len() ==> old(self).nodes().contains(
                            (#[trigger] children@[i]).id,
                        )
                    &&& !old(self).nodes().contains(k.id)
                    &&& !final(self).cache().contains_key(k.id)
                    &&& final(self).nodes() == old(self).nodes().insert(k.id)
                    &&& final(self).children_of() == old(self).children_of().insert(
                        k.id,
                        children@.map_values(|c: NodeKey| c.id),
                    )
                },
                Err(e) => {
                    &&& e == LayoutError::InvalidChild
                    &&& exists|i: int|
                        0 <= i < children@.len() && !old(self).nodes().contains(
                            (#[trigger] children@[i]).id,
                        )
                    &&& final(self).nodes() == old(self).nodes()
                    &&& final(self).children_of() == old(self).children_of()
                },
            },
    {
        let mut ids: Vec<u64> = Vec::new();
        let mut i: usize = 0;
        while i < children.len()
            invariant
                i <= children@.len(),
                self.wf(),
                ids@ == children@.take(i as int).map_values(|c: NodeKey| c.id),
                forall|j: int| 0 <= j < i ==> self.nodes@.contains((#[trigger] children@[j]).id),
            decreases children.len() - i,
        {
            let c = children[i].id;
            if !self.nodes.contains(&c) {
                return Err(LayoutError::InvalidChild);
            }
            ids.push(c);
            i = i + 1;
            assert(children@.take(i as int).drop_last() == children@.take(i - 1));
        }
        assert(children@.take(i as int) == children@);
        match solver::new_with_children(&mut self.taffy, style, ids.as_slice()) {
            Ok(k) => {
                let ghost r = self.next_rank@;
                self.nodes.insert(k);
                self.rank = Ghost(self.rank@.insert(k, r));
                self.next_rank = Ghost(r + 1);
                proof {
                    assert forall|n: u64, j: int|
                        self.nodes@.contains(n) && 0 <= j < child_lists(self.taffy)[n].len() implies {
                            let c = #[trigger] child_lists(self.taffy)[n][j];
                            self.nodes@.contains(c) && self.rank@[c] < self.rank@[n]
                        } by {
                        if n != k {
                            assert(child_lists(self.taffy)[n] == child_lists(old(self).taffy)[n]);
                            assert(old(self).nodes@.contains(n));
                        } else {
                            assert(ids@[j] == children@[j].id);
                            assert(old(self).nodes@.contains(ids@[j]));
                        }
                    }
                }
                Ok(NodeKey { id: k })
            },
            Err(_) => Err(LayoutError::Solve),
        }
    }

    /// Whether `key` is subscribed; `NotFound` where no pass has visited it.
    pub fn is_listening(&self, key: NodeKey) -> (r: Result<bool, LayoutError>)
        ensures
            r == if self.cache().contains_key(key.id) {
                Ok(self.cache()[key.id].is_listening)
            } else {
                Err(LayoutError::NotFound)
            },
    {
        match self.global_layouts.get(&key.id) {
            Some(g) => Ok(g.is_listening),
            None => Err(LayoutError::NotFound),
        }
    }

    /// Sets the subscription flag of `key` to `flag`, keeping its box.
    fn set_listening(&mut self, key: NodeKey, flag: bool) -> (r: Result<(), LayoutError>)
        requires
            old(self).wf(),
        ensures
            final(self).wf(),
            final(self).nodes() == old(self).nodes(),
            final(self).children_of() == old(self).children_of(),
            old(self).cache().contains_key(key.id) ==> r is Ok && final(self).cache()
                == old(self).cache().insert(
                key.id,
                GlobalLayout { layout: old(self).cache()[key.id].layout, is_listening: flag },
            ),
            !old(self).cache().contains_key(key.id) ==> r == Err::<(), LayoutError>(
                LayoutError::NotFound,
            ) && final(self).cache() == old(self).cache(),
    {
        let found = match self.global_layouts.get(&key.id) {
            Some(g) => Some(g.layout),
            None => None,
        };
        match found {
            Some(layout) => {
                self.global_layouts.insert(key.id, GlobalLayout { layout, is_listening: flag });
                Ok(())
            },
            None => Err(LayoutError::NotFound),
        }
    }

    /// Subscribes `key` to change notifications; `NotFound`, changing nothing, where no
    /// pass has visited it.
    pub fn listen(&mut self, key: NodeKey) -> (r: Result<(), LayoutError>)
        requires
            old(self).wf(),
        ensures
            final(self).wf(),
            final(self).nodes() == old(self).nodes(),
            final(self).children_of() == old(self).children_of(),
            old(self).cache().contains_key(key.id) ==> r is Ok && final(self).cache()
                == old(self).cache().insert(
                key.id,
                GlobalLayout { layout: old(self).cache()[key.id].layout, is_listening: true },
            ),
            !old(self).cache().contains_key(key.id) ==> r == Err::<(), LayoutError>(
                LayoutError::NotFound,
            ) && final(self).cache() == old(self).cache(),
    {
        self.set_listening(key, true)
    }

    /// Unsubscribes `key`; `NotFound`, changing nothing, where no pass has visited it.
    pub fn unlisten(&mut self, key: NodeKey) -> (r: Result<(), LayoutError>)
        requires
            old(self).wf(),
        ensures
            final(self).wf(),
            final(self).nodes() == old(self).nodes(),
            final(self).children_of() == old(self).children_of(),
            old(self).cache().contains_key(key.id) ==> r is Ok && final(self).cache()
                == old(self).cache().insert(
                key.id,
                GlobalLayout { layout: old(self).cache()[key.id].layout, is_listening: false },
            ),
            !old(self).cache().contains_key(key.id) ==> r == Err::<(), LayoutError>(
                LayoutError::NotFound,
            ) && final(self).cache() == old(self).cache(),
    {
        self.set_listening(key, false)
    }

    /// Records the absolute boxes of `visits` in the cache, in their order, and returns
    /// the notifications they give: one for each node seen for the first time, and one
    /// for each visit of a subscribed node whose box changed.
    pub fn apply_visits(&mut self, visits: &Vec<Visit>) -> (r: Vec<Change>)
        requires
            old(self).wf(),
            forall|i: int| 0 <= i < visits@.len() ==> old(self).nodes().contains((#[trigger] visits@[i]).key.id),
        ensures
            final(self).wf(),
            final(self).nodes() == old(self).nodes(),
            final(self).children_of() == old(self).children_of(),
            final(self).solved() == old(self).solved(),
            final(self).cache() == applied(old(self).cache(), visits@),
            r@ == notices(old(self).cache(), visits@),
    {
        let mut changes: Vec<Change> = Vec::new();
        let mut i: usize = 0;
        while i < visits.len()
            invariant
                i <= visits@.len(),
                self.wf(),
                self.nodes() == old(self).nodes(),
                self.children_of() == old(self).children_of(),
                self.solved() == old(self).solved(),
                forall|j: int| 0 <= j < visits@.len() ==> self.nodes@.contains((#[trigger] visits@[j]).key.id),
                self.cache() == applied(old(self).cache(), visits@.take(i as int)),
                changes@ == notices(old(self).cache(), visits@.take(i as int)),
            decreases visits.len() - i,
        {
            let v = visits[i];
            let key = v.key.id;
            let found = match self.global_layouts.get(&key) {
                Some(g) => Some(*g),
                None => None,
            };
            match found {
                None => {
                    changes.push(Change { key: v.key, layout: v.absolute });
                    self.global_layouts.insert(key, GlobalLayout { layout: v.absolute, is_listening: false });
                },
                Some(g) => {
                    if g.is_listening && g.layout != v.absolute {
                        changes.push(Change { key: v.key, layout: v.absolute });
                    }
                    self.global_layouts.insert(key, GlobalLayout { layout: v.absolute, is_listening: g.is_listening });
                },
            }
            i = i + 1;
            assert(visits@.take(i as int).drop_last() == visits@.take(i - 1));
        }
        assert(visits@.take(i as int) == visits@);
        changes
    }

    /// One pass from `root`: solves the tree, gives every node reached its absolute box,
    /// records the boxes in the cache and returns the notifications, in the order of
    /// the visits. It fails only for a root that is not a node, or where an absolute
    /// coordinate would leave `i64`; then the cache is left as it was.
    pub fn layout(&mut self, root: NodeKey) -> (r: Result<Vec<Change>, LayoutError>)
        requires
            old(self).wf(),
        ensures
            final(self).wf(),
            final(self).nodes() == old(self).nodes(),
            final(self).children_of() == old(self).children_of(),
            !old(self).nodes().contains(root.id) ==> r == Err::<Vec<Change>, LayoutError>(
                LayoutError::Solve,
            ),
            old(self).nodes().contains(root.id) ==> (r is Ok || r == Err::<Vec<Change>, LayoutError>(
                LayoutError::Overflow,
            )),
            match r {
                Ok(changes) => exists|visits: Seq<Visit>|
                    #[trigger] is_pass(
                        old(self).nodes(),
                        old(self).children_of(),
                        old(self).rank(),
                        final(self).solved(),
                        root.id,
                        visits,
                    ) && final(self).cache() == applied(old(self).cache(), visits) && changes@
                        == notices(old(self).cache(), visits),
                Err(e) => final(self).cache() == old(self).cache() && (e == LayoutError::Overflow
                    ==> exists|vs: Seq<Visit>, p: int, c: u64|
                    #[trigger] pass_overflows(
                        old(self).nodes(),
                        old(self).children_of(),
                        final(self).solved(),
                        root.id,
                        vs,
                        p,
                        c,
                    )),
            },
    {
        if !self.nodes.contains(&root.id) {
            return Err(LayoutError::Solve);
        }
        match solver::solve(&mut self.taffy, root.id) {
            Ok(()) => {},
            Err(_) => return Err(LayoutError::Solve),
        }
        let visits = match self.collect_visits(root.id) {
            Ok(v) => v,
            Err(e) => return Err(e),
        };
        let changes = self.apply_visits(&visits);
        assert(is_pass(old(self).nodes(), old(self).children_of(), old(self).rank(), self.solved(), root.id, visits@));
        Ok(changes)
    }

    /// Walks the solved tree depth-first from `root`, in pre-order and sibling order,
    /// and gives each node reached its absolute box.
    #[verifier::rlimit(60)]
    fn collect_visits(&self, root: u64) -> (r: Result<Vec<Visit>, LayoutError>)
        requires
            self.wf(),
            self.nodes().contains(root),
        ensures
            match r {
                Ok(v) => is_pass(self.nodes(), self.children_of(), self.rank(), self.solved(), root, v@),
                Err(e) => e == LayoutError::Overflow && exists|vs: Seq<Visit>, p: int, c: u64|
                    #[trigger] pass_overflows(self.nodes(), self.children_of(), self.solved(), root, vs, p, c),
            },
    {
        let ghost ch = child_lists(self.taffy);
        let ghost boxes = solved_boxes(self.taffy);
        let ghost rank = self.rank@;
        let ghost nodes = self.nodes@;
        let mut visits: Vec<Visit> = Vec::new();
        let ghost total = subtree_size(ch, rank, root) as int;
        let mut stack: Vec<Frame> = Vec::new();
        stack.push(Frame { key: root, parent: None, slot: Ghost(0) });
        assert(plan_ok(ch, rank, visits@, stack@.drop_last(), total, total));
        loop
            invariant
                self.wf(),
                ch == child_lists(self.taffy),
                rank == self.rank@,
                nodes == self.nodes@,
                boxes == solved_boxes(self.taffy),
                nodes.contains(root),
                visits@.len() == 0 ==> stack@.len() == 1 && stack@[0].key == root,
                pass_prefix(nodes, ch, boxes, root, visits@),
                frames_ok(nodes, ch, visits@, stack@),
                covered(ch, rank, visits@, stack@, visits@.len() as int),
                plan_ok(ch, rank, visits@, stack@, visits@.len() as int, total),
                total == subtree_size(ch, rank, root),
            ensures
                visits@.len() > 0,
                visits@.len() == subtree_size(ch, rank, root),
                pass_prefix(nodes, ch, boxes, root, visits@),
                covered(ch, rank, visits@, Seq::empty(), visits@.len() as int),
                rank == self.rank@,
                nodes == self.nodes@,
                ch == child_lists(self.taffy),
                boxes == solved_boxes(self.taffy),
            decreases stack_weight(ch, rank, stack@),
        {
            let ghost before = stack@;
            let f = match stack.pop() {
                Some(f) => f,
                None => {
                    assert(visits@.len() > 0);
                    assert(stack@ =~= Seq::<Frame>::empty());
                    break;
                },
            };
            assert(before.drop_last() == stack@);
            assert(before[before.len() - 1] == f);
            proof {
                lemma_frames_pop(nodes, ch, visits@, before);
            }
            let rel = match solver::relative_box(&self.taffy, f.key) {
                Ok(b) => b,
                Err(_) => return Err(LayoutError::Solve),
            };
            let abs = match f.parent {
                None => rel,
                Some(p) => match translate(rel, visits[p].absolute) {
                    Some(b) => b,
                    None => {
                        assert(pass_overflows(nodes, ch, boxes, root, visits@, p as int, f.key));
                        assert(pass_overflows(self.nodes(), self.children_of(), self.solved(), root, visits@, p as int, f.key));
                        return Err(LayoutError::Overflow);
                    },
                },
            };
            let idx = visits.len();
            let ghost old_visits = visits@;
            let v = Visit { key: NodeKey { id: f.key }, parent: f.parent, relative: rel, absolute: abs };
            proof {
                lemma_pass_extends(nodes, ch, boxes, root, old_visits, v);
                lemma_frames_grow(nodes, ch, old_visits, v, stack@);
                lemma_cover_pop(ch, rank, old_visits, before, v);
                lemma_plan_grow(ch, rank, old_visits, v, stack@, idx + subtree_size(ch, rank, f.key), total);
            }
            visits.push(v);
            let kids = match solver::children(&self.taffy, f.key) {
                Ok(k) => k,
                Err(_) => return Err(LayoutError::Solve),
            };
            let ghost base = stack@;
            let mut j: usize = kids.len();
            assert(kids@.take(kids@.len() as int) == kids@);
            assert(visits@[idx as int] == v);
            while j > 0
                invariant
                    self.wf(),
                    ch == child_lists(self.taffy),
                    rank == self.rank@,
                    nodes == self.nodes@,
                    j <= kids@.len(),
                    kids@ == ch[f.key],
                    nodes.contains(f.key),
                    idx < visits@.len(),
                    visits@[idx as int].key.id == f.key,
                    frames_ok(nodes, ch, visits@, stack@),
                    covered(ch, rank, visits@, stack@, idx as int),
                    forall|jj: int| j <= jj < kids@.len() ==> #[trigger] framed(stack@, idx as int, jj),
                    plan_ok(
                        ch,
                        rank,
                        visits@,
                        stack@,
                        idx + 1 + forest_size(ch, rank, kids@.take(j as int), rank[f.key]),
                        total,
                    ),
                    stack_weight(ch, rank, stack@) + forest_size(ch, rank, kids@.take(j as int), rank[f.key])
                        == stack_weight(ch, rank, base) + forest_size(ch, rank, kids@, rank[f.key]),
                decreases j,
            {
                j = j - 1;
                let ghost prev = stack@;
                let fr = Frame { key: kids[j], parent: Some(idx), slot: Ghost(j as nat) };
                proof {
                    assert(kids@.take(j + 1).drop_last() == kids@.take(j as int));
                    assert(kids@.take(j + 1).last() == kids@[j as int]);
                    assert(ch[f.key].contains(kids@[j as int]));
                    lemma_frames_push(nodes, ch, visits@, prev, fr);
                    lemma_cover_push(ch, rank, visits@, prev, fr, idx as int);
                    assert(framed(prev.push(fr), idx as int, j as int)) by {
                        assert(prev.push(fr)[prev.len() as int] == fr);
                    }
                    assert(prev.push(fr).drop_last() == prev);
                    assert(prev.push(fr).last() == fr);
                    assert(frame_at(ch, rank, visits@, fr, idx + 1 + forest_size(ch, rank, kids@.take(j as int), rank[f.key])));
                }
                stack.push(fr);
            }
            assert(kids@.take(0) =~= Seq::<u64>::empty());
            proof {
                lemma_cover_children(ch, rank, visits@, stack@, idx as int);
            }
        }
        proof {
            lemma_cover_done(ch, rank, visits@);
        }
        Ok(visits)
    }
}

/// Every frame of the stack names a node and, but for the root's, a visit whose node
/// lists it among its children.
spec fn frames_ok(nodes: Set<u64>, ch: Map<u64, Seq<u64>>, vs: Seq<Visit>, stack: Seq<Frame>) -> bool {
    forall|n: int|
        0 <= n < stack.len() ==> nodes.contains((#[trigger] stack[n]).key) && match stack[n].parent {
            None => vs.len() == 0,
            Some(p) => p < vs.len() && ch[vs[p as int].key.id].contains(stack[n].key),
        }
}

proof fn lemma_frames_pop(nodes: Set<u64>, ch: Map<u64, Seq<u64>>, vs: Seq<Visit>, stack: Seq<Frame>)
    requires
        frames_ok(nodes, ch, vs, stack),
        stack.len() > 0,
    ensures
        frames_ok(nodes, ch, vs, stack.drop_last()),
        nodes.contains(stack.last().key),
        match stack.last().parent {
            None => vs.len() == 0,
            Some(p) => p < vs.len() && ch[vs[p as int].key.id].contains(stack.last().key),
        },
{
    assert forall|n: int| 0 <= n < stack.drop_last().len() implies nodes.contains(
        (#[trigger] stack.drop_last()[n]).key,
    ) && match stack.drop_last()[n].parent {
        None => vs.len() == 0,
        Some(p) => p < vs.len() && ch[vs[p as int].key.id].contains(stack.drop_last()[n].key),
    } by {
        assert(stack.drop_last()[n] == stack[n]);
    }
    assert(stack[stack.len() - 1] == stack.last());
}

proof fn lemma_frames_grow(nodes: Set<u64>, ch: Map<u64, Seq<u64>>, vs: Seq<Visit>, v: Visit, stack: Seq<Frame>)
    requires
        frames_ok(nodes, ch, vs, stack),
        vs.len() == 0 ==> stack.len() == 0,
    ensures
        frames_ok(nodes, ch, vs.push(v), stack),
{
    assert forall|n: int| 0 <= n < stack.len() implies nodes.contains((#[trigger] stack[n]).key)
        && match stack[n].parent {
        None => vs.push(v).len() == 0,
        Some(p) => p < vs.push(v).len() && ch[vs.push(v)[p as int].key.id].contains(stack[n].key),
    } by {
        if let Some(p) = stack[n].parent {
            assert(vs.push(v)[p as int] == vs[p as int]);
        }
    }
}

proof fn lemma_frames_push(nodes: Set<u64>, ch: Map<u64, Seq<u64>>, vs: Seq<Visit>, stack: Seq<Frame>, f: Frame)
    requires
        frames_ok(nodes, ch, vs, stack),
        nodes.contains(f.key),
        f.parent matches Some(p) && p < vs.len() && ch[vs[p as int].key.id].contains(f.key),
    ensures
        frames_ok(nodes, ch, vs, stack.push(f)),
{
    assert forall|n: int| 0 <= n < stack.push(f).len() implies nodes.contains(
        (#[trigger] stack.push(f)[n]).key,
    ) && match stack.push(f)[n].parent {
        None => vs.len() == 0,
        Some(p) => p < vs.len() && ch[vs[p as int].key.id].contains(stack.push(f)[n].key),
    } by {
        if n < stack.len() {
            assert(stack.push(f)[n] == stack[n]);
        }
    }
}

proof fn lemma_pass_extends(
    nodes: Set<u64>,
    ch: Map<u64, Seq<u64>>,
    boxes: Map<u64, LayoutBox>,
    root: u64,
    vs: Seq<Visit>,
    v: Visit,
)
    requires
        pass_prefix(nodes, ch, boxes, root, vs),
        nodes.contains(v.key.id),
        v.relative == boxes[v.key.id],
        match v.parent {
            None => vs.len() == 0 && v.key.id == root && v.absolute == v.relative,
            Some(p) => p < vs.len() && ch[vs[p as int].key.id].contains(v.key.id)
                && fits_translated(v.relative, vs[p as int].absolute)
                && v.absolute == translated(v.relative, vs[p as int].absolute),
        },
    ensures
        pass_prefix(nodes, ch, boxes, root, vs.push(v)),
{
    let ws = vs.push(v);
    assert forall|i: int| 0 <= i < ws.len() implies match (#[trigger] ws[i]).parent {
        None => i == 0 && ws[i].absolute == ws[i].relative,
        Some(p) => 0 <= p < i && ws[i].absolute.order == ws[i].relative.order
            && ws[i].absolute.size == ws[i].relative.size
            && ws[i].absolute.location.x == ws[p as int].absolute.location.x
            + ws[i].relative.location.x
            && ws[i].absolute.location.y == ws[p as int].absolute.location.y
            + ws[i].relative.location.y,
    } by {
        if i < vs.len() {
            assert(ws[i] == vs[i]);
            if let Some(p) = ws[i].parent {
                assert(ws[p as int] == vs[p as int]);
            }
        } else if let Some(p) = v.parent {
            assert(ws[p as int] == vs[p as int]);
        }
    }
    assert forall|i: int| 0 <= i < ws.len() implies match (#[trigger] ws[i]).parent {
        Some(p) => ch[ws[p as int].key.id].contains(ws[i].key.id),
        None => true,
    } by {
        if i < vs.len() {
            assert(ws[i] == vs[i]);
            if let Some(p) = ws[i].parent {
                assert(ws[p as int] == vs[p as int]);
            }
        } else if let Some(p) = v.parent {
            assert(ws[p as int] == vs[p as int]);
        }
    }
    assert forall|i: int| 0 <= i < ws.len() implies nodes.contains((#[trigger] ws[i]).key.id)
        && ws[i].relative == boxes[ws[i].key.id] by {
        if i < vs.len() {
            assert(ws[i] == vs[i]);
        }
    }
    if vs.len() > 0 {
        assert(ws[0] == vs[0]);
    }
}

/// The `j`-th child of the `i`-th visit's node is placed, or waits on the stack.
spec fn child_reached(
    ch: Map<u64, Seq<u64>>,
    rank: Map<u64, nat>,
    vs: Seq<Visit>,
    stack: Seq<Frame>,
    i: int,
    j: int,
) -> bool {
    child_placed(ch, rank, vs, i, j) || framed(stack, i, j)
}

/// A frame of the stack visits the `j`-th child of the `i`-th visit's node.
spec fn framed(stack: Seq<Frame>, i: int, j: int) -> bool {
    exists|n: int| 0 <= n < stack.len() && (#[trigger] stack[n]).parent == Some(i as usize) && stack[n].slot@ == j
}

/// Every child of each of the first `bound` visits is reached.
spec fn covered(
    ch: Map<u64, Seq<u64>>,
    rank: Map<u64, nat>,
    vs: Seq<Visit>,
    stack: Seq<Frame>,
    bound: int,
) -> bool {
    forall|i: int, j: int|
        0 <= i < bound && 0 <= j < ch[vs[i].key.id].len() ==> #[trigger] child_reached(ch, rank, vs, stack, i, j)
}

/// The frame `f` is to be visited at index `pos`, its pre-order place.
spec fn frame_at(ch: Map<u64, Seq<u64>>, rank: Map<u64, nat>, vs: Seq<Visit>, f: Frame, pos: int) -> bool {
    match f.parent {
        None => pos == 0,
        Some(p) => p < vs.len() && f.slot@ < ch[vs[p as int].key.id].len() && f.key
            == ch[vs[p as int].key.id][f.slot@ as int] && pos == child_index(ch, rank, vs, p as int, f.slot@ as int),
    }
}

/// Popped from the top down, the frames are visited from `pos` on, each followed by its
/// whole subtree, and the walk ends at `total`.
spec fn plan_ok(
    ch: Map<u64, Seq<u64>>,
    rank: Map<u64, nat>,
    vs: Seq<Visit>,
    stack: Seq<Frame>,
    pos: int,
    total: int,
) -> bool
    decreases stack.len(),
{
    if stack.len() == 0 {
        pos == total
    } else {
        frame_at(ch, rank, vs, stack.last(), pos) && plan_ok(
            ch,
            rank,
            vs,
            stack.drop_last(),
            pos + subtree_size(ch, rank, stack.last().key),
            total,
        )
    }
}

proof fn lemma_plan_grow(
    ch: Map<u64, Seq<u64>>,
    rank: Map<u64, nat>,
    vs: Seq<Visit>,
    v: Visit,
    stack: Seq<Frame>,
    pos: int,
    total: int,
)
    requires
        plan_ok(ch, rank, vs, stack, pos, total),
    ensures
        plan_ok(ch, rank, vs.push(v), stack, pos, total),
    decreases stack.len(),
{
    if stack.len() > 0 {
        lemma_plan_grow(ch, rank, vs, v, stack.drop_last(), pos + subtree_size(ch, rank, stack.last().key), total);
        if let Some(p) = stack.last().parent {
            assert(vs.push(v)[p as int] == vs[p as int]);
        }
    }
}

proof fn lemma_cover_pop(ch: Map<u64, Seq<u64>>, rank: Map<u64, nat>, vs: Seq<Visit>, stack: Seq<Frame>, v: Visit)
    requires
        covered(ch, rank, vs, stack, vs.len() as int),
        vs.len() <= usize::MAX,
        stack.len() > 0,
        frame_at(ch, rank, vs, stack.last(), vs.len() as int),
        v.key.id == stack.last().key,
        v.parent == stack.last().parent,
    ensures
        covered(ch, rank, vs.push(v), stack.drop_last(), vs.len() as int),
{
    let ws = vs.push(v);
    let rest = stack.drop_last();
    assert forall|i: int, j: int| 0 <= i < vs.len() && 0 <= j < ch[ws[i].key.id].len() implies #[trigger] child_reached(
        ch,
        rank,
        ws,
        rest,
        i,
        j,
    ) by {
        assert(ws[i] == vs[i]);
        assert(child_reached(ch, rank, vs, stack, i, j));
        if child_placed(ch, rank, vs, i, j) {
            let c = child_index(ch, rank, vs, i, j);
            assert(ws[c] == vs[c]);
            assert(child_placed(ch, rank, ws, i, j));
        } else {
            let n = choose|n: int|
                0 <= n < stack.len() && (#[trigger] stack[n]).parent == Some(i as usize) && stack[n].slot@ == j;
            if n < rest.len() {
                assert(rest[n] == stack[n]);
                assert(framed(rest, i, j));
            } else {
                assert(stack[n] == stack.last());
                assert(ws[vs.len() as int] == v);
                assert(child_index(ch, rank, ws, i, j) == child_index(ch, rank, vs, i, j));
                assert(vs.len() == child_index(ch, rank, vs, i, j));
                assert(v.key.id == ch[vs[i].key.id][j]);
                assert(child_placed(ch, rank, ws, i, j));
            }
        }
    }
}

proof fn lemma_cover_push(
    ch: Map<u64, Seq<u64>>,
    rank: Map<u64, nat>,
    vs: Seq<Visit>,
    stack: Seq<Frame>,
    f: Frame,
    bound: int,
)
    requires
        covered(ch, rank, vs, stack, bound),
    ensures
        covered(ch, rank, vs, stack.push(f), bound),
        forall|i: int, j: int| framed(stack, i, j) ==> #[trigger] framed(stack.push(f), i, j),
{
    assert forall|i: int, j: int| framed(stack, i, j) implies #[trigger] framed(stack.push(f), i, j) by {
        let n = choose|n: int| 0 <= n < stack.len() && (#[trigger] stack[n]).parent == Some(i as usize) && stack[n].slot@ == j;
        assert(stack.push(f)[n] == stack[n]);
    }
    assert forall|i: int, j: int| 0 <= i < bound && 0 <= j < ch[vs[i].key.id].len() implies #[trigger] child_reached(
        ch,
        rank,
        vs,
        stack.push(f),
        i,
        j,
    ) by {
        assert(child_reached(ch, rank, vs, stack, i, j));
    }
}

proof fn lemma_cover_children(ch: Map<u64, Seq<u64>>, rank: Map<u64, nat>, vs: Seq<Visit>, stack: Seq<Frame>, idx: int)
    requires
        0 <= idx < vs.len(),
        covered(ch, rank, vs, stack, idx),
        forall|j: int| 0 <= j < ch[vs[idx].key.id].len() ==> #[trigger] framed(stack, idx, j),
    ensures
        covered(ch, rank, vs, stack, idx + 1),
{
    assert forall|i: int, j: int| 0 <= i < idx + 1 && 0 <= j < ch[vs[i].key.id].len() implies #[trigger] child_reached(
        ch,
        rank,
        vs,
        stack,
        i,
        j,
    ) by {
        if i == idx {
            assert(framed(stack, idx, j));
        }
    }
}

proof fn lemma_cover_done(ch: Map<u64, Seq<u64>>, rank: Map<u64, nat>, vs: Seq<Visit>)
    requires
        covered(ch, rank, vs, Seq::empty(), vs.len() as int),
    ensures
        forall|i: int, j: int|
            0 <= i < vs.len() && 0 <= j < ch[vs[i].key.id].len() ==> #[trigger] child_placed(ch, rank, vs, i, j),
{
    assert forall|i: int, j: int| 0 <= i < vs.len() && 0 <= j < ch[vs[i].key.id].len() implies #[trigger] child_placed(
        ch,
        rank,
        vs,
        i,
        j,
    ) by {
        assert(child_reached(ch, rank, vs, Seq::empty(), i, j));
    }
}

} // verus!
