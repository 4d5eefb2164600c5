//! The constraint solver, taffy, as the layout tree sees it.
//!
//! Taffy keeps its nodes in a slot map; a node is named here by the 64-bit value of
//! its slot-map key (`KeyData::as_ffi`), from which `KeyData::from_ffi` gives the key
//! back. Taffy is made with rounding on, so the boxes it computes hold whole numbers.
use crate::geometry::{Extent, LayoutBox, Point};
use slotmap::{DefaultKey, Key, KeyData};
use taffy::error::TaffyError;
use taffy::style::Style;
use taffy::style_helpers::TaffyMaxContent;
use taffy::Taffy;
use vstd::prelude::*;

verus! {

#[verifier::external_type_specification]
#[verifier::external_body]
pub struct ExTaffy(Taffy);

#[verifier::external_type_specification]
#[verifier::external_body]
pub struct ExStyle(Style);

#[verifier::external_type_specification]
#[verifier::external_body]
pub struct ExTaffyError(TaffyError);

/// The nodes that a taffy tree holds.
pub uninterp spec fn node_keys(t: Taffy) -> Set<u64>;

/// The ordered children of each node of a taffy tree.
pub uninterp spec fn child_lists(t: Taffy) -> Map<u64, Seq<u64>>;

/// The box of each node relative to its parent, as the last solve left it, in whole units.
pub uninterp spec fn solved_boxes(t: Taffy) -> Map<u64, LayoutBox>;

/// Relies on `Taffy::new`: a tree with no node, rounding on.
#[verifier::external_body]
pub(crate) fn new_solver() -> (r: Taffy)
    ensures
        node_keys(r) =~= Set::empty(),
        child_lists(r) =~= Map::empty(),
{
    Taffy::new()
}

/// Relies on `Taffy::new_leaf`: it always returns `Ok` with a key of a new node without
/// children. Its slot maps panic when full, at `u32::MAX` slots, one of them reserved.
#[verifier::external_body]
pub(crate) fn new_leaf(t: &mut Taffy, style: Style) -> (r: Result<u64, TaffyError>)
    requires
        node_keys(*old(t)).len() + 2 < u32::MAX,
    ensures
        r is Ok,
        r matches Ok(k) ==> !node_keys(*old(t)).contains(k) && node_keys(*final(t)) == node_keys(
            *old(t),
        ).insert(k) && child_lists(*final(t)) == child_lists(*old(t)).insert(k, Seq::empty()),
{
    match t.new_leaf(style) {
        Ok(n) => Ok(n.data().as_ffi()),
        Err(e) => Err(e),
    }
}

/// Relies on `Taffy::new_with_children`: it always returns `Ok` with a key of a new node
/// whose children are `children`, in their order. It indexes its slot maps with each
/// child, which panics for a key that the tree does not hold.
#[verifier::external_body]
pub(crate) fn new_with_children(t: &mut Taffy, style: Style, children: &[u64]) -> (r: Result<
    u64,
    TaffyError,
>)
    requires
        node_keys(*old(t)).len() + 2 < u32::MAX,
        forall|i: int| 0 <= i < children@.len() ==> node_keys(*old(t)).contains(children@[i]),
    ensures
        r is Ok,
        r matches Ok(k) ==> !node_keys(*old(t)).contains(k) && node_keys(*final(t)) == node_keys(
            *old(t),
        ).insert(k) && child_lists(*final(t)) == child_lists(*old(t)).insert(k, children@),
{
    let nodes: Vec<DefaultKey> = children.iter().map(|c| DefaultKey::from(KeyData::from_ffi(*c))).collect();
    match t.new_with_children(style, &nodes) {
        Ok(n) => Ok(n.data().as_ffi()),
        Err(e) => Err(e),
    }
}

/// Relies on `taffy::compute_layout` with max-content space: it always returns `Ok`,
/// computes the boxes of the subtree under `root` and changes neither the nodes nor
/// their children. It indexes its slot maps with `root`.
#[verifier::external_body]
pub(crate) fn solve(t: &mut Taffy, root: u64) -> (r: Result<(), TaffyError>)
    requires
        node_keys(*old(t)).contains(root),
    ensures
        r is Ok,
        node_keys(*final(t)) == node_keys(*old(t)),
        child_lists(*final(t)) == child_lists(*old(t)),
{
    taffy::compute_layout(t, DefaultKey::from(KeyData::from_ffi(root)), taffy::geometry::Size::MAX_CONTENT)
}

/// Relies on `Taffy::children`: it always returns `Ok` with the children of `key`, in
/// their order. It indexes its slot maps with `key`.
#[verifier::external_body]
pub(crate) fn children(t: &Taffy, key: u64) -> (r: Result<Vec<u64>, TaffyError>)
    requires
        node_keys(*t).contains(key),
    ensures
        r is Ok,
        r matches Ok(v) ==> v@ == child_lists(*t)[key],
{
    match t.children(DefaultKey::from(KeyData::from_ffi(key))) {
        Ok(v) => Ok(v.iter().map(|n| n.data().as_ffi()).collect()),
        Err(e) => Err(e),
    }
}

/// Relies on `Taffy::layout`: it always returns `Ok` with the box of `key` relative to
/// its parent, as the last solve left it, taken to whole units. It indexes its slot
/// maps with `key`.
#[verifier::external_body]
pub(crate) fn relative_box(t: &Taffy, key: u64) -> (r: Result<LayoutBox, TaffyError>)
    requires
        node_keys(*t).contains(key),
    ensures
        r is Ok,
        r matches Ok(b) ==> b == solved_boxes(*t)[key],
{
    match t.layout(DefaultKey::from(KeyData::from_ffi(key))) {
        Ok(l) => Ok(LayoutBox {
            order: l.order,
            size: Extent { width: l.size.width as i64, height: l.size.height as i64 },
            location: Point { x: l.location.x as i64, y: l.location.y as i64 },
        }),
        Err(e) => Err(e),
    }
}

} // verus!
