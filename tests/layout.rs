use taffy::prelude::{Rect, Size};
use taffy::style::{LengthPercentage, Style};
use viewbuilder::cache::{Change, Visit};
use viewbuilder::geometry::{translate, Extent, LayoutBox, NodeKey, Point};
use viewbuilder::layout::{LayoutError, LayoutTree};

fn padded_root_style() -> Style {
    Style {
        size: Size::from_points(100., 100.),
        padding: Rect {
            left: LengthPercentage::Points(100.),
            right: LengthPercentage::Points(0.),
            top: LengthPercentage::Points(0.),
            bottom: LengthPercentage::Points(0.),
        },
        ..Default::default()
    }
}

fn scenario() -> (LayoutTree, NodeKey, NodeKey, NodeKey) {
    let mut tree = LayoutTree::default();
    let a = tree.insert(Style::default());
    let b = tree.insert_with_children(Style::default(), &[a]).unwrap();
    let root = tree.insert_with_children(padded_root_style(), &[b]).unwrap();
    (tree, a, b, root)
}

fn count(changes: &[Change], key: NodeKey) -> usize {
    changes.iter().filter(|c| c.key == key).count()
}

fn bx(x: i64, y: i64, w: i64, h: i64, order: u32) -> LayoutBox {
    LayoutBox { order, size: Extent { width: w, height: h }, location: Point { x, y } }
}

#[test]
fn it_works() {
    let mut tree = LayoutTree::default();

    let a = tree.insert(Style::default());

    let b = tree.insert_with_children(Style::default(), &[a]).unwrap();

    let root = tree.insert_with_children(padded_root_style(), &[b]).unwrap();
    let changes = tree.layout(root).unwrap();
    for change in &changes {
        println!("{:?} {:?}", change.key, change.layout);
    }
}

#[test]
fn padding_shifts_children_and_every_node_is_reported_once() {
    let (mut tree, a, b, root) = scenario();
    assert_eq!(tree.get(root), None);
    let changes = tree.layout(root).unwrap();
    assert_eq!(changes.len(), 3);
    assert_eq!(count(&changes, root), 1);
    assert_eq!(count(&changes, a), 1);
    assert_eq!(count(&changes, b), 1);
    let root_box = tree.get(root).unwrap();
    let b_box = tree.get(b).unwrap();
    let a_box = tree.get(a).unwrap();
    assert_eq!(root_box.location, Point { x: 0, y: 0 });
    assert_eq!(root_box.size, Extent { width: 100, height: 100 });
    assert_eq!(b_box.location.x, 100);
    assert_eq!(a_box.location, b_box.location);
    assert_eq!(changes[0].key, root);
    assert_eq!(changes[1].key, b);
    assert_eq!(changes[2].key, a);
}

#[test]
fn repeated_pass_is_quiet_for_subscribed_nodes() {
    let (mut tree, a, b, root) = scenario();
    tree.layout(root).unwrap();
    let before = [tree.get(root), tree.get(b), tree.get(a)];
    tree.listen(root).unwrap();
    tree.listen(b).unwrap();
    tree.listen(a).unwrap();
    let changes = tree.layout(root).unwrap();
    assert!(changes.is_empty());
    assert_eq!([tree.get(root), tree.get(b), tree.get(a)], before);
}

#[test]
fn unsubscribed_nodes_are_not_told_of_moves() {
    let (mut tree, a, b, root) = scenario();
    tree.layout(root).unwrap();
    let outer = tree.insert_with_children(padded_root_style(), &[root]).unwrap();
    let changes = tree.layout(outer).unwrap();
    assert_eq!(changes.len(), 1);
    assert_eq!(changes[0].key, outer);
    assert_eq!(tree.get(root).unwrap().location.x, 100);
    assert_eq!(tree.get(b).unwrap().location.x, 200);
    assert_eq!(tree.get(a).unwrap().location.x, 200);
}

#[test]
fn subscribed_node_is_told_of_a_move() {
    let (mut tree, a, b, root) = scenario();
    tree.layout(root).unwrap();
    tree.listen(b).unwrap();
    let outer = tree.insert_with_children(padded_root_style(), &[root]).unwrap();
    let changes = tree.layout(outer).unwrap();
    assert_eq!(changes.len(), 2);
    assert_eq!(count(&changes, outer), 1);
    assert_eq!(count(&changes, b), 1);
    assert_eq!(count(&changes, a), 0);
    assert_eq!(count(&changes, root), 0);
    let moved = changes.iter().find(|c| c.key == b).unwrap();
    assert_eq!(moved.layout.location.x, 200);
}

#[test]
fn absent_before_first_pass() {
    let (mut tree, a, _b, root) = scenario();
    assert_eq!(tree.get(a), None);
    assert_eq!(tree.get(root), None);
    assert_eq!(tree.is_listening(a), Err(LayoutError::NotFound));
    assert_eq!(tree.listen(a), Err(LayoutError::NotFound));
    assert_eq!(tree.unlisten(a), Err(LayoutError::NotFound));
    assert_eq!(tree.get(a), None);
}

#[test]
fn listen_and_unlisten_toggle_the_flag() {
    let (mut tree, a, _b, root) = scenario();
    tree.layout(root).unwrap();
    assert_eq!(tree.is_listening(a), Ok(false));
    assert_eq!(tree.listen(a), Ok(()));
    assert_eq!(tree.is_listening(a), Ok(true));
    assert_eq!(tree.unlisten(a), Ok(()));
    assert_eq!(tree.is_listening(a), Ok(false));
}

#[test]
fn unknown_child_is_refused() {
    let mut tree = LayoutTree::new();
    let a = tree.insert(Style::default());
    let stranger = NodeKey { id: a.id.wrapping_add(1 << 40) };
    assert_eq!(tree.insert_with_children(Style::default(), &[a, stranger]), Err(LayoutError::InvalidChild));
    assert_eq!(tree.node_count(), 1);
}

#[test]
fn unknown_root_fails_the_pass() {
    let (mut tree, a, _b, root) = scenario();
    let stranger = NodeKey { id: root.id.wrapping_add(1 << 40) };
    assert_eq!(tree.layout(stranger), Err(LayoutError::Solve));
    assert_eq!(tree.get(a), None);
    assert_eq!(tree.node_count(), 3);
}

#[test]
fn shared_child_is_visited_under_each_parent() {
    let mut tree = LayoutTree::new();
    let a = tree.insert(Style::default());
    let root = tree.insert_with_children(padded_root_style(), &[a, a]).unwrap();
    let changes = tree.layout(root).unwrap();
    assert_eq!(count(&changes, root), 1);
    assert_eq!(count(&changes, a), 1);
}

#[test]
fn translate_adds_locations_and_keeps_size_and_order() {
    let rel = bx(3, -4, 10, 20, 2);
    let origin = bx(100, 50, 7, 7, 9);
    assert_eq!(translate(rel, origin), Some(bx(103, 46, 10, 20, 2)));
    assert_eq!(translate(bx(i64::MAX, 0, 0, 0, 0), bx(1, 0, 0, 0, 0)), None);
    assert_eq!(translate(bx(0, i64::MIN, 0, 0, 0), bx(0, -1, 0, 0, 0)), None);
}

#[test]
fn applying_visits_follows_the_notification_rules() {
    let mut tree = LayoutTree::new();
    let k = tree.insert(Style::default());
    let first = vec![Visit { key: k, parent: None, relative: bx(1, 1, 5, 5, 0), absolute: bx(1, 1, 5, 5, 0) }];
    assert_eq!(tree.apply_visits(&first), vec![Change { key: k, layout: bx(1, 1, 5, 5, 0) }]);
    assert_eq!(tree.get(k), Some(bx(1, 1, 5, 5, 0)));
    let moved = vec![Visit { key: k, parent: None, relative: bx(2, 1, 5, 5, 0), absolute: bx(2, 1, 5, 5, 0) }];
    assert!(tree.apply_visits(&moved).is_empty());
    assert_eq!(tree.get(k), Some(bx(2, 1, 5, 5, 0)));
    tree.listen(k).unwrap();
    assert!(tree.apply_visits(&moved).is_empty());
    let reordered = vec![Visit { key: k, parent: None, relative: bx(2, 1, 5, 5, 1), absolute: bx(2, 1, 5, 5, 1) }];
    assert_eq!(tree.apply_visits(&reordered), vec![Change { key: k, layout: bx(2, 1, 5, 5, 1) }]);
    let resized = vec![Visit { key: k, parent: None, relative: bx(2, 1, 6, 5, 1), absolute: bx(2, 1, 6, 5, 1) }];
    assert_eq!(tree.apply_visits(&resized).len(), 1);
    assert_eq!(tree.is_listening(k), Ok(true));
}

#[test]
fn node_left_out_of_a_pass_stays_absent() {
    let (mut tree, a, _b, root) = scenario();
    let loose = tree.insert(Style::default());
    tree.layout(root).unwrap();
    assert!(tree.get(a).is_some());
    assert_eq!(tree.get(loose), None);
    assert_eq!(tree.is_listening(loose), Err(LayoutError::NotFound));
    assert_eq!(tree.node_count(), 4);
}

#[test]
fn first_pass_reports_in_pre_order_with_siblings_in_order() {
    let mut tree = LayoutTree::new();
    let z = tree.insert(Style::default());
    let x = tree.insert_with_children(Style::default(), &[z]).unwrap();
    let y = tree.insert(Style::default());
    let root = tree.insert_with_children(Style::default(), &[x, y]).unwrap();
    let changes = tree.layout(root).unwrap();
    let keys: Vec<NodeKey> = changes.iter().map(|c| c.key).collect();
    assert_eq!(keys, vec![root, x, z, y]);
}
