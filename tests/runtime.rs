use std::cell::Cell;
use std::rc::Rc;
use std::sync::Arc;
use viewbuilder::geometry::NodeKey;
use viewbuilder::view::{from_fn, ContainerView, LinearLayout};
use viewbuilder::virtual_node::{Attribute, VirtualNode};
use viewbuilder::{Context, ControlFlow, Model, Runtime};

struct Counter {
    total: u32,
}

impl Model<u32> for Counter {
    fn handle(&mut self, msg: u32) -> ControlFlow {
        self.total += msg;
        if self.total > 10 {
            ControlFlow::Rebuild
        } else {
            ControlFlow::Pending
        }
    }
}

#[test]
fn context_delivers_messages() {
    let seen = Rc::new(Cell::new(0u32));
    let sink = seen.clone();
    let cx = Context::new(Arc::new(move |m: u32| sink.set(sink.get() + m)));
    cx.send(3);
    cx.clone().send(4);
    assert_eq!(seen.get(), 7);
}

#[test]
fn runtime_hands_messages_to_the_model() {
    let mut rt: Runtime<Counter, (), (), _, ()> =
        Runtime::new(Arc::new(|_m: u32| {}), Counter { total: 0 }, (), ());
    assert_eq!(rt.handle(5u32), ControlFlow::Pending);
    assert_eq!(rt.handle(6u32), ControlFlow::Rebuild);
}

#[test]
fn container_view_adds_and_removes_children() {
    let mut v = ContainerView::new();
    v.with_child(NodeKey { id: 1 });
    v.with_child(NodeKey { id: 2 });
    v.with_child(NodeKey { id: 1 });
    v.remove_child(NodeKey { id: 1 });
    assert_eq!(v.child_keys(), &[NodeKey { id: 2 }, NodeKey { id: 1 }]);
    let mut again = ContainerView::default();
    again.with_child(NodeKey { id: 2 });
    again.remove_child(NodeKey { id: 2 });
    assert!(again.child_keys().is_empty());
}

#[test]
fn views_and_nodes_can_be_built() {
    let _layout = LinearLayout::new(5u8);
    let _view = from_fn(|_cx: &mut Context<fn(u32)>| {});
    let node = VirtualNode::Element {
        tag: String::from("div"),
        attrs: vec![Attribute::Dynamic { id: 0 }],
        children: vec![VirtualNode::Text(String::from("hi"))],
    };
    match node {
        VirtualNode::Element { tag, attrs, children } => {
            assert_eq!(tag, "div");
            assert_eq!(attrs, vec![Attribute::Dynamic { id: 0 }]);
            assert_eq!(children.len(), 1);
        }
        VirtualNode::Text(_) => panic!("expected an element"),
    }
}
