//! The nodes of a virtual tree, as built from a template.
use vstd::prelude::*;

verus! {

/// An attribute of an element.
#[derive(Clone, Copy, Debug, PartialEq, Eq, Structural)]
pub enum Attribute {
    /// An attribute whose value is supplied at run time, by index.
    Dynamic { id: usize },
}

/// A node of a virtual tree: text, or an element with attributes and children.
#[derive(Debug)]
pub enum VirtualNode {
    Text(String),
    Element { tag: String, attrs: Vec<Attribute>, children: Vec<VirtualNode> },
}

} // verus!
