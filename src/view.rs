//! Views: a list of child nodes, a view from a function, a linear layout.
use crate::geometry::NodeKey;
use crate::Context;
use vstd::prelude::*;

verus! {

/// A view that holds the keys of its child nodes, in order.
#[derive(Default)]
pub struct ContainerView {
    children: Vec<NodeKey>,
}

impl ContainerView {
    pub closed spec fn children(&self) -> Seq<NodeKey> {
        self.children@
    }

    /// A view with no children.
    pub fn new() -> (r: Self)
        ensures
            r.children() == Seq::<NodeKey>::empty(),
    {
        ContainerView { children: Vec::new() }
    }

    /// The children, in order.
    pub fn child_keys(&self) -> (r: &[NodeKey])
        ensures
            r@ == self.children(),
    {
        self.children.as_slice()
    }

    /// Appends `key` to the children.
    pub fn with_child(&mut self, key: NodeKey)
        ensures
            final(self).children() == old(self).children().push(key),
    {
        self.children.push(key);
    }

    /// Removes the first child equal to `key`, which must be a child.
    pub fn remove_child(&mut self, key: NodeKey)
        requires
            old(self).children().contains(key),
        ensures
            exists|i: int|
                0 <= i < old(self).children().len() && old(self).children()[i] == key
                    && (forall|j: int| 0 <= j < i ==> old(self).children()[j] != key)
                    && final(self).children() == old(self).children().remove(i),
    {
        let mut i: usize = 0;
        while i < self.children.len()
            invariant
                self.children@ == old(self).children@,
                i <= self.children@.len(),
                forall|j: int| 0 <= j < i ==> self.children@[j] != key,
                self.children@.contains(key),
            decreases self.children.len() - i,
        {
            if self.children[i] == key {
                assert(old(self).children()[i as int] == key);
                self.children.remove(i);
                return;
            }
            i = i + 1;
        }
    }
}

/// A view made from a function of the context.
pub struct FromFn<F> {
    f: F,
}

impl<F> FromFn<F> {
    pub closed spec fn func(&self) -> F {
        self.f
    }
}

/// A view that calls `f` with the context each time it is built.
pub fn from_fn<F, C>(f: F) -> (r: FromFn<F>)
    where
        F: FnMut(&mut Context<C>),
    ensures
        r.func() == f,
{
    FromFn { f }
}

/// A view that lays out its child views in a line.
pub struct LinearLayout<V> {
    view: V,
}

impl<V> LinearLayout<V> {
    pub closed spec fn view(&self) -> V {
        self.view
    }

    pub fn new(view: V) -> (r: Self)
        ensures
            r.view() == view,
    {
        Self { view }
    }
}

} // verus!
