//! A modular UI framework: an incremental layout cache over a constraint solver,
//! and the small runtime that drives a model and its view builder.
use std::sync::Arc;
use vstd::prelude::*;

pub mod cache;
pub mod geometry;
pub mod layout;
pub mod solver;
pub mod view;
pub mod virtual_node;

verus! {

/// The handle through which views send messages back to the model.
pub struct Context<F> {
    send: Arc<F>,
}

impl<F> Context<F> {
    /// The function that delivers a message.
    pub closed spec fn sender(&self) -> F {
        *self.send
    }

    pub fn new(send: Arc<F>) -> (r: Self)
        ensures
            r.sender() == *send,
    {
        Self { send }
    }

    /// Delivers `msg` through the sender.
    pub fn send<M>(&self, msg: M)
        where
            F: Fn(M),
        requires
            self.sender().requires((msg,)),
        ensures
            call_ensures(self.sender(), (msg,), ()),
    {
        let f: &F = &self.send;
        f(msg)
    }
}

impl<F> Clone for Context<F> {
    fn clone(&self) -> (r: Self)
        ensures
            r.sender() == self.sender(),
    {
        Self { send: Arc::clone(&self.send) }
    }
}

/// Control flow returned from [`Model::handle`].
#[derive(Clone, Copy, Debug, PartialEq, Eq, Structural)]
pub enum ControlFlow {
    /// This model is pending changes, do not rebuild the view.
    Pending,
    /// Rebuild the view with the updated model.
    Rebuild,
}

/// Model for a view builder.
pub trait Model<M> {
    fn handle(&mut self, msg: M) -> ControlFlow;
}

/// Runtime for a model and view builder.
pub struct Runtime<T, VB, E, F, S> {
    model: T,
    view_builder: VB,
    element: Option<E>,
    cx: Context<F>,
    state: S,
}

impl<T, VB, E, F, S> Runtime<T, VB, E, F, S> {
    pub closed spec fn model(&self) -> T {
        self.model
    }

    pub closed spec fn view_builder(&self) -> VB {
        self.view_builder
    }

    pub closed spec fn element(&self) -> Option<E> {
        self.element
    }

    pub closed spec fn context(&self) -> Context<F> {
        self.cx
    }

    pub closed spec fn state(&self) -> S {
        self.state
    }

    /// A runtime that has built no element yet.
    pub fn new(send: Arc<F>, model: T, view_builder: VB, state: S) -> (r: Self)
        ensures
            r.model() == model,
            r.view_builder() == view_builder,
            r.element() is None,
            r.context().sender() == *send,
            r.state() == state,
    {
        let cx = Context::new(send);
        Self { model, view_builder, element: None, cx, state }
    }

    /// Hands `msg` to the model; nothing but the model changes.
    pub fn handle<M>(&mut self, msg: M) -> (r: ControlFlow)
        where
            T: Model<M>,
        ensures
            final(self).view_builder() == old(self).view_builder(),
            final(self).element() == old(self).element(),
            final(self).context() == old(self).context(),
            final(self).state() == old(self).state(),
    {
        self.model.handle(msg)
    }
}

} // verus!
