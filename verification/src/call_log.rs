//! Calls of a callback that cannot go uncounted: a call uses up the right to
//! call, and leaves one entry in the log.
use crate::node::{LatticeNode, NodeView};
use crate::state::FinalizerView;
use vstd::prelude::*;

verus! {

/// The log of the calls of a callback of type `F`. Only a value of that type
/// opens one, and only [`OneCall::call`] adds to it.
pub(crate) struct CallLog<F> {
    callback: Ghost<F>,
    calls: Ghost<Seq<(usize, NodeView)>>,
}

impl<F> CallLog<F> {
    /// The calls made, oldest first.
    pub(crate) closed spec fn calls(&self) -> Seq<(usize, NodeView)> {
        self.calls@
    }

    /// Opens the log of a callback that has not been called yet.
    pub(crate) fn open(callback: F) -> (opened: (F, CallLog<F>))
        ensures
            opened.0 == callback,
            opened.1.calls() == Seq::<(usize, NodeView)>::empty(),
    {
        let log = CallLog { callback: Ghost(callback), calls: Ghost(Seq::empty()) };
        (callback, log)
    }
}

/// The right to call a callback of type `F` once.
pub(crate) trait OneCall<F>: Sized {
    /// May the callback be called with this id and node?
    spec fn accepts(self, id: usize, node: LatticeNode) -> bool;

    /// Is a call with this id and node one that can have returned?
    spec fn returned(self, id: usize, node: LatticeNode) -> bool;

    /// Calls the callback, which uses up the right to, and logs the call.
    fn call(self, log: &mut CallLog<F>, id: usize, node: &LatticeNode)
        requires
            self.accepts(id, *node),
        ensures
            self.returned(id, *node),
            final(log).calls() == old(log).calls().push((id, node@)),
    ;
}

/// What can be called once is such a right.
impl<F, G: FnOnce(usize, &LatticeNode)> OneCall<F> for G {
    open(crate) spec fn accepts(self, id: usize, node: LatticeNode) -> bool {
        call_requires(self, (id, &node))
    }

    open(crate) spec fn returned(self, id: usize, node: LatticeNode) -> bool {
        call_ensures(self, (id, &node), ())
    }

    fn call(self, log: &mut CallLog<F>, id: usize, node: &LatticeNode) {
        self(id, node);
        log.calls = Ghost(log.calls@.push((id, node@)));
    }
}

/// A callback that can be called again and again, through a borrow that is good
/// for one call.
pub(crate) trait Callback: Sized where for<'a> &'a mut Self: OneCall<Self> {
    /// The callback before its first call.
    spec fn fresh(self) -> FinalizerView;

    /// A borrowed callback accepts what the callback accepts, returns where the
    /// callback returns, and leaves a callback that accepts the same.
    proof fn lemma_borrowed(borrowed: &mut Self, id: usize, node: LatticeNode)
        ensures
            old(borrowed).fresh().callable ==> borrowed.accepts(id, node),
            borrowed.returned(id, node) ==> old(borrowed).fresh().returned(id, node)
                && *final(borrowed) == *old(borrowed),
    ;
}

impl<F: FnMut(usize, &LatticeNode)> Callback for F {
    open(crate) spec fn fresh(self) -> FinalizerView {
        FinalizerView::fresh(self)
    }

    proof fn lemma_borrowed(borrowed: &mut Self, id: usize, node: LatticeNode) {
    }
}

} // verus!
