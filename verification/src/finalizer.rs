//! Finalizer callbacks.
use crate::call_log::{CallLog, Callback, OneCall};
use crate::node::LatticeNode;
use crate::state::FinalizerView;
use vstd::prelude::*;

verus! {

/// Callback invoked for dead objects before they are reclaimed.
pub type Finalizer = dyn FnMut(usize, &LatticeNode);

/// A callback whose calls are recorded.
pub(crate) trait Recording {
    /// The callback and the record of its calls.
    spec fn history(&self) -> FinalizerView;

    /// Hands a dead node to the callback and records the call.
    fn finalize(&mut self, id: usize, node: &LatticeNode)
        requires
            old(self).history().callable,
        ensures
            final(self).history() == old(self).history().record(id, node@),
            old(self).history().returned(id, *node),
            final(self).history().received == old(self).history().received.push((id, node@)),
            final(self).history().callable == old(self).history().callable,
            final(self).history().returns == old(self).history().returns,
            (old(self).history().returns)(id, *node),
    ;
}

/// A callback together with the log of its calls.
///
/// Nothing is known of `F` here but that a borrow of it can be called once, and
/// that such a call is logged. So the record holds an entry for each call of the
/// callback, and one call was made for each entry.
pub(crate) struct Recorded<F> {
    callback: F,
    log: CallLog<F>,
}

impl<F: Callback> Recorded<F> where for<'a> &'a mut F: OneCall<F> {
    /// A callback that has not been called yet.
    pub(crate) fn new(callback: F) -> (recorded: Self)
        ensures
            recorded.history() == (FinalizerView { received: Seq::empty(), ..callback.fresh() }),
    {
        let (callback, log) = CallLog::open(callback);
        Recorded { callback, log }
    }
}

impl<F: Callback> Recording for Recorded<F> where for<'a> &'a mut F: OneCall<F> {
    closed spec fn history(&self) -> FinalizerView {
        FinalizerView { received: self.log.calls(), ..self.callback.fresh() }
    }

    fn finalize(&mut self, id: usize, node: &LatticeNode) {
        let borrowed = &mut self.callback;
        proof {
            F::lemma_borrowed(borrowed, id, *node);
        }
        OneCall::call(borrowed, &mut self.log, id, node);
    }
}

} // verus!
