//! The broker state snapshot value that the persistence core stores and loads.

use vstd::prelude::*;

verus! {

/// An opaque, self-contained snapshot of the broker's runtime data at a point
/// in time. The persistence core never interprets the two payloads; it only
/// round-trips them through the codec. Ownership moves by value at each
/// handoff (broker -> snapshotter -> persistor).
pub struct BrokerState {
    /// Serialized session data, produced and consumed by the broker.
    pub sessions: Vec<u8>,
    /// Serialized retained-message data, produced and consumed by the broker.
    pub retained: Vec<u8>,
}

/// Mathematical model of a broker state: the two payloads as byte sequences.
pub struct BrokerStateView {
    pub sessions: Seq<u8>,
    pub retained: Seq<u8>,
}

impl View for BrokerState {
    type V = BrokerStateView;

    open spec fn view(&self) -> BrokerStateView {
        BrokerStateView { sessions: self.sessions@, retained: self.retained@ }
    }
}

impl BrokerStateView {
    /// The state a broker starts from when nothing was ever persisted.
    pub open spec fn empty() -> BrokerStateView {
        BrokerStateView { sessions: Seq::empty(), retained: Seq::empty() }
    }
}

impl Default for BrokerState {
    /// The structurally-default empty state used on first run.
    fn default() -> (r: BrokerState)
        ensures
            r@ == BrokerStateView::empty(),
    {
        let r = BrokerState { sessions: Vec::new(), retained: Vec::new() };
        proof {
            assert(r@.sessions =~= Seq::<u8>::empty());
            assert(r@.retained =~= Seq::<u8>::empty());
            assert(r@ == BrokerStateView::empty());
        }
        r
    }
}

impl BrokerState {
    /// Builds a state from its two payloads.
    pub fn new(sessions: Vec<u8>, retained: Vec<u8>) -> (r: BrokerState)
        ensures
            r@.sessions == sessions@,
            r@.retained == retained@,
    {
        BrokerState { sessions, retained }
    }
}

} // verus!
