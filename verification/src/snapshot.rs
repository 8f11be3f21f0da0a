//! The snapshotter: the exclusive runtime owner of one persistor. Its
//! decision core is a step function from an event to an outcome; a runtime
//! loop feeds it events from an ordered channel, so stores are strictly
//! serialized and shutdown hands the persistor back only between stores.

use vstd::prelude::*;

use crate::clock::{lemma_filename_order, lex_lt, spec_filename, spec_pointer_name, ts_lt, Timestamp};
use crate::dir::{count_state, find, has_name, is_state_name, lemma_count_pos_of_has, Entry};
use crate::persist::{
    spec_load_dir, store_at_post, ErrorReason, FilePersistor, NullPersistor, Persist,
};
use crate::state::{BrokerState, BrokerStateView};

verus! {

/// The closed set of persistence backends, selected once at startup.
pub enum Persistor {
    Null(NullPersistor),
    File(FilePersistor),
}

impl Persistor {
    pub open spec fn wf(&self) -> bool {
        match self {
            Persistor::Null(_) => true,
            Persistor::File(f) => f.wf(),
        }
    }

    /// The directory image of the file-backed variant.
    pub open spec fn dir_view(&self) -> Seq<Entry> {
        match self {
            Persistor::File(f) => f@,
            Persistor::Null(_) => Seq::empty(),
        }
    }

    pub open spec fn retention(&self) -> int {
        match self {
            Persistor::File(f) => f.retention() as int,
            Persistor::Null(_) => 0,
        }
    }

    /// Stores one snapshot under the artifact name for time `t`; the no-op
    /// variant discards it.
    pub fn store_at(self, state: BrokerState, t: Timestamp) -> (r: (Persistor, Result<
        (),
        ErrorReason,
    >))
        requires
            self.wf(),
            t.valid(),
        ensures
            r.0.wf(),
            r.1 is Ok,
            self is Null ==> r.0 == self,
            self is File ==> r.0 is File && r.0.retention() == self.retention() && store_at_post(
                self.dir_view(),
                r.0.dir_view(),
                self.retention(),
                state@,
                t,
            ),
    {
        match self {
            Persistor::Null(n) => (Persistor::Null(n), Result::Ok(())),
            Persistor::File(f) => {
                let mut f = f;
                let rr = f.store_at(state, t);
                (Persistor::File(f), rr)
            },
        }
    }

    /// Borrows the file-backed variant, if that is the selected backend.
    pub fn as_file(&self) -> (r: Option<&FilePersistor>)
        ensures
            (r is Some) == (*self is File),
            r matches Option::Some(f) ==> f@ == self.dir_view(),
    {
        match self {
            Persistor::File(f) => Option::Some(f),
            Persistor::Null(_) => Option::None,
        }
    }

    /// Loads the most recently committed state, or the default state.
    pub fn load(&mut self) -> (r: Result<BrokerState, ErrorReason>)
        requires
            old(self).wf(),
        ensures
            final(self).wf(),
            *old(self) is Null ==> *final(self) is Null,
            *old(self) is File ==> *final(self) is File,
            final(self).dir_view() == old(self).dir_view(),
            final(self).retention() == old(self).retention(),
            *old(self) is Null ==> (r matches Result::Ok(s) && s@ == BrokerStateView::empty()),
            *old(self) is File ==> match r {
                Result::Ok(s) => spec_load_dir(old(self).dir_view()) == Result::<
                    BrokerStateView,
                    ErrorReason,
                >::Ok(s@),
                Result::Err(e) => spec_load_dir(old(self).dir_view()) == Result::<
                    BrokerStateView,
                    ErrorReason,
                >::Err(e),
            },
    {
        match self {
            Persistor::Null(n) => n.load(),
            Persistor::File(f) => f.load(),
        }
    }
}

/// One message consumed by the snapshotter's loop: a snapshot request
/// carrying the state to persist, or a shutdown request.
pub enum SnapshotterEvent {
    Snapshot(BrokerState),
    Shutdown,
}

/// What one step of the snapshotter yields: it keeps running, or it has
/// drained and hands its persistor back to the caller.
pub enum StepOutcome {
    Continue(Snapshotter),
    HandBack(Persistor),
}

/// The exclusive owner of one persistor. Requests are processed one at a
/// time: the store for one event completes before the next event is taken,
/// so at most one store is ever in flight.
pub struct Snapshotter {
    persistor: Persistor,
}

impl Snapshotter {
    pub closed spec fn persistor(&self) -> Persistor {
        self.persistor
    }

    pub open spec fn wf(&self) -> bool {
        self.persistor().wf()
    }

    /// Takes exclusive ownership of the persistor.
    pub fn new(persistor: Persistor) -> (r: Snapshotter)
        ensures
            r.persistor() == persistor,
    {
        Snapshotter { persistor }
    }

    /// Borrows the owned persistor, e.g. to mirror its directory outward.
    pub fn persistor_ref(&self) -> (r: &Persistor)
        ensures
            *r == self.persistor(),
    {
        &self.persistor
    }

    /// Handles one event, sampled at time `now`. A snapshot request is stored
    /// to completion before this returns; a store failure is reported to the
    /// loop but does not stop the snapshotter. A shutdown request hands the
    /// persistor back exactly as the completed stores left it: an in-flight
    /// store can never be abandoned, because a step is never preempted.
    pub fn step(self, event: SnapshotterEvent, now: Timestamp) -> (r: StepOutcome)
        requires
            self.wf(),
            now.valid(),
        ensures
            match r {
                StepOutcome::Continue(next) => {
                    &&& next.wf()
                    &&& event matches SnapshotterEvent::Snapshot(s)
                    &&& (self.persistor() is Null ==> next.persistor() == self.persistor())
                    &&& (self.persistor() is File ==> next.persistor() is File
                        && next.persistor().retention() == self.persistor().retention()
                        && store_at_post(
                        self.persistor().dir_view(),
                        next.persistor().dir_view(),
                        self.persistor().retention(),
                        s@,
                        now,
                    ))
                },
                StepOutcome::HandBack(p) => {
                    &&& event is Shutdown
                    &&& p == self.persistor()
                },
            },
    {
        match event {
            SnapshotterEvent::Snapshot(state) => {
                let (p, _stored) = self.persistor.store_at(state, now);
                StepOutcome::Continue(Snapshotter { persistor: p })
            },
            SnapshotterEvent::Shutdown => StepOutcome::HandBack(self.persistor),
        }
    }
}

proof fn lemma_count_two(s: Seq<Entry>, m1: Seq<u8>, m2: Seq<u8>)
    requires
        is_state_name(m1),
        is_state_name(m2),
        m1 != m2,
        has_name(s, m1),
        has_name(s, m2),
    ensures
        count_state(s) >= 2,
    decreases s.len(),
{
    if s[0].name@ == m1 {
        lemma_count_pos_of_has(s.skip(1), m2);
    } else if s[0].name@ == m2 {
        lemma_count_pos_of_has(s.skip(1), m1);
    } else {
        lemma_count_two(s.skip(1), m1, m2);
    }
}

/// Two snapshot requests submitted together result in two stores performed
/// strictly one after the other: starting from an empty directory with a
/// window of at least two, both artifacts exist afterwards, the pointer names
/// the later one, and a fresh load yields the later state.
pub proof fn lemma_two_snapshots_sequential(
    d0: Seq<Entry>,
    d1: Seq<Entry>,
    d2: Seq<Entry>,
    k: int,
    a: BrokerStateView,
    b: BrokerStateView,
    ta: Timestamp,
    tb: Timestamp,
)
    requires
        store_at_post(d0, d1, k, a, ta),
        store_at_post(d1, d2, k, b, tb),
        ta.valid(),
        tb.valid(),
        ts_lt(ta, tb),
        k >= 2,
        count_state(d0) == 0,
    ensures
        count_state(d2) == 2,
        find(d2, spec_pointer_name()) == Option::Some(spec_filename(tb)),
        spec_load_dir(d2) == Result::<BrokerStateView, ErrorReason>::Ok(b),
{
    let fa = spec_filename(ta);
    let fb = spec_filename(tb);
    lemma_filename_order(ta, tb);
    crate::persist::lemma_filename_is_state(ta);
    crate::persist::lemma_filename_is_state(tb);
    crate::clock::lemma_lex_irrefl(fa);
    assert(fa != fb);
    // nothing in the empty directory is newer than the first store
    assert forall|m: Seq<u8>| is_state_name(m) && has_name(d0, m) implies (m == fa || lex_lt(
        m,
        fa,
    )) by {
        lemma_count_pos_of_has(d0, m);
    }
    assert(spec_load_dir(d1) == Result::<BrokerStateView, ErrorReason>::Ok(a));
    assert(has_name(d1, fa));
    assert(count_state(d1) as int == 1) by {
        assert(!has_name(d0, fa)) by {
            if has_name(d0, fa) {
                lemma_count_pos_of_has(d0, fa);
            }
        }
    }
    // the only artifact of the intermediate directory is the first store's
    assert forall|m: Seq<u8>| is_state_name(m) && has_name(d1, m) implies (m == fb || lex_lt(
        m,
        fb,
    )) by {
        if m != fa {
            lemma_count_two(d1, m, fa);
        }
    }
    assert(spec_load_dir(d2) == Result::<BrokerStateView, ErrorReason>::Ok(b));
    assert(!has_name(d1, fb)) by {
        if has_name(d1, fb) {
            lemma_count_two(d1, fa, fb);
        }
    }
    assert(count_state(d2) as int == 2);
}

/// Shutdown issued while a store is in progress: the hand-back happens only
/// after that store completes, never mid-write — the handed-back directory
/// already holds the store's artifact, and the pointer names it.
pub proof fn lemma_handback_after_inflight_store(
    d0: Seq<Entry>,
    d1: Seq<Entry>,
    k: int,
    s: BrokerStateView,
    t: Timestamp,
)
    requires
        store_at_post(d0, d1, k, s, t),
    ensures
        find(d1, spec_pointer_name()) == Option::Some(spec_filename(t)),
{
}

/// The lifecycle of the shutdown orchestration.
pub enum LifecycleStage {
    /// The broker serves traffic; the snapshotter accepts requests.
    Running,
    /// The orchestrator stops the broker from accepting new work.
    ShutdownRequested,
    /// The snapshotter finishes any in-flight store and hands back its
    /// persistor.
    Draining,
    /// Exactly one final synchronous store runs on the reclaimed persistor.
    Stopped,
}

impl LifecycleStage {
    /// The stage that follows: the progression never moves backwards.
    pub open spec fn spec_next(self) -> LifecycleStage {
        match self {
            LifecycleStage::Running => LifecycleStage::ShutdownRequested,
            LifecycleStage::ShutdownRequested => LifecycleStage::Draining,
            LifecycleStage::Draining => LifecycleStage::Stopped,
            LifecycleStage::Stopped => LifecycleStage::Stopped,
        }
    }

    /// Advances the orchestration by one stage.
    pub fn advance(self) -> (r: LifecycleStage)
        ensures
            r == self.spec_next(),
    {
        match self {
            LifecycleStage::Running => LifecycleStage::ShutdownRequested,
            LifecycleStage::ShutdownRequested => LifecycleStage::Draining,
            LifecycleStage::Draining => LifecycleStage::Stopped,
            LifecycleStage::Stopped => LifecycleStage::Stopped,
        }
    }
}

/// The deadline of the next periodic snapshot: one full interval after the
/// previous deadline, so the first tick never fires immediately on boot.
pub fn next_tick_deadline(prev: u64, period: u64) -> (r: u64)
    requires
        prev + period <= u64::MAX,
    ensures
        r == prev + period,
{
    prev + period
}

} // verus!
