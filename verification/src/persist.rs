//! The persistor capability: a no-op variant and the file-backed store that
//! rotates timestamped artifacts behind an atomically repointed "latest"
//! pointer and prunes old artifacts down to the retention window.

use vstd::math::min;
use vstd::prelude::*;

use crate::clock::{
    filename, lemma_lex_asym, lex_lt, now, pointer_name, spec_filename, spec_pointer_name,
    stem_chars, Timestamp,
};
use crate::codec::{decode_state, encode_state, spec_decode_state};
use crate::dir::{
    count_state, find, has_name, is_state_name, lemma_find_some_index, lemma_index_implies_has,
    names_unique, Directory, Entry,
};
use crate::state::{BrokerState, BrokerStateView};

verus! {

/// How many past states are kept: the current one and the previous one.
pub const STATE_COUNT: usize = 2;

/// What failed during a load or store.
#[derive(Debug, PartialEq, Eq, Structural)]
pub enum ErrorReason {
    FileOpen,
    FileUnlink,
    ReadDir,
    Symlink,
    SymlinkUnlink,
    Serialize,
    Deserialize,
}

impl ErrorReason {
    pub open spec fn spec_message(self) -> Seq<char> {
        match self {
            ErrorReason::FileOpen => "failed to open file"@,
            ErrorReason::FileUnlink => "failed to remove file"@,
            ErrorReason::ReadDir => "failed to read contents of directory"@,
            ErrorReason::Symlink => "failed to create symlink"@,
            ErrorReason::SymlinkUnlink => "failed to remove symlink"@,
            ErrorReason::Serialize => "failed to serialize state"@,
            ErrorReason::Deserialize => "failed to deserialize state"@,
        }
    }

    /// A short description of the failure.
    pub fn message(&self) -> (r: &'static str)
        ensures
            r@ == self.spec_message(),
    {
        match self {
            ErrorReason::FileOpen => "failed to open file",
            ErrorReason::FileUnlink => "failed to remove file",
            ErrorReason::ReadDir => "failed to read contents of directory",
            ErrorReason::Symlink => "failed to create symlink",
            ErrorReason::SymlinkUnlink => "failed to remove symlink",
            ErrorReason::Serialize => "failed to serialize state",
            ErrorReason::Deserialize => "failed to deserialize state",
        }
    }
}

/// What a load of a directory yields: the state named by the pointer, the
/// default state when no pointer exists, or the error.
pub open spec fn spec_load_dir(s: Seq<Entry>) -> Result<BrokerStateView, ErrorReason> {
    match find(s, spec_pointer_name()) {
        Option::None => Result::Ok(BrokerStateView::empty()),
        Option::Some(target) => match find(s, target) {
            Option::None => Result::Err(ErrorReason::FileOpen),
            Option::Some(bytes) => match spec_decode_state(bytes) {
                Option::Some(v) => Result::Ok(v),
                Option::None => Result::Err(ErrorReason::Deserialize),
            },
        },
    }
}

/// What one successful store at time `t` with retention window `k` does to a
/// directory.
pub open spec fn store_at_post(
    pre: Seq<Entry>,
    post: Seq<Entry>,
    k: int,
    s: BrokerStateView,
    t: Timestamp,
) -> bool {
    // the pointer names the new artifact
    &&& find(post, spec_pointer_name()) == Option::Some(spec_filename(t))
    // entries that are neither artifacts nor the pointer are untouched
    &&& forall|m: Seq<u8>|
        !is_state_name(m) && m != spec_pointer_name() ==> find(post, m) == find(pre, m)
    // every surviving prior artifact holds what it held before
    &&& forall|m: Seq<u8>|
        is_state_name(m) && m != spec_filename(t) && has_name(post, m) ==> find(post, m) == find(
            pre,
            m,
        )
    // retention bounds the artifact count
    &&& count_state(post) as int == min(
        count_state(pre) as int + (if has_name(pre, spec_filename(t)) {
            0int
        } else {
            1int
        }),
        k,
    )
    // every pruned artifact is older in name order than every kept one
    &&& forall|m1: Seq<u8>, m2: Seq<u8>|
        is_state_name(m1) && has_name(post, m1) && is_state_name(m2) && (has_name(pre, m2) || m2
            == spec_filename(t)) && !has_name(post, m2) ==> lex_lt(m2, m1)
    // a store newer than everything present commits the state for the next load
    &&& ((forall|m: Seq<u8>|
        is_state_name(m) && has_name(pre, m) ==> (m == spec_filename(t) || lex_lt(
            m,
            spec_filename(t),
        ))) ==> spec_load_dir(post) == Result::<BrokerStateView, ErrorReason>::Ok(s))
}

/// The artifact name of a store is itself a state artifact name, and the
/// pointer name is not.
pub proof fn lemma_filename_is_state(t: Timestamp)
    ensures
        is_state_name(spec_filename(t)),
        !is_state_name(spec_pointer_name()),
{
    assert(spec_filename(t).len() == 38);
    assert(spec_pointer_name().len() == 9);
    assert(spec_filename(t).subrange(0, 5) =~= stem_chars());
}

/// The capability to load and durably store one broker state.
pub trait Persist: Sized {
    spec fn wf(&self) -> bool;

    /// Returns the most recently committed state, or the default state when
    /// none was ever committed.
    fn load(&mut self) -> (r: Result<BrokerState, ErrorReason>)
        requires
            old(self).wf(),
        ensures
            final(self).wf(),
    ;

    /// Consumes one state snapshot and durably commits it.
    fn store(&mut self, state: BrokerState) -> (r: Result<(), ErrorReason>)
        requires
            old(self).wf(),
        ensures
            final(self).wf(),
    ;
}

/// The persistor used when persistence is disabled: loads the default state
/// and discards stores.
pub struct NullPersistor;

impl Persist for NullPersistor {
    open spec fn wf(&self) -> bool {
        true
    }

    fn load(&mut self) -> (r: Result<BrokerState, ErrorReason>)
        ensures
            r matches Result::Ok(s) && s@ == BrokerStateView::empty(),
    {
        Result::Ok(BrokerState::default())
    }

    fn store(&mut self, state: BrokerState) -> (r: Result<(), ErrorReason>)
        ensures
            r is Ok,
    {
        Result::Ok(())
    }
}

/// The file-backed persistor: one directory of timestamped artifacts plus the
/// pointer, with a retention window.
pub struct FilePersistor {
    dir: Directory,
    retain: usize,
}

impl View for FilePersistor {
    type V = Seq<Entry>;

    closed spec fn view(&self) -> Seq<Entry> {
        self.dir@
    }
}

impl FilePersistor {
    /// The configured retention window.
    pub closed spec fn retention(&self) -> usize {
        self.retain
    }

    /// Takes ownership of the directory image, with the default retention
    /// window.
    pub fn new(dir: Directory) -> (r: FilePersistor)
        requires
            names_unique(dir@),
        ensures
            r@ == dir@,
            r.retention() == STATE_COUNT,
            r.wf(),
    {
        FilePersistor { dir, retain: STATE_COUNT }
    }

    /// Takes ownership of the directory image with a chosen retention window.
    pub fn with_retention(dir: Directory, retain: usize) -> (r: FilePersistor)
        requires
            names_unique(dir@),
            retain >= 1,
        ensures
            r@ == dir@,
            r.retention() == retain,
            r.wf(),
    {
        FilePersistor { dir, retain }
    }

    /// Releases the directory image, e.g. to mirror it outward.
    pub fn into_directory(self) -> (r: Directory)
        ensures
            r@ == self@,
    {
        self.dir
    }

    /// Borrows the directory image, e.g. to mirror it outward.
    pub fn directory(&self) -> (r: &Directory)
        ensures
            r@ == self@,
    {
        &self.dir
    }

    fn count_state_files(&self) -> (r: usize)
        ensures
            r == count_state(self@),
    {
        let n = self.dir.len();
        let mut cnt: usize = 0;
        let mut i: usize = 0;
        proof {
            assert(self@.subrange(0, 0) =~= Seq::<Entry>::empty());
        }
        while i < n
            invariant
                i <= n,
                n == self@.len(),
                cnt <= i,
                cnt == count_state(self@.subrange(0, i as int)),
            decreases n - i,
        {
            let name = self.dir.name_at(i);
            proof {
                assert(self@.subrange(0, i as int + 1) =~= self@.subrange(0, i as int).push(
                    self@[i as int],
                ));
                crate::dir::lemma_count_push(self@.subrange(0, i as int), self@[i as int]);
            }
            if crate::dir::is_state_file_name(&name) {
                cnt = cnt + 1;
            }
            i = i + 1;
        }
        proof {
            assert(self@.subrange(0, n as int) =~= self@);
        }
        cnt
    }

    #[verifier::rlimit(60)]
    fn oldest_state_name(&self) -> (r: Option<Vec<u8>>)
        ensures
            match r {
                Option::Some(v) => is_state_name(v@) && has_name(self@, v@) && (forall|m: Seq<u8>|
                    is_state_name(m) && has_name(self@, m) && m != v@ ==> lex_lt(v@, m)),
                Option::None => count_state(self@) == 0,
            },
    {
        let n = self.dir.len();
        let mut best: Option<Vec<u8>> = Option::None;
        let mut i: usize = 0;
        while i < n
            invariant
                i <= n,
                n == self@.len(),
                match best {
                    Option::Some(b) => is_state_name(b@) && has_name(self@, b@) && (forall|j: int|
                        0 <= j < i && is_state_name(self@[j].name@) ==> (self@[j].name@ == b@
                            || lex_lt(b@, self@[j].name@))),
                    Option::None => forall|j: int| 0 <= j < i ==> !is_state_name(self@[j].name@),
                },
            decreases n - i,
        {
            let name = self.dir.name_at(i);
            if crate::dir::is_state_file_name(&name) {
                proof {
                    lemma_index_implies_has(self@, i as int);
                }
                let replace: bool = match &best {
                    Option::None => true,
                    Option::Some(b) => crate::clock::lex_less(&name, b),
                };
                let ghost prev = best;
                if replace {
                    proof {
                        match prev {
                            Option::Some(b) => {
                                assert forall|j: int|
                                    0 <= j < i + 1 && is_state_name(self@[j].name@) implies (
                                self@[j].name@ == name@ || lex_lt(name@, self@[j].name@)) by {
                                    if j < i && self@[j].name@ != name@ && self@[j].name@ != b@ {
                                        crate::clock::lemma_lex_trans(name@, b@, self@[j].name@);
                                    }
                                }
                            },
                            Option::None => {},
                        }
                    }
                    best = Option::Some(name);
                } else {
                    proof {
                        match prev {
                            Option::Some(b) => {
                                if name@ != b@ {
                                    crate::clock::lemma_lex_total(name@, b@);
                                }
                            },
                            Option::None => {},
                        }
                    }
                }
            }
            i = i + 1;
        }
        let ghost fin = best;
        proof {
            match fin {
                Option::Some(b) => {
                    assert forall|m: Seq<u8>|
                        is_state_name(m) && has_name(self@, m) && m != b@ implies lex_lt(
                        b@,
                        m,
                    ) by {
                        lemma_find_some_index(self@, m);
                    }
                },
                Option::None => {
                    crate::dir::lemma_count_zero(self@);
                },
            }
        }
        best
    }

    /// Deletes artifacts beyond the retention window, oldest first.
    #[verifier::rlimit(60)]
    fn prune(&mut self)
        requires
            old(self).wf(),
        ensures
            final(self).wf(),
            final(self).retention() == old(self).retention(),
            count_state(final(self)@) as int == min(
                count_state(old(self)@) as int,
                old(self).retention() as int,
            ),
            forall|m: Seq<u8>|
                has_name(final(self)@, m) ==> find(final(self)@, m) == find(old(self)@, m),
            forall|m: Seq<u8>|
                !is_state_name(m) ==> find(final(self)@, m) == find(old(self)@, m),
            forall|m1: Seq<u8>, m2: Seq<u8>|
                is_state_name(m1) && has_name(final(self)@, m1) && has_name(old(self)@, m2)
                    && !has_name(final(self)@, m2) ==> lex_lt(m2, m1),
    {
        let ghost orig = self@;
        let k = self.retain;
        let mut c = self.count_state_files();
        while c > k
            invariant
                self.wf(),
                self.retention() == k,
                c == count_state(self@),
                count_state(orig) <= k ==> count_state(self@) == count_state(orig),
                count_state(orig) > k ==> count_state(self@) >= k,
                forall|m: Seq<u8>| has_name(self@, m) ==> find(self@, m) == find(orig, m),
                forall|m: Seq<u8>| !is_state_name(m) ==> find(self@, m) == find(orig, m),
                forall|m1: Seq<u8>, m2: Seq<u8>|
                    is_state_name(m1) && has_name(self@, m1) && has_name(orig, m2) && !has_name(
                        self@,
                        m2,
                    ) ==> lex_lt(m2, m1),
            decreases c,
        {
            let ghost prev = self@;
            match self.oldest_state_name() {
                Option::Some(victim) => {
                    self.dir.remove(&victim);
                    proof {
                        assert forall|m1: Seq<u8>, m2: Seq<u8>|
                            is_state_name(m1) && has_name(self@, m1) && has_name(orig, m2)
                                && !has_name(self@, m2) implies lex_lt(m2, m1) by {
                            if has_name(prev, m2) {
                                if m2 == victim@ {
                                    assert(m1 != victim@);
                                } else {
                                }
                            }
                        }
                    }
                },
                Option::None => {
                    proof {
                        assert(false);
                    }
                },
            }
            c = self.count_state_files();
        }
    }

    /// Stores one state snapshot under the artifact name for time `t`: writes
    /// the new artifact, repoints the pointer only after the write is
    /// complete, then prunes beyond the retention window.
    #[verifier::rlimit(60)]
    pub fn store_at(&mut self, state: BrokerState, t: Timestamp) -> (r: Result<(), ErrorReason>)
        requires
            old(self).wf(),
            t.valid(),
        ensures
            final(self).wf(),
            final(self).retention() == old(self).retention(),
            r is Ok,
            store_at_post(
                old(self)@,
                final(self)@,
                old(self).retention() as int,
                state@,
                t,
            ),
    {
        let ghost pre = self@;
        let ghost k = self.retention() as int;
        let name = filename(t);
        let name_for_pointer = crate::dir::clone_bytes(&name);
        let bytes = encode_state(&state);
        let ghost blob = bytes@;
        proof {
            lemma_filename_is_state(t);
        }
        self.dir.set(name, bytes);
        let ghost dir_a = self@;
        let ptr = pointer_name();
        self.dir.set(ptr, name_for_pointer);
        let ghost dir_b = self@;
        self.prune();
        proof {
            let post = self@;
            let fname = spec_filename(t);
            let pname = spec_pointer_name();
            // the pointer survives pruning untouched
            assert(find(post, pname) == Option::Some(fname));
            // entries that are neither artifacts nor the pointer are untouched
            assert forall|m: Seq<u8>| !is_state_name(m) && m != pname implies find(post, m)
                == find(pre, m) by {
                assert(find(post, m) == find(dir_b, m));
                assert(find(dir_b, m) == find(dir_a, m));
                assert(m != fname);
                assert(find(dir_a, m) == find(pre, m));
            }
            // surviving prior artifacts are unchanged
            assert forall|m: Seq<u8>|
                is_state_name(m) && m != fname && has_name(post, m) implies find(post, m) == find(
                pre,
                m,
            ) by {
                assert(find(post, m) == find(dir_b, m));
                assert(m != pname);
                assert(find(dir_b, m) == find(dir_a, m));
                assert(find(dir_a, m) == find(pre, m));
            }
            // the artifact count after pruning
            let delta: int = if has_name(pre, fname) {
                0
            } else {
                1
            };
            assert(count_state(dir_a) as int == count_state(pre) as int + delta);
            assert(count_state(dir_b) as int == count_state(dir_a) as int);
            assert(count_state(post) as int == min(count_state(pre) as int + delta, k));
            // pruned artifacts are older than every kept one
            assert forall|m1: Seq<u8>, m2: Seq<u8>|
                is_state_name(m1) && has_name(post, m1) && is_state_name(m2) && (has_name(pre, m2)
                    || m2 == fname) && !has_name(post, m2) implies lex_lt(m2, m1) by {
                assert(m2 != pname);
                if m2 == fname {
                    assert(find(dir_b, m2) == Option::Some(blob));
                } else {
                    assert(find(dir_b, m2) == find(pre, m2));
                }
                assert(has_name(dir_b, m2));
            }
            // freshness: if the new artifact is newest, it survives and loads back
            if forall|m: Seq<u8>|
                is_state_name(m) && has_name(pre, m) ==> (m == fname || lex_lt(m, fname)) {
                if !has_name(post, fname) {
                    // some artifact was kept, since the count stays positive
                    assert(has_name(dir_a, fname));
                    crate::dir::lemma_count_pos_of_has(dir_a, fname);
                    assert(count_state(post) as int >= 1);
                    crate::dir::lemma_count_pos(post);
                    let j = choose|j: int| 0 <= j < post.len() && is_state_name(post[j].name@);
                    lemma_index_implies_has(post, j);
                    let m1 = post[j].name@;
                    assert(lex_lt(fname, m1));
                    assert(find(post, m1) == find(dir_b, m1));
                    assert(m1 != fname);
                    assert(m1 != pname);
                    assert(find(dir_b, m1) == find(dir_a, m1));
                    assert(find(dir_a, m1) == find(pre, m1));
                    assert(has_name(pre, m1));
                    assert(lex_lt(m1, fname));
                    lemma_lex_asym(m1, fname);
                    assert(false);
                }
                assert(find(post, fname) == find(dir_b, fname));
                assert(fname != pname);
                assert(find(dir_b, fname) == find(dir_a, fname));
                assert(find(post, fname) == Option::Some(blob));
                assert(spec_decode_state(blob) == Option::Some(state@));
                assert(spec_load_dir(post) == Result::<BrokerStateView, ErrorReason>::Ok(state@));
            }
        }
        Result::Ok(())
    }

    /// Models a store whose encoding fails partway through the write: the
    /// partial artifact is deleted again, every prior artifact and the pointer
    /// are left untouched, and the failure propagates.
    pub fn store_aborted_at(&mut self, t: Timestamp) -> (r: Result<(), ErrorReason>)
        requires
            old(self).wf(),
            t.valid(),
            !has_name(old(self)@, spec_filename(t)),
        ensures
            final(self).wf(),
            final(self).retention() == old(self).retention(),
            r == Result::<(), ErrorReason>::Err(ErrorReason::Serialize),
            forall|m: Seq<u8>| find(final(self)@, m) == find(old(self)@, m),
            count_state(final(self)@) == count_state(old(self)@),
            spec_load_dir(final(self)@) == spec_load_dir(old(self)@),
    {
        let name = filename(t);
        let partial: Vec<u8> = Vec::new();
        self.dir.set(name, partial);
        let name_again = filename(t);
        self.dir.remove(&name_again);
        proof {
            lemma_filename_is_state(t);
            assert(spec_load_dir(self@) == spec_load_dir(old(self)@)) by {
                assert(find(self@, spec_pointer_name()) == find(old(self)@, spec_pointer_name()));
            }
        }
        Result::Err(ErrorReason::Serialize)
    }
}

impl Persist for FilePersistor {
    open spec fn wf(&self) -> bool {
        names_unique(self@) && self.retention() >= 1
    }

    fn load(&mut self) -> (r: Result<BrokerState, ErrorReason>)
        ensures
            final(self)@ == old(self)@,
            final(self).retention() == old(self).retention(),
            match r {
                Result::Ok(s) => spec_load_dir(old(self)@) == Result::<
                    BrokerStateView,
                    ErrorReason,
                >::Ok(s@),
                Result::Err(e) => spec_load_dir(old(self)@) == Result::<
                    BrokerStateView,
                    ErrorReason,
                >::Err(e),
            },
    {
        let ptr = pointer_name();
        match self.dir.get(&ptr) {
            Option::None => Result::Ok(BrokerState::default()),
            Option::Some(target) => match self.dir.get(&target) {
                Option::None => Result::Err(ErrorReason::FileOpen),
                Option::Some(bytes) => match decode_state(&bytes) {
                    Option::Some(s) => Result::Ok(s),
                    Option::None => Result::Err(ErrorReason::Deserialize),
                },
            },
        }
    }

    fn store(&mut self, state: BrokerState) -> (r: Result<(), ErrorReason>)
        ensures
            final(self).retention() == old(self).retention(),
            r is Ok,
            exists|t: Timestamp|
                t.valid() && store_at_post(
                    old(self)@,
                    final(self)@,
                    old(self).retention() as int,
                    state@,
                    t,
                ),
    {
        let t = now();
        let r = self.store_at(state, t);
        proof {
            assert(t.valid() && store_at_post(
                old(self)@,
                final(self)@,
                old(self).retention() as int,
                state@,
                t,
            ));
        }
        r
    }
}

/// Round-trip law: a store of `s` at a time newer than every artifact already
/// present, followed by a fresh load of the resulting directory, yields `s`.
pub proof fn lemma_store_load_round_trip(
    pre: Seq<Entry>,
    post: Seq<Entry>,
    k: int,
    s: BrokerStateView,
    t: Timestamp,
)
    requires
        store_at_post(pre, post, k, s, t),
        forall|m: Seq<u8>|
            is_state_name(m) && has_name(pre, m) ==> (m == spec_filename(t) || lex_lt(
                m,
                spec_filename(t),
            )),
    ensures
        spec_load_dir(post) == Result::<BrokerStateView, ErrorReason>::Ok(s),
{
}

/// Retention law: once a directory holds at least `k` artifacts, a further
/// store under window `k` leaves exactly `k` artifacts, and the pointer names
/// the newly stored one.
pub proof fn lemma_retention_window(
    pre: Seq<Entry>,
    post: Seq<Entry>,
    k: int,
    s: BrokerStateView,
    t: Timestamp,
)
    requires
        store_at_post(pre, post, k, s, t),
        count_state(pre) as int >= k,
        k >= 1,
    ensures
        count_state(post) as int == k,
        find(post, spec_pointer_name()) == Option::Some(spec_filename(t)),
{
}

} // verus!
