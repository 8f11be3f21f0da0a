//! The model of the state directory: a flat set of named files. The
//! persistor's algorithms and laws are stated over this model; an outer
//! process mirrors it onto a real directory with one filesystem call per
//! operation.

use vstd::prelude::*;

use crate::clock::{spec_pointer_name, stem_chars};

verus! {

/// One directory entry: a file name and its contents.
pub struct Entry {
    pub name: Vec<u8>,
    pub content: Vec<u8>,
}

/// Names that retention treats as state artifacts: stem-prefixed entries
/// other than the pointer.
pub open spec fn is_state_name(n: Seq<u8>) -> bool {
    n.len() >= 5 && n.subrange(0, 5) == stem_chars() && n != spec_pointer_name()
}

/// The contents filed under a name, if present.
pub open spec fn find(s: Seq<Entry>, n: Seq<u8>) -> Option<Seq<u8>>
    decreases s.len(),
{
    if s.len() == 0 {
        Option::None
    } else if s[0].name@ == n {
        Option::Some(s[0].content@)
    } else {
        find(s.skip(1), n)
    }
}

pub open spec fn has_name(s: Seq<Entry>, n: Seq<u8>) -> bool {
    find(s, n) is Some
}

pub open spec fn names_unique(s: Seq<Entry>) -> bool {
    forall|i: int, j: int| 0 <= i < j < s.len() ==> s[i].name@ != s[j].name@
}

/// How many state artifacts the directory holds.
pub open spec fn count_state(s: Seq<Entry>) -> nat
    decreases s.len(),
{
    if s.len() == 0 {
        0
    } else {
        (if is_state_name(s[0].name@) {
            1nat
        } else {
            0
        }) + count_state(s.skip(1))
    }
}

pub proof fn lemma_find_absent(s: Seq<Entry>, n: Seq<u8>)
    requires
        forall|j: int| 0 <= j < s.len() ==> s[j].name@ != n,
    ensures
        find(s, n) is None,
    decreases s.len(),
{
    if s.len() > 0 {
        assert(forall|j: int| 0 <= j < s.skip(1).len() ==> s.skip(1)[j] == s[j + 1]);
        lemma_find_absent(s.skip(1), n);
    }
}

pub proof fn lemma_find_first(s: Seq<Entry>, i: int, n: Seq<u8>)
    requires
        0 <= i < s.len(),
        s[i].name@ == n,
        forall|j: int| 0 <= j < i ==> s[j].name@ != n,
    ensures
        find(s, n) == Option::Some(s[i].content@),
    decreases i,
{
    if i > 0 {
        assert(forall|j: int| 0 <= j < s.skip(1).len() ==> s.skip(1)[j] == s[j + 1]);
        lemma_find_first(s.skip(1), i - 1, n);
    }
}

pub proof fn lemma_index_implies_has(s: Seq<Entry>, j: int)
    requires
        0 <= j < s.len(),
    ensures
        has_name(s, s[j].name@),
    decreases j,
{
    if j > 0 && s[0].name@ != s[j].name@ {
        assert(s.skip(1)[j - 1] == s[j]);
        lemma_index_implies_has(s.skip(1), j - 1);
    }
}

pub proof fn lemma_find_some_index(s: Seq<Entry>, n: Seq<u8>)
    requires
        find(s, n) is Some,
    ensures
        exists|j: int| 0 <= j < s.len() && s[j].name@ == n,
    decreases s.len(),
{
    if s.len() > 0 && s[0].name@ != n {
        lemma_find_some_index(s.skip(1), n);
        let j = choose|j: int| 0 <= j < s.skip(1).len() && s.skip(1)[j].name@ == n;
        assert(s[j + 1] == s.skip(1)[j]);
    }
}

pub proof fn lemma_find_push(s: Seq<Entry>, e: Entry, n: Seq<u8>)
    ensures
        find(s.push(e), n) == (if has_name(s, n) {
            find(s, n)
        } else if e.name@ == n {
            Option::Some(e.content@)
        } else {
            Option::<Seq<u8>>::None
        }),
    decreases s.len(),
{
    if s.len() == 0 {
        assert(s.push(e)[0] == e);
        assert(s.push(e).skip(1) =~= Seq::<Entry>::empty());
        assert(find(Seq::<Entry>::empty(), n) is None);
        assert(find(s, n) is None);
    } else {
        assert(s.push(e)[0] == s[0]);
        assert(s.push(e).skip(1) =~= s.skip(1).push(e));
        lemma_find_push(s.skip(1), e, n);
    }
}

pub proof fn lemma_find_remove(s: Seq<Entry>, i: int, n: Seq<u8>)
    requires
        names_unique(s),
        0 <= i < s.len(),
    ensures
        find(s.remove(i), n) == (if s[i].name@ == n {
            Option::<Seq<u8>>::None
        } else {
            find(s, n)
        }),
    decreases s.len(),
{
    s.remove_ensures(i);
    if i == 0 {
        assert(s.remove(0) =~= s.skip(1));
        if s[0].name@ == n {
            assert(forall|j: int| 0 <= j < s.skip(1).len() ==> s.skip(1)[j] == s[j + 1]);
            lemma_find_absent(s.skip(1), n);
        }
    } else {
        assert(s.remove(i)[0] == s[0]);
        assert(forall|j: int| 0 <= j < s.skip(1).len() ==> s.skip(1)[j] == s[j + 1]);
        assert(names_unique(s.skip(1)));
        assert(s.remove(i).skip(1) =~= s.skip(1).remove(i - 1)) by {
            s.skip(1).remove_ensures(i - 1);
            assert(s.remove(i).skip(1).len() == s.skip(1).remove(i - 1).len());
            assert(forall|k: int|
                0 <= k < s.remove(i).skip(1).len() ==> s.remove(i).skip(1)[k] == s.remove(i)[k
                    + 1]);
        }
        lemma_find_remove(s.skip(1), i - 1, n);
        assert(s.skip(1)[i - 1] == s[i]);
        if s[0].name@ == n {
            assert(s[i].name@ != n);
        }
    }
}

pub proof fn lemma_count_push(s: Seq<Entry>, e: Entry)
    ensures
        count_state(s.push(e)) == count_state(s) + (if is_state_name(e.name@) {
            1nat
        } else {
            0
        }),
    decreases s.len(),
{
    if s.len() == 0 {
        assert(s.push(e)[0] == e);
        assert(s.push(e).skip(1) =~= Seq::<Entry>::empty());
        assert(count_state(Seq::<Entry>::empty()) == 0);
        assert(count_state(s) == 0);
    } else {
        assert(s.push(e)[0] == s[0]);
        assert(s.push(e).skip(1) =~= s.skip(1).push(e));
        lemma_count_push(s.skip(1), e);
    }
}

pub proof fn lemma_count_remove(s: Seq<Entry>, i: int)
    requires
        0 <= i < s.len(),
    ensures
        count_state(s) == count_state(s.remove(i)) + (if is_state_name(s[i].name@) {
            1nat
        } else {
            0
        }),
    decreases s.len(),
{
    s.remove_ensures(i);
    if i == 0 {
        assert(s.remove(0) =~= s.skip(1));
    } else {
        assert(s.remove(i)[0] == s[0]);
        assert(forall|j: int| 0 <= j < s.skip(1).len() ==> s.skip(1)[j] == s[j + 1]);
        assert(s.remove(i).skip(1) =~= s.skip(1).remove(i - 1)) by {
            s.skip(1).remove_ensures(i - 1);
        }
        lemma_count_remove(s.skip(1), i - 1);
        assert(s.skip(1)[i - 1] == s[i]);
    }
}

pub proof fn lemma_count_zero(s: Seq<Entry>)
    requires
        forall|j: int| 0 <= j < s.len() ==> !is_state_name(s[j].name@),
    ensures
        count_state(s) == 0,
    decreases s.len(),
{
    if s.len() > 0 {
        assert(forall|j: int| 0 <= j < s.skip(1).len() ==> s.skip(1)[j] == s[j + 1]);
        lemma_count_zero(s.skip(1));
    }
}

pub proof fn lemma_count_pos(s: Seq<Entry>)
    requires
        count_state(s) > 0,
    ensures
        exists|j: int| 0 <= j < s.len() && is_state_name(s[j].name@),
    decreases s.len(),
{
    if s.len() > 0 && !is_state_name(s[0].name@) {
        lemma_count_pos(s.skip(1));
        let j = choose|j: int| 0 <= j < s.skip(1).len() && is_state_name(s.skip(1)[j].name@);
        assert(s[j + 1] == s.skip(1)[j]);
    }
}

pub proof fn lemma_count_pos_of_has(s: Seq<Entry>, m: Seq<u8>)
    requires
        is_state_name(m),
        has_name(s, m),
    ensures
        count_state(s) >= 1,
    decreases s.len(),
{
    if s.len() > 0 && s[0].name@ != m {
        lemma_count_pos_of_has(s.skip(1), m);
    }
}

pub proof fn lemma_unique_remove(s: Seq<Entry>, i: int)
    requires
        names_unique(s),
        0 <= i < s.len(),
    ensures
        names_unique(s.remove(i)),
{
    s.remove_ensures(i);
}

pub proof fn lemma_unique_push(s: Seq<Entry>, e: Entry)
    requires
        names_unique(s),
        !has_name(s, e.name@),
    ensures
        names_unique(s.push(e)),
{
    assert forall|i: int, j: int|
        0 <= i < j < s.push(e).len() implies s.push(e)[i].name@ != s.push(e)[j].name@ by {
        if j == s.len() {
            lemma_index_implies_has(s, i);
        }
    }
}

fn bytes_eq(a: &Vec<u8>, b: &Vec<u8>) -> (r: bool)
    ensures
        r == (a@ == b@),
{
    if a.len() != b.len() {
        return false;
    }
    let n = a.len();
    let mut i: usize = 0;
    while i < n
        invariant
            i <= n,
            n == a@.len() == b@.len(),
            forall|j: int| 0 <= j < i ==> a@[j] == b@[j],
        decreases n - i,
    {
        if a[i] != b[i] {
            return false;
        }
        i = i + 1;
    }
    proof {
        assert(a@ =~= b@);
    }
    true
}

/// A fresh copy of a byte string.
pub fn clone_bytes(v: &Vec<u8>) -> (r: Vec<u8>)
    ensures
        r@ == v@,
{
    let n = v.len();
    let mut out: Vec<u8> = Vec::new();
    let mut i: usize = 0;
    while i < n
        invariant
            i <= n,
            n == v@.len(),
            out@ == v@.subrange(0, i as int),
        decreases n - i,
    {
        out.push(v[i]);
        i = i + 1;
        proof {
            assert(out@ =~= v@.subrange(0, i as int));
        }
    }
    proof {
        assert(v@.subrange(0, n as int) =~= v@);
    }
    out
}

/// Tests whether a name is one of the state artifacts retention manages.
pub fn is_state_file_name(name: &Vec<u8>) -> (r: bool)
    ensures
        r == is_state_name(name@),
{
    if name.len() < 5 {
        return false;
    }
    if name[0] != 115 || name[1] != 116 || name[2] != 97 || name[3] != 116 || name[4] != 101 {
        proof {
            if name@.subrange(0, 5) == stem_chars() {
                assert(name@[0] == name@.subrange(0, 5)[0]);
                assert(name@[1] == name@.subrange(0, 5)[1]);
                assert(name@[2] == name@.subrange(0, 5)[2]);
                assert(name@[3] == name@.subrange(0, 5)[3]);
                assert(name@[4] == name@.subrange(0, 5)[4]);
            }
        }
        return false;
    }
    let ptr = crate::clock::pointer_name();
    let is_ptr = bytes_eq(name, &ptr);
    proof {
        assert(name@.subrange(0, 5) =~= stem_chars());
    }
    !is_ptr
}

/// The in-memory image of the state directory.
pub struct Directory {
    entries: Vec<Entry>,
}

impl View for Directory {
    type V = Seq<Entry>;

    closed spec fn view(&self) -> Seq<Entry> {
        self.entries@
    }
}

impl Directory {
    /// An empty directory.
    pub fn new() -> (r: Directory)
        ensures
            r@ == Seq::<Entry>::empty(),
            names_unique(r@),
    {
        let r = Directory { entries: Vec::new() };
        proof {
            assert(r@ =~= Seq::<Entry>::empty());
        }
        r
    }

    pub fn len(&self) -> (r: usize)
        ensures
            r == self@.len(),
    {
        self.entries.len()
    }

    /// A copy of the name of the entry at one position.
    pub fn name_at(&self, i: usize) -> (r: Vec<u8>)
        requires
            i < self@.len(),
        ensures
            r@ == self@[i as int].name@,
    {
        clone_bytes(&self.entries[i].name)
    }

    fn index_of(&self, name: &Vec<u8>) -> (r: Option<usize>)
        ensures
            match r {
                Option::Some(i) => i < self@.len() && self@[i as int].name@ == name@ && (forall|
                    j: int,
                |
                    0 <= j < i ==> self@[j].name@ != name@),
                Option::None => find(self@, name@) is None,
            },
    {
        let n = self.entries.len();
        let mut i: usize = 0;
        while i < n
            invariant
                i <= n,
                n == self@.len(),
                forall|j: int| 0 <= j < i ==> self@[j].name@ != name@,
            decreases n - i,
        {
            if bytes_eq(&self.entries[i].name, name) {
                return Option::Some(i);
            }
            i = i + 1;
        }
        proof {
            lemma_find_absent(self@, name@);
        }
        Option::None
    }

    /// The contents filed under a name, if present.
    pub fn get(&self, name: &Vec<u8>) -> (r: Option<Vec<u8>>)
        ensures
            match r {
                Option::Some(c) => find(self@, name@) == Option::Some(c@),
                Option::None => find(self@, name@) is None,
            },
    {
        match self.index_of(name) {
            Option::Some(i) => {
                proof {
                    lemma_find_first(self@, i as int, name@);
                }
                Option::Some(clone_bytes(&self.entries[i].content))
            },
            Option::None => Option::None,
        }
    }

    /// Creates or replaces the entry under a name.
    pub fn set(&mut self, name: Vec<u8>, content: Vec<u8>)
        requires
            names_unique(old(self)@),
        ensures
            names_unique(final(self)@),
            find(final(self)@, name@) == Option::Some(content@),
            forall|m: Seq<u8>| m != name@ ==> find(final(self)@, m) == find(old(self)@, m),
            count_state(final(self)@) as int == count_state(old(self)@) as int + (if has_name(
                old(self)@,
                name@,
            ) || !is_state_name(name@) {
                0int
            } else {
                1int
            }),
    {
        let ghost orig = self@;
        match self.index_of(&name) {
            Option::Some(i) => {
                proof {
                    lemma_find_first(orig, i as int, name@);
                    lemma_unique_remove(orig, i as int);
                    lemma_count_remove(orig, i as int);
                    assert forall|m: Seq<u8>| true implies find(orig.remove(i as int), m) == (
                    if orig[i as int].name@ == m {
                        Option::<Seq<u8>>::None
                    } else {
                        find(orig, m)
                    }) by {
                        lemma_find_remove(orig, i as int, m);
                    }
                }
                let _ = self.entries.remove(i);
            },
            Option::None => {},
        }
        let ghost mid = self@;
        let e = Entry { name, content };
        proof {
            lemma_unique_push(mid, e);
            lemma_count_push(mid, e);
            assert forall|m: Seq<u8>| true implies find(mid.push(e), m) == (if has_name(mid, m) {
                find(mid, m)
            } else if e.name@ == m {
                Option::Some(e.content@)
            } else {
                Option::<Seq<u8>>::None
            }) by {
                lemma_find_push(mid, e, m);
            }
        }
        self.entries.push(e);
    }

    /// Deletes the entry under a name, if present.
    pub fn remove(&mut self, name: &Vec<u8>)
        requires
            names_unique(old(self)@),
        ensures
            names_unique(final(self)@),
            find(final(self)@, name@) is None,
            forall|m: Seq<u8>| m != name@ ==> find(final(self)@, m) == find(old(self)@, m),
            count_state(final(self)@) as int == count_state(old(self)@) as int - (if has_name(
                old(self)@,
                name@,
            ) && is_state_name(name@) {
                1int
            } else {
                0int
            }),
    {
        let ghost orig = self@;
        match self.index_of(name) {
            Option::Some(i) => {
                proof {
                    lemma_find_first(orig, i as int, name@);
                    lemma_unique_remove(orig, i as int);
                    lemma_count_remove(orig, i as int);
                    assert forall|m: Seq<u8>| true implies find(orig.remove(i as int), m) == (
                    if orig[i as int].name@ == m {
                        Option::<Seq<u8>>::None
                    } else {
                        find(orig, m)
                    }) by {
                        lemma_find_remove(orig, i as int, m);
                    }
                }
                let _ = self.entries.remove(i);
            },
            Option::None => {},
        }
    }
}

} // verus!
