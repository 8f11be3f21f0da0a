//! UTC timestamps at millisecond precision, the timestamped artifact filename
//! format, and the law that filename order agrees with chronological order.

use chrono::Datelike;
use chrono::Timelike;
use vstd::arithmetic::div_mod::{
    lemma_div_is_ordered, lemma_div_pos_is_pos, lemma_fundamental_div_mod, lemma_mod_bound,
};
use vstd::prelude::*;

verus! {

/// A UTC instant at millisecond precision, held as plain calendar fields.
#[derive(Clone, Copy, PartialEq, Eq, Structural, Debug)]
pub struct Timestamp {
    pub year: u16,
    pub month: u8,
    pub day: u8,
    pub hour: u8,
    pub minute: u8,
    pub second: u8,
    pub millis: u16,
}

impl Timestamp {
    /// Field ranges under which the fixed-width filename format is faithful.
    pub open spec fn valid(self) -> bool {
        &&& self.year <= 9999
        &&& 1 <= self.month <= 12
        &&& 1 <= self.day <= 31
        &&& self.hour <= 23
        &&& self.minute <= 59
        &&& self.second <= 59
        &&& self.millis <= 999
    }
}

/// Chronological order: lexicographic over the calendar fields.
pub open spec fn ts_lt(a: Timestamp, b: Timestamp) -> bool {
    if a.year != b.year {
        a.year < b.year
    } else if a.month != b.month {
        a.month < b.month
    } else if a.day != b.day {
        a.day < b.day
    } else if a.hour != b.hour {
        a.hour < b.hour
    } else if a.minute != b.minute {
        a.minute < b.minute
    } else if a.second != b.second {
        a.second < b.second
    } else {
        a.millis < b.millis
    }
}

/// Strict lexicographic order on byte strings, as the filesystem sorts names.
pub open spec fn lex_lt(a: Seq<u8>, b: Seq<u8>) -> bool
    decreases a.len(),
{
    if b.len() == 0 {
        false
    } else if a.len() == 0 {
        true
    } else if a[0] < b[0] {
        true
    } else if b[0] < a[0] {
        false
    } else {
        lex_lt(a.skip(1), b.skip(1))
    }
}

pub proof fn lemma_lex_irrefl(a: Seq<u8>)
    ensures
        !lex_lt(a, a),
    decreases a.len(),
{
    if a.len() > 0 {
        lemma_lex_irrefl(a.skip(1));
    }
}

pub proof fn lemma_lex_asym(a: Seq<u8>, b: Seq<u8>)
    requires
        lex_lt(a, b),
    ensures
        !lex_lt(b, a),
    decreases a.len(),
{
    if b.len() > 0 && a.len() > 0 && a[0] == b[0] {
        lemma_lex_asym(a.skip(1), b.skip(1));
    }
}

pub proof fn lemma_lex_total(a: Seq<u8>, b: Seq<u8>)
    requires
        a != b,
    ensures
        lex_lt(a, b) || lex_lt(b, a),
    decreases a.len(),
{
    if a.len() == 0 {
        assert(b.len() > 0) by {
            if b.len() == 0 {
                assert(a =~= b);
            }
        }
    } else if b.len() == 0 {
    } else if a[0] == b[0] {
        assert(a.skip(1) != b.skip(1)) by {
            if a.skip(1) == b.skip(1) {
                assert(a.len() == b.len()) by {
                    assert(a.skip(1).len() == a.len() - 1);
                    assert(b.skip(1).len() == b.len() - 1);
                }
                assert forall|i: int| 0 <= i < a.len() implies a[i] == b[i] by {
                    if i > 0 {
                        assert(a[i] == a.skip(1)[i - 1]);
                        assert(b[i] == b.skip(1)[i - 1]);
                    }
                }
                assert(a =~= b);
            }
        }
        lemma_lex_total(a.skip(1), b.skip(1));
    }
}

pub proof fn lemma_lex_trans(a: Seq<u8>, b: Seq<u8>, c: Seq<u8>)
    requires
        lex_lt(a, b),
        lex_lt(b, c),
    ensures
        lex_lt(a, c),
    decreases a.len(),
{
    if a.len() > 0 && b.len() > 0 && c.len() > 0 && a[0] == b[0] && b[0] == c[0] {
        lemma_lex_trans(a.skip(1), b.skip(1), c.skip(1));
    }
}

/// Appending to equal-length strings compares by the first difference.
pub proof fn lemma_lex_append(a: Seq<u8>, b: Seq<u8>, x: Seq<u8>, y: Seq<u8>)
    requires
        a.len() == b.len(),
    ensures
        lex_lt(a + x, b + y) == (lex_lt(a, b) || (a == b && lex_lt(x, y))),
    decreases a.len(),
{
    if a.len() == 0 {
        assert(a + x =~= x);
        assert(b + y =~= y);
        assert(a =~= b);
    } else {
        assert((a + x)[0] == a[0]);
        assert((b + y)[0] == b[0]);
        if a[0] == b[0] {
            assert((a + x).skip(1) =~= a.skip(1) + x);
            assert((b + y).skip(1) =~= b.skip(1) + y);
            lemma_lex_append(a.skip(1), b.skip(1), x, y);
            if a.skip(1) == b.skip(1) {
                assert forall|i: int| 0 <= i < a.len() implies a[i] == b[i] by {
                    if i > 0 {
                        assert(a[i] == a.skip(1)[i - 1]);
                        assert(b[i] == b.skip(1)[i - 1]);
                    }
                }
                assert(a =~= b);
            }
            if a == b {
                assert(a.skip(1) =~= b.skip(1));
            }
        }
    }
}

/// A shared prefix does not affect the comparison.
pub proof fn lemma_lex_append_same(a: Seq<u8>, x: Seq<u8>, y: Seq<u8>)
    ensures
        lex_lt(a + x, a + y) == lex_lt(x, y),
{
    lemma_lex_append(a, a, x, y);
    lemma_lex_irrefl(a);
}

/// The ASCII digit for one decimal digit value.
pub open spec fn digit(v: int) -> u8
    recommends
        0 <= v <= 9,
{
    (48 + v) as u8
}

pub open spec fn one(c: u8) -> Seq<u8> {
    seq![c]
}

pub open spec fn pad1(v: int) -> Seq<u8> {
    seq![digit(v)]
}

pub open spec fn pad2(v: int) -> Seq<u8> {
    pad1(v / 10) + pad1(v % 10)
}

pub open spec fn pad3(v: int) -> Seq<u8> {
    pad1(v / 100) + pad2(v % 100)
}

pub open spec fn pad4(v: int) -> Seq<u8> {
    pad1(v / 1000) + pad3(v % 1000)
}

proof fn lemma_split_lt(m: int, n: int, d: int, hi: int)
    requires
        0 <= m < n,
        0 < d,
        0 < hi,
        n < d * hi,
    ensures
        0 <= m / d <= n / d < hi,
        m / d == n / d ==> m % d < n % d,
        0 <= m % d < d,
        0 <= n % d < d,
{
    lemma_div_is_ordered(m, n, d);
    lemma_div_pos_is_pos(m, d);
    lemma_fundamental_div_mod(m, d);
    lemma_fundamental_div_mod(n, d);
    lemma_mod_bound(m, d);
    lemma_mod_bound(n, d);
    if n / d >= hi {
        assert(d * (n / d) >= d * hi) by (nonlinear_arith)
            requires
                0 < d,
                n / d >= hi,
        ;
        assert(false);
    }
}

proof fn lemma_pad1_lt(m: int, n: int)
    requires
        0 <= m < n <= 9,
    ensures
        lex_lt(pad1(m), pad1(n)),
{
    assert(pad1(m)[0] == digit(m));
    assert(pad1(n)[0] == digit(n));
}

proof fn lemma_pad2_lt(m: int, n: int)
    requires
        0 <= m < n < 100,
    ensures
        lex_lt(pad2(m), pad2(n)),
{
    lemma_split_lt(m, n, 10, 10);
    if m / 10 < n / 10 {
        lemma_pad1_lt(m / 10, n / 10);
        lemma_lex_append(pad1(m / 10), pad1(n / 10), pad1(m % 10), pad1(n % 10));
    } else {
        lemma_pad1_lt(m % 10, n % 10);
        lemma_lex_append_same(pad1(m / 10), pad1(m % 10), pad1(n % 10));
    }
}

proof fn lemma_pad3_lt(m: int, n: int)
    requires
        0 <= m < n < 1000,
    ensures
        lex_lt(pad3(m), pad3(n)),
{
    lemma_split_lt(m, n, 100, 10);
    if m / 100 < n / 100 {
        lemma_pad1_lt(m / 100, n / 100);
        lemma_lex_append(pad1(m / 100), pad1(n / 100), pad2(m % 100), pad2(n % 100));
    } else {
        lemma_pad2_lt(m % 100, n % 100);
        lemma_lex_append_same(pad1(m / 100), pad2(m % 100), pad2(n % 100));
    }
}

proof fn lemma_pad4_lt(m: int, n: int)
    requires
        0 <= m < n < 10000,
    ensures
        lex_lt(pad4(m), pad4(n)),
{
    lemma_split_lt(m, n, 1000, 10);
    if m / 1000 < n / 1000 {
        lemma_pad1_lt(m / 1000, n / 1000);
        lemma_lex_append(pad1(m / 1000), pad1(n / 1000), pad3(m % 1000), pad3(n % 1000));
    } else {
        lemma_pad3_lt(m % 1000, n % 1000);
        lemma_lex_append_same(pad1(m / 1000), pad3(m % 1000), pad3(n % 1000));
    }
}

/// The numeric UTC offset suffix of the timestamp format.
pub open spec fn zone_chars() -> Seq<u8> {
    seq![43u8, 48u8, 48u8, 48u8, 48u8]
}

/// The default artifact stem, the bytes of "state".
pub open spec fn stem_chars() -> Seq<u8> {
    seq![115u8, 116u8, 97u8, 116u8, 101u8]
}

/// The artifact extension, the bytes of "dat".
pub open spec fn ext_chars() -> Seq<u8> {
    seq![100u8, 97u8, 116u8]
}

/// The timestamp rendered as fixed-width UTC text with millisecond precision
/// and a numeric offset.
pub open spec fn ts_chars(t: Timestamp) -> Seq<u8> {
    pad4(t.year as int) + (one(45) + (pad2(t.month as int) + (one(45) + (pad2(t.day as int) + (one(
        84,
    ) + (pad2(t.hour as int) + (one(58) + (pad2(t.minute as int) + (one(58) + (pad2(
        t.second as int,
    ) + (one(46) + (pad3(t.millis as int) + zone_chars()))))))))))))
}

/// The name of one timestamped state artifact.
pub open spec fn spec_filename(t: Timestamp) -> Seq<u8> {
    stem_chars() + (one(46) + (ts_chars(t) + (one(46) + ext_chars())))
}

/// The well-known pointer name: stem and extension, no timestamp.
pub open spec fn spec_pointer_name() -> Seq<u8> {
    stem_chars() + (one(46) + ext_chars())
}

#[verifier::rlimit(60)]
proof fn lemma_ts_chars_lt(a: Timestamp, b: Timestamp)
    requires
        a.valid(),
        b.valid(),
        ts_lt(a, b),
    ensures
        lex_lt(ts_chars(a), ts_chars(b)),
{
    let ra1 = one(45) + (pad2(a.month as int) + (one(45) + (pad2(a.day as int) + (one(84) + (pad2(
        a.hour as int,
    ) + (one(58) + (pad2(a.minute as int) + (one(58) + (pad2(a.second as int) + (one(46) + (pad3(
        a.millis as int,
    ) + zone_chars())))))))))));
    let rb1 = one(45) + (pad2(b.month as int) + (one(45) + (pad2(b.day as int) + (one(84) + (pad2(
        b.hour as int,
    ) + (one(58) + (pad2(b.minute as int) + (one(58) + (pad2(b.second as int) + (one(46) + (pad3(
        b.millis as int,
    ) + zone_chars())))))))))));
    if a.year != b.year {
        lemma_pad4_lt(a.year as int, b.year as int);
        lemma_lex_append(pad4(a.year as int), pad4(b.year as int), ra1, rb1);
    } else {
        lemma_lex_append_same(pad4(a.year as int), ra1, rb1);
        let ra2 = pad2(a.month as int) + (one(45) + (pad2(a.day as int) + (one(84) + (pad2(
            a.hour as int,
        ) + (one(58) + (pad2(a.minute as int) + (one(58) + (pad2(a.second as int) + (one(46) + (
        pad3(a.millis as int) + zone_chars()))))))))));
        let rb2 = pad2(b.month as int) + (one(45) + (pad2(b.day as int) + (one(84) + (pad2(
            b.hour as int,
        ) + (one(58) + (pad2(b.minute as int) + (one(58) + (pad2(b.second as int) + (one(46) + (
        pad3(b.millis as int) + zone_chars()))))))))));
        lemma_lex_append_same(one(45), ra2, rb2);
        if a.month != b.month {
            lemma_pad2_lt(a.month as int, b.month as int);
            lemma_lex_append(
                pad2(a.month as int),
                pad2(b.month as int),
                ra2.skip(2),
                rb2.skip(2),
            );
            assert(ra2 =~= pad2(a.month as int) + ra2.skip(2));
            assert(rb2 =~= pad2(b.month as int) + rb2.skip(2));
        } else {
            let ra3 = one(45) + (pad2(a.day as int) + (one(84) + (pad2(a.hour as int) + (one(58) + (
            pad2(a.minute as int) + (one(58) + (pad2(a.second as int) + (one(46) + (pad3(
                a.millis as int,
            ) + zone_chars())))))))));
            let rb3 = one(45) + (pad2(b.day as int) + (one(84) + (pad2(b.hour as int) + (one(58) + (
            pad2(b.minute as int) + (one(58) + (pad2(b.second as int) + (one(46) + (pad3(
                b.millis as int,
            ) + zone_chars())))))))));
            lemma_lex_append_same(pad2(a.month as int), ra3, rb3);
            lemma_lex_append_same(one(45), ra3.skip(1), rb3.skip(1));
            assert(ra3.skip(1) =~= pad2(a.day as int) + (one(84) + (pad2(a.hour as int) + (one(58)
                + (pad2(a.minute as int) + (one(58) + (pad2(a.second as int) + (one(46) + (pad3(
                a.millis as int,
            ) + zone_chars())))))))));
            assert(rb3.skip(1) =~= pad2(b.day as int) + (one(84) + (pad2(b.hour as int) + (one(58)
                + (pad2(b.minute as int) + (one(58) + (pad2(b.second as int) + (one(46) + (pad3(
                b.millis as int,
            ) + zone_chars())))))))));
            if a.day != b.day {
                lemma_pad2_lt(a.day as int, b.day as int);
                lemma_lex_append(
                    pad2(a.day as int),
                    pad2(b.day as int),
                    one(84) + (pad2(a.hour as int) + (one(58) + (pad2(a.minute as int) + (one(58)
                        + (pad2(a.second as int) + (one(46) + (pad3(a.millis as int)
                        + zone_chars()))))))),
                    one(84) + (pad2(b.hour as int) + (one(58) + (pad2(b.minute as int) + (one(58)
                        + (pad2(b.second as int) + (one(46) + (pad3(b.millis as int)
                        + zone_chars()))))))),
                );
            } else {
                let ra4 = pad2(a.hour as int) + (one(58) + (pad2(a.minute as int) + (one(58) + (
                pad2(a.second as int) + (one(46) + (pad3(a.millis as int) + zone_chars()))))));
                let rb4 = pad2(b.hour as int) + (one(58) + (pad2(b.minute as int) + (one(58) + (
                pad2(b.second as int) + (one(46) + (pad3(b.millis as int) + zone_chars()))))));
                lemma_lex_append_same(pad2(a.day as int), one(84) + ra4, one(84) + rb4);
                lemma_lex_append_same(one(84), ra4, rb4);
                if a.hour != b.hour {
                    lemma_pad2_lt(a.hour as int, b.hour as int);
                    lemma_lex_append(
                        pad2(a.hour as int),
                        pad2(b.hour as int),
                        one(58) + (pad2(a.minute as int) + (one(58) + (pad2(a.second as int) + (one(
                            46,
                        ) + (pad3(a.millis as int) + zone_chars()))))),
                        one(58) + (pad2(b.minute as int) + (one(58) + (pad2(b.second as int) + (one(
                            46,
                        ) + (pad3(b.millis as int) + zone_chars()))))),
                    );
                } else {
                    let ra5 = pad2(a.minute as int) + (one(58) + (pad2(a.second as int) + (one(46)
                        + (pad3(a.millis as int) + zone_chars()))));
                    let rb5 = pad2(b.minute as int) + (one(58) + (pad2(b.second as int) + (one(46)
                        + (pad3(b.millis as int) + zone_chars()))));
                    lemma_lex_append_same(pad2(a.hour as int), one(58) + ra5, one(58) + rb5);
                    lemma_lex_append_same(one(58), ra5, rb5);
                    if a.minute != b.minute {
                        lemma_pad2_lt(a.minute as int, b.minute as int);
                        lemma_lex_append(
                            pad2(a.minute as int),
                            pad2(b.minute as int),
                            one(58) + (pad2(a.second as int) + (one(46) + (pad3(a.millis as int)
                                + zone_chars()))),
                            one(58) + (pad2(b.second as int) + (one(46) + (pad3(b.millis as int)
                                + zone_chars()))),
                        );
                    } else {
                        let ra6 = pad2(a.second as int) + (one(46) + (pad3(a.millis as int)
                            + zone_chars()));
                        let rb6 = pad2(b.second as int) + (one(46) + (pad3(b.millis as int)
                            + zone_chars()));
                        lemma_lex_append_same(pad2(a.minute as int), one(58) + ra6, one(58) + rb6);
                        lemma_lex_append_same(one(58), ra6, rb6);
                        if a.second != b.second {
                            lemma_pad2_lt(a.second as int, b.second as int);
                            lemma_lex_append(
                                pad2(a.second as int),
                                pad2(b.second as int),
                                one(46) + (pad3(a.millis as int) + zone_chars()),
                                one(46) + (pad3(b.millis as int) + zone_chars()),
                            );
                        } else {
                            let ra7 = pad3(a.millis as int) + zone_chars();
                            let rb7 = pad3(b.millis as int) + zone_chars();
                            lemma_lex_append_same(
                                pad2(a.second as int),
                                one(46) + ra7,
                                one(46) + rb7,
                            );
                            lemma_lex_append_same(one(46), ra7, rb7);
                            lemma_pad3_lt(a.millis as int, b.millis as int);
                            lemma_lex_append(
                                pad3(a.millis as int),
                                pad3(b.millis as int),
                                zone_chars(),
                                zone_chars(),
                            );
                        }
                    }
                }
            }
        }
    }
}

/// Filenames generated at increasing times sort in the same order: the
/// invariant that retention's descending name sort depends on.
pub proof fn lemma_filename_order(a: Timestamp, b: Timestamp)
    requires
        a.valid(),
        b.valid(),
        ts_lt(a, b),
    ensures
        lex_lt(spec_filename(a), spec_filename(b)),
{
    lemma_ts_chars_lt(a, b);
    lemma_lex_append_same(
        stem_chars(),
        one(46) + (ts_chars(a) + (one(46) + ext_chars())),
        one(46) + (ts_chars(b) + (one(46) + ext_chars())),
    );
    lemma_lex_append_same(
        one(46),
        ts_chars(a) + (one(46) + ext_chars()),
        ts_chars(b) + (one(46) + ext_chars()),
    );
    lemma_lex_append(ts_chars(a), ts_chars(b), one(46) + ext_chars(), one(46) + ext_chars());
}

impl Timestamp {
    /// Builds a timestamp from raw clock fields, clamping each into the range
    /// the fixed-width filename format can carry. In-range fields (every real
    /// UTC reading outside a leap second) are taken unchanged.
    pub fn from_clock(
        year: i32,
        month: u32,
        day: u32,
        hour: u32,
        minute: u32,
        second: u32,
        millis: u32,
    ) -> (r: Timestamp)
        ensures
            r.valid(),
            r.year == if year < 0 {
                0int
            } else if year > 9999 {
                9999int
            } else {
                year as int
            },
            r.month == if month < 1 {
                1int
            } else if month > 12 {
                12int
            } else {
                month as int
            },
            r.day == if day < 1 {
                1int
            } else if day > 31 {
                31int
            } else {
                day as int
            },
            r.hour == if hour > 23 {
                23int
            } else {
                hour as int
            },
            r.minute == if minute > 59 {
                59int
            } else {
                minute as int
            },
            r.second == if second > 59 {
                59int
            } else {
                second as int
            },
            r.millis == if millis > 999 {
                999int
            } else {
                millis as int
            },
    {
        Timestamp {
            year: if year < 0 {
                0
            } else if year > 9999 {
                9999
            } else {
                year as u16
            },
            month: if month < 1 {
                1
            } else if month > 12 {
                12
            } else {
                month as u8
            },
            day: if day < 1 {
                1
            } else if day > 31 {
                31
            } else {
                day as u8
            },
            hour: if hour > 23 {
                23
            } else {
                hour as u8
            },
            minute: if minute > 59 {
                59
            } else {
                minute as u8
            },
            second: if second > 59 {
                59
            } else {
                second as u8
            },
            millis: if millis > 999 {
                999
            } else {
                millis as u16
            },
        }
    }
}

/// Relies on chrono's `Utc::now` and its `Datelike`/`Timelike` accessors:
/// month and day are 1-based and within their documented calendar ranges;
/// hour, minute and second are in range; milliseconds exceed 999 only during
/// a leap second and stay below 2000.
#[verifier::external_body]
fn utc_now_fields() -> (r: (i32, u32, u32, u32, u32, u32, u32))
    ensures
        1 <= r.1 <= 12,
        1 <= r.2 <= 31,
        r.3 <= 23,
        r.4 <= 59,
        r.5 <= 59,
        r.6 <= 1999,
{
    let t = chrono::Utc::now();
    (t.year(), t.month(), t.day(), t.hour(), t.minute(), t.second(), t.timestamp_subsec_millis())
}

/// The current UTC time, within the ranges the filename format carries.
pub fn now() -> (r: Timestamp)
    ensures
        r.valid(),
{
    let (y, mo, d, h, mi, s, ms) = utc_now_fields();
    Timestamp::from_clock(y, mo, d, h, mi, s, ms)
}

fn push_pad2(out: &mut Vec<u8>, v: u8)
    requires
        v < 100,
    ensures
        final(out)@ == old(out)@ + pad2(v as int),
{
    out.push(48 + v / 10);
    out.push(48 + v % 10);
    proof {
        assert(final(out)@ =~= old(out)@ + pad2(v as int));
    }
}

fn push_pad3(out: &mut Vec<u8>, v: u16)
    requires
        v <= 999,
    ensures
        final(out)@ == old(out)@ + pad3(v as int),
{
    out.push((48 + v / 100) as u8);
    let r = v % 100;
    out.push((48 + r / 10) as u8);
    out.push((48 + r % 10) as u8);
    proof {
        assert(final(out)@ =~= old(out)@ + pad3(v as int));
    }
}

fn push_pad4(out: &mut Vec<u8>, v: u16)
    requires
        v <= 9999,
    ensures
        final(out)@ == old(out)@ + pad4(v as int),
{
    out.push((48 + v / 1000) as u8);
    let r = v % 1000;
    out.push((48 + r / 100) as u8);
    let r2 = r % 100;
    out.push((48 + r2 / 10) as u8);
    out.push((48 + r2 % 10) as u8);
    proof {
        assert(final(out)@ =~= old(out)@ + pad4(v as int));
    }
}

/// Renders the timestamped artifact name for one state file.
#[verifier::rlimit(80)]
pub fn filename(t: Timestamp) -> (r: Vec<u8>)
    requires
        t.valid(),
    ensures
        r@ == spec_filename(t),
{
    let mut out: Vec<u8> = Vec::new();
    out.push(115);
    out.push(116);
    out.push(97);
    out.push(116);
    out.push(101);
    out.push(46);
    proof {
        assert(out@ =~= stem_chars() + one(46));
    }
    let ghost head = out@;
    push_pad4(&mut out, t.year);
    out.push(45);
    push_pad2(&mut out, t.month);
    out.push(45);
    push_pad2(&mut out, t.day);
    out.push(84);
    push_pad2(&mut out, t.hour);
    out.push(58);
    push_pad2(&mut out, t.minute);
    out.push(58);
    push_pad2(&mut out, t.second);
    out.push(46);
    push_pad3(&mut out, t.millis);
    out.push(43);
    out.push(48);
    out.push(48);
    out.push(48);
    out.push(48);
    proof {
        assert(out@ =~= head + ts_chars(t));
    }
    let ghost body = out@;
    out.push(46);
    out.push(100);
    out.push(97);
    out.push(116);
    proof {
        assert(out@ =~= body + (one(46) + ext_chars()));
        assert(out@ =~= spec_filename(t));
    }
    out
}

/// Renders the well-known pointer name.
pub fn pointer_name() -> (r: Vec<u8>)
    ensures
        r@ == spec_pointer_name(),
{
    let mut out: Vec<u8> = Vec::new();
    out.push(115);
    out.push(116);
    out.push(97);
    out.push(116);
    out.push(101);
    out.push(46);
    out.push(100);
    out.push(97);
    out.push(116);
    proof {
        assert(out@ =~= spec_pointer_name());
    }
    out
}

/// Compares two names in the order the filesystem sorts them.
pub fn lex_less(a: &Vec<u8>, b: &Vec<u8>) -> (r: bool)
    ensures
        r == lex_lt(a@, b@),
{
    let alen = a.len();
    let blen = b.len();
    let mut i: usize = 0;
    proof {
        assert(a@.skip(0) =~= a@);
        assert(b@.skip(0) =~= b@);
    }
    while i < alen && i < blen
        invariant
            i <= alen,
            i <= blen,
            alen == a@.len(),
            blen == b@.len(),
            lex_lt(a@, b@) == lex_lt(a@.skip(i as int), b@.skip(i as int)),
        decreases alen - i,
    {
        proof {
            assert(a@.skip(i as int)[0] == a@[i as int]);
            assert(b@.skip(i as int)[0] == b@[i as int]);
        }
        if a[i] < b[i] {
            return true;
        }
        if b[i] < a[i] {
            return false;
        }
        proof {
            assert(a@.skip(i as int).skip(1) =~= a@.skip(i as int + 1));
            assert(b@.skip(i as int).skip(1) =~= b@.skip(i as int + 1));
        }
        i = i + 1;
    }
    proof {
        assert(a@.skip(i as int).len() == alen - i);
        assert(b@.skip(i as int).len() == blen - i);
    }
    alen < blen
}

} // verus!
