//! Codec for state artifacts: the library's length-prefixed binary framing of
//! a broker state, wrapped in one gzip stream at default compression.

use vstd::prelude::*;

use crate::state::{BrokerState, BrokerStateView};

verus! {

/// The eight little-endian bytes of a 64-bit length prefix.
pub open spec fn le8(n: u64) -> Seq<u8> {
    seq![
        (n & 0xff) as u8,
        ((n >> 8) & 0xff) as u8,
        ((n >> 16) & 0xff) as u8,
        ((n >> 24) & 0xff) as u8,
        ((n >> 32) & 0xff) as u8,
        ((n >> 40) & 0xff) as u8,
        ((n >> 48) & 0xff) as u8,
        ((n >> 56) & 0xff) as u8,
    ]
}

/// The 64-bit value read back from eight little-endian bytes.
pub open spec fn dec8(s: Seq<u8>) -> u64
    recommends
        s.len() == 8,
{
    ((s[0] as u64) | ((s[1] as u64) << 8) | ((s[2] as u64) << 16) | ((s[3] as u64) << 24)
        | ((s[4] as u64) << 32) | ((s[5] as u64) << 40) | ((s[6] as u64) << 48) | ((
    s[7] as u64) << 56))
}

pub proof fn lemma_le8_dec8(n: u64)
    ensures
        dec8(le8(n)) == n,
        le8(n).len() == 8,
{
    assert((((n & 0xff) as u8) as u64) | (((((n >> 8) & 0xff) as u8) as u64) << 8) | (((((n
        >> 16) & 0xff) as u8) as u64) << 16) | (((((n >> 24) & 0xff) as u8) as u64) << 24) | (((((n
        >> 32) & 0xff) as u8) as u64) << 32) | (((((n >> 40) & 0xff) as u8) as u64) << 40) | (((((n
        >> 48) & 0xff) as u8) as u64) << 48) | (((((n >> 56) & 0xff) as u8) as u64) << 56)
        == n) by (bit_vector);
}

/// The framing of a broker state: each payload preceded by its 64-bit
/// little-endian length.
pub open spec fn spec_encode(v: BrokerStateView) -> Seq<u8> {
    le8(v.sessions.len() as u64) + v.sessions + le8(v.retained.len() as u64) + v.retained
}

/// The inverse of the framing: `None` on any stream that `spec_encode` cannot
/// have produced.
pub open spec fn spec_decode(b: Seq<u8>) -> Option<BrokerStateView> {
    if b.len() < 8 {
        Option::None
    } else {
        let la = dec8(b.subrange(0, 8)) as int;
        if b.len() < 16 + la {
            Option::None
        } else {
            let lb = dec8(b.subrange(8 + la, 16 + la)) as int;
            if b.len() != 16 + la + lb {
                Option::None
            } else {
                Option::Some(
                    BrokerStateView {
                        sessions: b.subrange(8, 8 + la),
                        retained: b.subrange(16 + la, 16 + la + lb),
                    },
                )
            }
        }
    }
}

/// The framing is invertible: decoding an encoded state yields that state.
pub proof fn lemma_frame_round_trip(v: BrokerStateView)
    requires
        v.sessions.len() < 0x1_0000_0000_0000_0000,
        v.retained.len() < 0x1_0000_0000_0000_0000,
    ensures
        spec_decode(spec_encode(v)) == Option::Some(v),
{
    let e = spec_encode(v);
    let la = v.sessions.len() as int;
    let lb = v.retained.len() as int;
    lemma_le8_dec8(v.sessions.len() as u64);
    lemma_le8_dec8(v.retained.len() as u64);
    assert(e.len() == 16 + la + lb);
    assert(e.subrange(0, 8) =~= le8(v.sessions.len() as u64));
    assert(dec8(e.subrange(0, 8)) == la);
    assert(e.subrange(8 + la, 16 + la) =~= le8(v.retained.len() as u64));
    assert(dec8(e.subrange(8 + la, 16 + la)) == lb);
    assert(e.subrange(8, 8 + la) =~= v.sessions);
    assert(e.subrange(16 + la, 16 + la + lb) =~= v.retained);
}

fn push_u64_le(out: &mut Vec<u8>, n: u64)
    ensures
        final(out)@ == old(out)@ + le8(n),
{
    out.push((n & 0xff) as u8);
    out.push(((n >> 8) & 0xff) as u8);
    out.push(((n >> 16) & 0xff) as u8);
    out.push(((n >> 24) & 0xff) as u8);
    out.push(((n >> 32) & 0xff) as u8);
    out.push(((n >> 40) & 0xff) as u8);
    out.push(((n >> 48) & 0xff) as u8);
    out.push(((n >> 56) & 0xff) as u8);
    proof {
        assert(out@ =~= old(out)@ + le8(n));
    }
}

fn push_bytes(out: &mut Vec<u8>, b: &Vec<u8>)
    ensures
        final(out)@ == old(out)@ + b@,
{
    let mut i: usize = 0;
    while i < b.len()
        invariant
            i <= b@.len(),
            out@ == old(out)@ + b@.subrange(0, i as int),
        decreases b@.len() - i,
    {
        out.push(b[i]);
        i = i + 1;
        proof {
            assert(out@ =~= old(out)@ + b@.subrange(0, i as int));
        }
    }
    proof {
        assert(b@.subrange(0, b@.len() as int) =~= b@);
    }
}

fn read_u64_le(b: &Vec<u8>, off: usize) -> (r: u64)
    requires
        off + 8 <= b@.len(),
    ensures
        r == dec8(b@.subrange(off as int, off as int + 8)),
{
    let len = b.len();
    let r = (b[off] as u64) | ((b[off + 1] as u64) << 8) | ((b[off + 2] as u64) << 16) | ((b[off
        + 3] as u64) << 24) | ((b[off + 4] as u64) << 32) | ((b[off + 5] as u64) << 40) | ((b[off
        + 6] as u64) << 48) | ((b[off + 7] as u64) << 56);
    proof {
        let s = b@.subrange(off as int, off as int + 8);
        assert(s[0] == b@[off as int]);
        assert(s[1] == b@[off as int + 1]);
        assert(s[2] == b@[off as int + 2]);
        assert(s[3] == b@[off as int + 3]);
        assert(s[4] == b@[off as int + 4]);
        assert(s[5] == b@[off as int + 5]);
        assert(s[6] == b@[off as int + 6]);
        assert(s[7] == b@[off as int + 7]);
    }
    r
}

fn copy_range(b: &Vec<u8>, off: usize, n: usize) -> (r: Vec<u8>)
    requires
        off + n <= b@.len(),
    ensures
        r@ == b@.subrange(off as int, off as int + n as int),
{
    let len = b.len();
    let mut out: Vec<u8> = Vec::new();
    let mut i: usize = 0;
    while i < n
        invariant
            i <= n,
            off + n <= len,
            len == b@.len(),
            out@ == b@.subrange(off as int, off as int + i as int),
        decreases n - i,
    {
        out.push(b[off + i]);
        i = i + 1;
        proof {
            assert(out@ =~= b@.subrange(off as int, off as int + i as int));
        }
    }
    out
}

/// Frames a broker state as bytes, before compression.
pub fn encode_frame(s: &BrokerState) -> (r: Vec<u8>)
    ensures
        r@ == spec_encode(s@),
{
    let mut out: Vec<u8> = Vec::new();
    push_u64_le(&mut out, s.sessions.len() as u64);
    push_bytes(&mut out, &s.sessions);
    push_u64_le(&mut out, s.retained.len() as u64);
    push_bytes(&mut out, &s.retained);
    proof {
        assert(out@ =~= spec_encode(s@));
    }
    out
}

/// Parses framed bytes back into a broker state; `None` on a malformed frame.
pub fn decode_frame(b: &Vec<u8>) -> (r: Option<BrokerState>)
    ensures
        match r {
            Option::Some(s) => spec_decode(b@) == Option::Some(s@),
            Option::None => spec_decode(b@) is None,
        },
{
    if b.len() < 8 {
        return Option::None;
    }
    let la64 = read_u64_le(b, 0);
    let rem = b.len() - 8;
    if la64 > rem as u64 || rem - (la64 as usize) < 8 {
        return Option::None;
    }
    let la = la64 as usize;
    let sessions = copy_range(b, 8, la);
    let lb64 = read_u64_le(b, 8 + la);
    let rem2 = rem - la - 8;
    if lb64 != rem2 as u64 {
        return Option::None;
    }
    let lb = lb64 as usize;
    let retained = copy_range(b, 16 + la, lb);
    Option::Some(BrokerState { sessions, retained })
}

/// What gzip decompression yields on given bytes: `None` exactly where the
/// bytes are not a valid gzip stream.
pub uninterp spec fn gunzip_of(b: Seq<u8>) -> Option<Seq<u8>>;

/// Relies on flate2's `write::GzEncoder`: decompressing the produced gzip
/// stream recovers exactly the compressed bytes.
#[verifier::external_body]
fn gzip_bytes(b: &Vec<u8>) -> (r: Vec<u8>)
    ensures
        gunzip_of(r@) == Option::Some(b@),
{
    let mut enc = flate2::write::GzEncoder::new(Vec::new(), flate2::Compression::default());
    std::io::Write::write_all(&mut enc, b.as_slice()).expect("writing to a Vec cannot fail");
    enc.finish().expect("writing to a Vec cannot fail")
}

/// Relies on flate2's `read::GzDecoder`: decompression is a function of the
/// input bytes alone, failing exactly where they do not form a valid stream.
#[verifier::external_body]
fn gunzip_bytes(b: &Vec<u8>) -> (r: Option<Vec<u8>>)
    ensures
        match r {
            Option::Some(v) => gunzip_of(b@) == Option::Some(v@),
            Option::None => gunzip_of(b@) is None,
        },
{
    let mut dec = flate2::read::GzDecoder::new(b.as_slice());
    let mut out = Vec::new();
    match std::io::Read::read_to_end(&mut dec, &mut out) {
        Ok(_) => Some(out),
        Err(_) => None,
    }
}

/// The decoded meaning of one on-disk artifact: decompress, then unframe.
pub open spec fn spec_decode_state(b: Seq<u8>) -> Option<BrokerStateView> {
    match gunzip_of(b) {
        Option::Some(v) => spec_decode(v),
        Option::None => Option::None,
    }
}

/// Encodes a broker state into the bytes of one on-disk artifact.
pub fn encode_state(s: &BrokerState) -> (r: Vec<u8>)
    ensures
        gunzip_of(r@) == Option::Some(spec_encode(s@)),
        spec_decode_state(r@) == Option::Some(s@),
{
    let framed = encode_frame(s);
    let out = gzip_bytes(&framed);
    proof {
        lemma_frame_round_trip(s@);
    }
    out
}

/// Decodes the bytes of one on-disk artifact back into a broker state.
pub fn decode_state(b: &Vec<u8>) -> (r: Option<BrokerState>)
    ensures
        match r {
            Option::Some(s) => spec_decode_state(b@) == Option::Some(s@),
            Option::None => spec_decode_state(b@) is None,
        },
{
    match gunzip_bytes(b) {
        Option::Some(v) => decode_frame(&v),
        Option::None => Option::None,
    }
}

/// Round-trip law: any artifact holding the encoding of a state decodes back
/// to that state.
pub proof fn lemma_codec_round_trip(s: BrokerStateView, b: Seq<u8>)
    requires
        s.sessions.len() < 0x1_0000_0000_0000_0000,
        s.retained.len() < 0x1_0000_0000_0000_0000,
        gunzip_of(b) == Option::Some(spec_encode(s)),
    ensures
        spec_decode_state(b) == Option::Some(s),
{
    lemma_frame_round_trip(s);
}

} // verus!
