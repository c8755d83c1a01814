//! Byte-level archive codec: encoding specifications and verified
//! encoders and decoders for every model type.
//!
//! Every decoder carries the same pair of guarantees. Soundness: when it
//! returns a value, the bytes it consumed are exactly that value's
//! encoding. Completeness: when the bytes at the current position begin
//! with the encoding of some value, the decoder returns that value and
//! stops right after it. Together they make each encoding unambiguous.

use vstd::prelude::*;
use crate::model::{ContentSource, ContentSourceV, Doc, DocV, Docs, FilePosition, FilePositionV, Meta, MetaV, PositionType, PrimopMeta, PrimopMetaV, SourceOrigin, SourceOriginV};

verus! {

/// The suffix of `b` that starts at `pos`.
pub open spec fn at(b: Seq<u8>, pos: int) -> Seq<u8> {
    b.subrange(pos, b.len() as int)
}

pub proof fn lemma_at_skip(b: Seq<u8>, pos: int, k: int)
    requires
        0 <= pos,
        0 <= k,
        pos + k <= b.len(),
    ensures
        at(b, pos).skip(k) == at(b, pos + k),
{
    assert(at(b, pos).skip(k) =~= at(b, pos + k));
}

/// A concatenation is a prefix of `rem` exactly when its first part is,
/// and its second part is a prefix of what follows the first.
pub proof fn lemma_prefix_split(e1: Seq<u8>, e2: Seq<u8>, rem: Seq<u8>)
    ensures
        (e1 + e2).is_prefix_of(rem) <==> (e1.is_prefix_of(rem) && e2.is_prefix_of(
            rem.skip(e1.len() as int),
        )),
{
    if (e1 + e2).is_prefix_of(rem) {
        assert(e1 =~= rem.subrange(0, e1.len() as int));
        assert forall|i: int| 0 <= i < e2.len() implies e2[i] == rem.skip(
            e1.len() as int,
        ).subrange(0, e2.len() as int)[i] by {
            assert((e1 + e2)[e1.len() + i] == e2[i]);
        }
        assert(e2 =~= rem.skip(e1.len() as int).subrange(0, e2.len() as int));
    }
    if e1.is_prefix_of(rem) && e2.is_prefix_of(rem.skip(e1.len() as int)) {
        assert((e1 + e2) =~= rem.subrange(0, e1.len() + e2.len() as int));
    }
}

/// A prefix of the suffix at `pos` is the subrange that starts at `pos`.
pub proof fn lemma_prefix_subrange(e: Seq<u8>, b: Seq<u8>, pos: int)
    requires
        0 <= pos <= b.len(),
        e.is_prefix_of(at(b, pos)),
    ensures
        pos + e.len() <= b.len(),
        b.subrange(pos, pos + e.len()) == e,
{
    assert(b.subrange(pos, pos + e.len()) =~= e);
}

pub proof fn lemma_subrange_prefix(e: Seq<u8>, b: Seq<u8>, pos: int)
    requires
        0 <= pos,
        pos + e.len() <= b.len(),
        b.subrange(pos, pos + e.len()) == e,
    ensures
        e.is_prefix_of(at(b, pos)),
{
    assert(e =~= at(b, pos).subrange(0, e.len() as int));
}

// ---------------------------------------------------------------------
// Single bytes
// ---------------------------------------------------------------------
pub open spec fn enc_u8(x: u8) -> Seq<u8> {
    seq![x]
}

pub fn push_u8(out: &mut Vec<u8>, x: u8)
    ensures
        final(out)@ == old(out)@ + enc_u8(x),
{
    out.push(x);
    proof {
        assert(out@ =~= old(out)@ + enc_u8(x));
    }
}

pub fn dec_u8(buf: &Vec<u8>, pos: usize) -> (r: Option<(u8, usize)>)
    requires
        pos <= buf@.len(),
    ensures
        r matches Some(p) ==> p.1 == pos + 1 && p.1 <= buf@.len() && enc_u8(p.0).is_prefix_of(
            at(buf@, pos as int),
        ),
        forall|v: u8|
            enc_u8(v).is_prefix_of(at(buf@, pos as int)) ==> (r matches Some(p) && p.0 == v
                && p.1 == pos + 1),
{
    if buf.len() - pos >= 1 {
        let b = buf[pos];
        proof {
            assert(enc_u8(b) =~= at(buf@, pos as int).subrange(0, 1));
            assert forall|v: u8| enc_u8(v).is_prefix_of(at(buf@, pos as int)) implies v == b by {
                assert(enc_u8(v)[0] == at(buf@, pos as int).subrange(0, 1)[0]);
            }
        }
        Some((b, pos + 1))
    } else {
        proof {
            assert forall|v: u8| !enc_u8(v).is_prefix_of(at(buf@, pos as int)) by {
                assert(at(buf@, pos as int).len() == 0);
            }
        }
        None
    }
}

// ---------------------------------------------------------------------
// 64-bit words, least significant byte first
// ---------------------------------------------------------------------
pub open spec fn enc_u64(x: u64) -> Seq<u8> {
    seq![
        (x & 0xff) as u8,
        ((x >> 8) & 0xff) as u8,
        ((x >> 16) & 0xff) as u8,
        ((x >> 24) & 0xff) as u8,
        ((x >> 32) & 0xff) as u8,
        ((x >> 40) & 0xff) as u8,
        ((x >> 48) & 0xff) as u8,
        ((x >> 56) & 0xff) as u8,
    ]
}

proof fn lemma_u64_combine_enc(x: u64)
    ensures
        ((x & 0xff) | (((x >> 8) & 0xff) << 8) | (((x >> 16) & 0xff) << 16) | (((x >> 24) & 0xff)
            << 24) | (((x >> 32) & 0xff) << 32) | (((x >> 40) & 0xff) << 40) | (((x >> 48) & 0xff)
            << 48) | (((x >> 56) & 0xff) << 56)) == x,
{
    assert(((x & 0xff) | (((x >> 8) & 0xff) << 8) | (((x >> 16) & 0xff) << 16) | (((x >> 24)
        & 0xff) << 24) | (((x >> 32) & 0xff) << 32) | (((x >> 40) & 0xff) << 40) | (((x >> 48)
        & 0xff) << 48) | (((x >> 56) & 0xff) << 56)) == x) by (bit_vector);
}

proof fn lemma_u64_byte_bounds(x: u64)
    ensures
        x & 0xff < 256,
        (x >> 8) & 0xff < 256,
        (x >> 16) & 0xff < 256,
        (x >> 24) & 0xff < 256,
        (x >> 32) & 0xff < 256,
        (x >> 40) & 0xff < 256,
        (x >> 48) & 0xff < 256,
        (x >> 56) & 0xff < 256,
{
    assert(x & 0xff < 256 && (x >> 8) & 0xff < 256 && (x >> 16) & 0xff < 256 && (x >> 24) & 0xff
        < 256 && (x >> 32) & 0xff < 256 && (x >> 40) & 0xff < 256 && (x >> 48) & 0xff < 256 && (x
        >> 56) & 0xff < 256) by (bit_vector);
}

pub fn push_u64(out: &mut Vec<u8>, x: u64)
    ensures
        final(out)@ == old(out)@ + enc_u64(x),
{
    out.push((x & 0xff) as u8);
    out.push(((x >> 8) & 0xff) as u8);
    out.push(((x >> 16) & 0xff) as u8);
    out.push(((x >> 24) & 0xff) as u8);
    out.push(((x >> 32) & 0xff) as u8);
    out.push(((x >> 40) & 0xff) as u8);
    out.push(((x >> 48) & 0xff) as u8);
    out.push(((x >> 56) & 0xff) as u8);
    proof {
        assert(out@ =~= old(out)@ + enc_u64(x));
    }
}

pub fn dec_u64(buf: &Vec<u8>, pos: usize) -> (r: Option<(u64, usize)>)
    requires
        pos <= buf@.len(),
    ensures
        r matches Some(p) ==> p.1 == pos + 8 && p.1 <= buf@.len() && enc_u64(p.0).is_prefix_of(
            at(buf@, pos as int),
        ),
        forall|v: u64|
            enc_u64(v).is_prefix_of(at(buf@, pos as int)) ==> (r matches Some(p) && p.0 == v
                && p.1 == pos + 8),
{
    if buf.len() - pos >= 8 {
        let b0 = buf[pos];
        let b1 = buf[pos + 1];
        let b2 = buf[pos + 2];
        let b3 = buf[pos + 3];
        let b4 = buf[pos + 4];
        let b5 = buf[pos + 5];
        let b6 = buf[pos + 6];
        let b7 = buf[pos + 7];
        let v: u64 = (b0 as u64) | ((b1 as u64) << 8) | ((b2 as u64) << 16) | ((b3 as u64) << 24)
            | ((b4 as u64) << 32) | ((b5 as u64) << 40) | ((b6 as u64) << 48) | ((b7 as u64)
            << 56);
        proof {
            let c0 = b0 as u64;
            let c1 = b1 as u64;
            let c2 = b2 as u64;
            let c3 = b3 as u64;
            let c4 = b4 as u64;
            let c5 = b5 as u64;
            let c6 = b6 as u64;
            let c7 = b7 as u64;
            assert((c0 < 256 && c1 < 256 && c2 < 256 && c3 < 256 && c4 < 256 && c5 < 256 && c6
                < 256 && c7 < 256) ==> {
                let w = c0 | (c1 << 8) | (c2 << 16) | (c3 << 24) | (c4 << 32) | (c5 << 40) | (c6
                    << 48) | (c7 << 56);
                (w & 0xff) == c0 && ((w >> 8) & 0xff) == c1 && ((w >> 16) & 0xff) == c2 && ((w
                    >> 24) & 0xff) == c3 && ((w >> 32) & 0xff) == c4 && ((w >> 40) & 0xff) == c5
                    && ((w >> 48) & 0xff) == c6 && ((w >> 56) & 0xff) == c7
            }) by (bit_vector);
            assert(enc_u64(v) =~= buf@.subrange(pos as int, pos + 8));
            lemma_subrange_prefix(enc_u64(v), buf@, pos as int);
            assert forall|w: u64| enc_u64(w).is_prefix_of(at(buf@, pos as int)) implies w == v by {
                lemma_prefix_subrange(enc_u64(w), buf@, pos as int);
                assert(enc_u64(w)[0] == buf@.subrange(pos as int, pos + 8)[0]);
                assert(enc_u64(w)[1] == buf@.subrange(pos as int, pos + 8)[1]);
                assert(enc_u64(w)[2] == buf@.subrange(pos as int, pos + 8)[2]);
                assert(enc_u64(w)[3] == buf@.subrange(pos as int, pos + 8)[3]);
                assert(enc_u64(w)[4] == buf@.subrange(pos as int, pos + 8)[4]);
                assert(enc_u64(w)[5] == buf@.subrange(pos as int, pos + 8)[5]);
                assert(enc_u64(w)[6] == buf@.subrange(pos as int, pos + 8)[6]);
                assert(enc_u64(w)[7] == buf@.subrange(pos as int, pos + 8)[7]);
                lemma_u64_byte_bounds(w);
                lemma_u64_combine_enc(w);
            }
        }
        Some((v, pos + 8))
    } else {
        proof {
            assert forall|v: u64| !enc_u64(v).is_prefix_of(at(buf@, pos as int)) by {
                assert(at(buf@, pos as int).len() < 8);
            }
        }
        None
    }
}

// ---------------------------------------------------------------------
// Booleans
// ---------------------------------------------------------------------
pub open spec fn enc_bool(v: bool) -> Seq<u8> {
    if v {
        seq![1u8]
    } else {
        seq![0u8]
    }
}

pub fn push_bool(out: &mut Vec<u8>, v: bool)
    ensures
        final(out)@ == old(out)@ + enc_bool(v),
{
    if v {
        push_u8(out, 1);
    } else {
        push_u8(out, 0);
    }
    proof {
        assert(out@ =~= old(out)@ + enc_bool(v));
    }
}

pub fn dec_bool(buf: &Vec<u8>, pos: usize) -> (r: Option<(bool, usize)>)
    requires
        pos <= buf@.len(),
    ensures
        r matches Some(p) ==> p.1 == pos + 1 && p.1 <= buf@.len() && enc_bool(p.0).is_prefix_of(
            at(buf@, pos as int),
        ),
        forall|v: bool|
            enc_bool(v).is_prefix_of(at(buf@, pos as int)) ==> (r matches Some(p) && p.0 == v
                && p.1 == pos + 1),
{
    match dec_u8(buf, pos) {
        Some((t, p)) => {
            if t == 0 {
                proof {
                    assert(enc_bool(false) =~= enc_u8(0u8));
                    assert(enc_bool(true) =~= enc_u8(1u8));
                }
                Some((false, p))
            } else if t == 1 {
                proof {
                    assert(enc_bool(false) =~= enc_u8(0u8));
                    assert(enc_bool(true) =~= enc_u8(1u8));
                }
                Some((true, p))
            } else {
                proof {
                    assert forall|v: bool| !enc_bool(v).is_prefix_of(at(buf@, pos as int)) by {
                        if enc_bool(v).is_prefix_of(at(buf@, pos as int)) {
                            assert(enc_u8(if v { 1u8 } else { 0u8 }) =~= enc_bool(v));
                        }
                    }
                }
                None
            }
        },
        None => {
            proof {
                assert forall|v: bool| !enc_bool(v).is_prefix_of(at(buf@, pos as int)) by {
                    if enc_bool(v).is_prefix_of(at(buf@, pos as int)) {
                        assert(enc_u8(if v { 1u8 } else { 0u8 }) =~= enc_bool(v));
                    }
                }
            }
            None
        },
    }
}

// ---------------------------------------------------------------------
// Signed integers: a sign byte, then the magnitude. A negative x is
// stored as -(x + 1), which always fits in a u64.
// ---------------------------------------------------------------------
pub open spec fn enc_i64(x: i64) -> Seq<u8> {
    if x >= 0 {
        seq![0u8] + enc_u64(x as u64)
    } else {
        seq![1u8] + enc_u64((-(x + 1)) as u64)
    }
}

pub fn push_i64(out: &mut Vec<u8>, x: i64)
    ensures
        final(out)@ == old(out)@ + enc_i64(x),
{
    if x >= 0 {
        push_u8(out, 0);
        push_u64(out, x as u64);
    } else {
        push_u8(out, 1);
        push_u64(out, (-(x + 1)) as u64);
    }
    proof {
        assert(out@ =~= old(out)@ + enc_i64(x));
    }
}

pub fn dec_i64(buf: &Vec<u8>, pos: usize) -> (r: Option<(i64, usize)>)
    requires
        pos <= buf@.len(),
    ensures
        r matches Some(p) ==> p.1 == pos + 9 && p.1 <= buf@.len() && enc_i64(p.0).is_prefix_of(
            at(buf@, pos as int),
        ),
        forall|v: i64|
            enc_i64(v).is_prefix_of(at(buf@, pos as int)) ==> (r matches Some(p) && p.0 == v
                && p.1 == pos + 9),
{
    proof {
        assert forall|v: i64| enc_i64(v).is_prefix_of(at(buf@, pos as int)) implies (enc_u8(
            if v >= 0 {
                0u8
            } else {
                1u8
            },
        ).is_prefix_of(at(buf@, pos as int)) && enc_u64(
            if v >= 0 {
                v as u64
            } else {
                (-(v + 1)) as u64
            },
        ).is_prefix_of(at(buf@, pos as int).skip(1))) by {
            let e2 = enc_u64(
                if v >= 0 {
                    v as u64
                } else {
                    (-(v + 1)) as u64
                },
            );
            let e1 = enc_u8(
                if v >= 0 {
                    0u8
                } else {
                    1u8
                },
            );
            assert(enc_i64(v) =~= e1 + e2);
            lemma_prefix_split(e1, e2, at(buf@, pos as int));
        }
    }
    match dec_u8(buf, pos) {
        Some((tag, p1)) => {
            proof {
                lemma_at_skip(buf@, pos as int, 1);
            }
            if tag == 0 {
                match dec_u64(buf, p1) {
                    Some((m, p2)) => {
                        if m <= (i64::MAX as u64) {
                            proof {
                                assert(enc_i64(m as i64) =~= enc_u8(0u8) + enc_u64(m));
                                lemma_prefix_split(enc_u8(0u8), enc_u64(m), at(buf@, pos as int));
                            }
                            Some((m as i64, p2))
                        } else {
                            None
                        }
                    },
                    None => None,
                }
            } else if tag == 1 {
                match dec_u64(buf, p1) {
                    Some((m, p2)) => {
                        if m <= (i64::MAX as u64) {
                            let x: i64 = -1 - (m as i64);
                            proof {
                                assert(x < 0 && (-(x + 1)) as u64 == m);
                                assert(enc_i64(x) =~= enc_u8(1u8) + enc_u64(m));
                                lemma_prefix_split(enc_u8(1u8), enc_u64(m), at(buf@, pos as int));
                            }
                            Some((x, p2))
                        } else {
                            None
                        }
                    },
                    None => None,
                }
            } else {
                None
            }
        },
        None => None,
    }
}

pub open spec fn enc_i32(x: i32) -> Seq<u8> {
    enc_i64(x as i64)
}

pub fn push_i32(out: &mut Vec<u8>, x: i32)
    ensures
        final(out)@ == old(out)@ + enc_i32(x),
{
    push_i64(out, x as i64);
}

pub fn dec_i32(buf: &Vec<u8>, pos: usize) -> (r: Option<(i32, usize)>)
    requires
        pos <= buf@.len(),
    ensures
        r matches Some(p) ==> p.1 == pos + 9 && p.1 <= buf@.len() && enc_i32(p.0).is_prefix_of(
            at(buf@, pos as int),
        ),
        forall|v: i32|
            enc_i32(v).is_prefix_of(at(buf@, pos as int)) ==> (r matches Some(p) && p.0 == v
                && p.1 == pos + 9),
{
    match dec_i64(buf, pos) {
        Some((x, p)) => {
            if i32::MIN as i64 <= x && x <= i32::MAX as i64 {
                Some((x as i32, p))
            } else {
                None
            }
        },
        None => None,
    }
}

// ---------------------------------------------------------------------
// Strings: the UTF-8 byte length, then the UTF-8 bytes.
// ---------------------------------------------------------------------
pub open spec fn enc_str(s: Seq<char>) -> Seq<u8> {
    enc_u64(vstd::utf8::encode_utf8(s).len() as u64) + vstd::utf8::encode_utf8(s)
}

/// Relies on std's str::from_utf8: it returns Ok exactly when the bytes
/// are valid UTF-8, and then the returned slice is those bytes decoded.
#[verifier::external_body]
fn utf8_to_str(bytes: &[u8]) -> (r: Option<&str>)
    ensures
        r is Some <==> vstd::utf8::valid_utf8(bytes@),
        r matches Some(s) ==> s@ == vstd::utf8::decode_utf8(bytes@),
{
    core::str::from_utf8(bytes).ok()
}

pub fn push_str(out: &mut Vec<u8>, s: &str)
    ensures
        final(out)@ == old(out)@ + enc_str(s@),
{
    let bytes = s.as_bytes();
    let n = bytes.len();
    push_u64(out, n as u64);
    let mut i: usize = 0;
    while i < n
        invariant
            n == bytes@.len(),
            bytes@ == vstd::utf8::encode_utf8(s@),
            i <= n,
            out@ == old(out)@ + enc_u64(n as u64) + bytes@.subrange(0, i as int),
        decreases n - i,
    {
        let b = bytes[i];
        out.push(b);
        proof {
            assert(out@ =~= old(out)@ + enc_u64(n as u64) + bytes@.subrange(0, i + 1));
        }
        i = i + 1;
    }
    proof {
        assert(bytes@.subrange(0, n as int) =~= bytes@);
        assert(out@ =~= old(out)@ + enc_str(s@));
    }
}

pub fn dec_str(buf: &Vec<u8>, pos: usize) -> (r: Option<(String, usize)>)
    requires
        pos <= buf@.len(),
    ensures
        r matches Some(p) ==> pos <= p.1 <= buf@.len() && p.1 == pos + enc_str(p.0@).len()
            && enc_str(p.0@).is_prefix_of(at(buf@, pos as int)),
        forall|v: Seq<char>|
            enc_str(v).is_prefix_of(at(buf@, pos as int)) ==> (r matches Some(p) && p.0@ == v
                && p.1 == pos + enc_str(v).len()),
{
    let blen = buf.len();
    proof {
        assert forall|v: Seq<char>| enc_str(v).is_prefix_of(at(buf@, pos as int)) implies (enc_u64(
            vstd::utf8::encode_utf8(v).len() as u64,
        ).is_prefix_of(at(buf@, pos as int)) && vstd::utf8::encode_utf8(v).is_prefix_of(
            at(buf@, pos as int).skip(8),
        )) by {
            lemma_prefix_split(
                enc_u64(vstd::utf8::encode_utf8(v).len() as u64),
                vstd::utf8::encode_utf8(v),
                at(buf@, pos as int),
            );
        }
    }
    match dec_u64(buf, pos) {
        Some((n, p1)) => {
            proof {
                lemma_at_skip(buf@, pos as int, 8);
            }
            if n <= (blen - p1) as u64 {
                let m = n as usize;
                let slice = vstd::slice::slice_subrange(buf.as_slice(), p1, p1 + m);
                match utf8_to_str(slice) {
                    Some(s) => {
                        let owned = s.to_owned();
                        proof {
                            vstd::utf8::decode_utf8_encode_utf8(slice@);
                            assert(vstd::utf8::encode_utf8(owned@) == slice@);
                            assert(enc_str(owned@) =~= enc_u64(n) + slice@);
                            lemma_subrange_prefix(slice@, buf@, p1 as int);
                            lemma_prefix_split(enc_u64(n), slice@, at(buf@, pos as int));
                            assert forall|v: Seq<char>|
                                enc_str(v).is_prefix_of(at(buf@, pos as int)) implies v
                                == owned@ by {
                                let ev = vstd::utf8::encode_utf8(v);
                                assert(ev.len() as u64 == n && ev.len() < 0x1_0000_0000_0000_0000);
                                assert(ev.is_prefix_of(at(buf@, p1 as int)));
                                lemma_prefix_subrange(ev, buf@, p1 as int);
                                assert(ev =~= slice@);
                                vstd::utf8::encode_utf8_decode_utf8(v);
                            }
                        }
                        Some((owned, p1 + m))
                    },
                    None => {
                        proof {
                            assert forall|v: Seq<char>|
                                !enc_str(v).is_prefix_of(at(buf@, pos as int)) by {
                                if enc_str(v).is_prefix_of(at(buf@, pos as int)) {
                                    let ev = vstd::utf8::encode_utf8(v);
                                    assert(ev.len() as u64 == n && ev.len()
                                        < 0x1_0000_0000_0000_0000);
                                    lemma_prefix_subrange(ev, buf@, p1 as int);
                                    assert(ev =~= slice@);
                                    vstd::utf8::encode_utf8_valid_utf8(v);
                                }
                            }
                        }
                        None
                    },
                }
            } else {
                proof {
                    assert forall|v: Seq<char>|
                        !enc_str(v).is_prefix_of(at(buf@, pos as int)) by {
                        if enc_str(v).is_prefix_of(at(buf@, pos as int)) {
                            let ev = vstd::utf8::encode_utf8(v);
                            assert(ev.len() as u64 == n && ev.len() < 0x1_0000_0000_0000_0000);
                            assert(ev.is_prefix_of(at(buf@, p1 as int)));
                            assert(ev.len() <= at(buf@, p1 as int).len());
                        }
                    }
                }
                None
            }
        },
        None => None,
    }
}


pub proof fn lemma_subrange_concat(b: Seq<u8>, x: int, y: int, z: int)
    requires
        0 <= x <= y <= z <= b.len(),
    ensures
        b.subrange(x, z) == b.subrange(x, y) + b.subrange(y, z),
{
    assert(b.subrange(x, z) =~= b.subrange(x, y) + b.subrange(y, z));
}

pub proof fn lemma_concat_assoc(a: Seq<u8>, b: Seq<u8>, c: Seq<u8>)
    ensures
        (a + b) + c == a + (b + c),
{
    assert((a + b) + c =~= a + (b + c));
}

// ---------------------------------------------------------------------
// Sequences of strings: the element count, then each element.
// ---------------------------------------------------------------------
pub open spec fn enc_strs(v: Seq<Seq<char>>) -> Seq<u8>
    decreases v.len(),
{
    if v.len() == 0 {
        Seq::empty()
    } else {
        enc_str(v[0]) + enc_strs(v.drop_first())
    }
}

pub open spec fn enc_path(v: Seq<Seq<char>>) -> Seq<u8> {
    enc_u64(v.len() as u64) + enc_strs(v)
}

pub proof fn lemma_enc_strs_push(v: Seq<Seq<char>>, x: Seq<char>)
    ensures
        enc_strs(v.push(x)) == enc_strs(v) + enc_str(x),
    decreases v.len(),
{
    if v.len() == 0 {
        let w = v.push(x);
        assert(w[0] == x);
        assert(w.drop_first() =~= Seq::<Seq<char>>::empty());
        assert(enc_strs(w.drop_first()) == Seq::<u8>::empty());
        assert(enc_strs(w) == enc_str(x) + enc_strs(w.drop_first()));
        assert(enc_strs(v) == Seq::<u8>::empty());
        assert(enc_strs(v.push(x)) =~= enc_strs(v) + enc_str(x));
    } else {
        assert(v.push(x).drop_first() =~= v.drop_first().push(x));
        lemma_enc_strs_push(v.drop_first(), x);
        assert(v.push(x)[0] == v[0]);
        assert(enc_strs(v.push(x)) =~= enc_strs(v) + enc_str(x));
    }
}

pub proof fn lemma_enc_strs_len(v: Seq<Seq<char>>)
    ensures
        enc_strs(v).len() >= 8 * v.len(),
    decreases v.len(),
{
    if v.len() > 0 {
        lemma_enc_strs_len(v.drop_first());
    }
}

pub fn push_path(out: &mut Vec<u8>, v: &Vec<String>)
    ensures
        final(out)@ == old(out)@ + enc_path(v.deep_view()),
{
    let n = v.len();
    push_u64(out, n as u64);
    let mut i: usize = 0;
    while i < n
        invariant
            n == v@.len(),
            i <= n,
            out@ == old(out)@ + enc_u64(n as u64) + enc_strs(v.deep_view().take(i as int)),
        decreases n - i,
    {
        push_str(out, v[i].as_str());
        proof {
            let d = v.deep_view();
            assert(d.take(i + 1) =~= d.take(i as int).push(d[i as int]));
            lemma_enc_strs_push(d.take(i as int), d[i as int]);
            assert(d[i as int] == v@[i as int].deep_view());
            assert(out@ =~= old(out)@ + enc_u64(n as u64) + enc_strs(d.take(i + 1)));
        }
        i = i + 1;
    }
    proof {
        assert(v.deep_view().take(n as int) =~= v.deep_view());
        assert(out@ =~= old(out)@ + enc_path(v.deep_view()));
    }
}

pub fn dec_path(buf: &Vec<u8>, pos: usize) -> (r: Option<(Vec<String>, usize)>)
    requires
        pos <= buf@.len(),
    ensures
        r matches Some(p) ==> pos <= p.1 <= buf@.len() && p.1 == pos + enc_path(
            p.0.deep_view(),
        ).len() && enc_path(p.0.deep_view()).is_prefix_of(at(buf@, pos as int)),
        forall|v: Seq<Seq<char>>|
            enc_path(v).is_prefix_of(at(buf@, pos as int)) ==> (r matches Some(p)
                && p.0.deep_view() == v && p.1 == pos + enc_path(v).len()),
{
    let blen = buf.len();
    proof {
        assert forall|v: Seq<Seq<char>>|
            enc_path(v).is_prefix_of(at(buf@, pos as int)) implies (enc_u64(
            v.len() as u64,
        ).is_prefix_of(at(buf@, pos as int)) && enc_strs(v).is_prefix_of(
            at(buf@, pos as int).skip(8),
        ) && v.len() < 0x1_0000_0000_0000_0000) by {
            lemma_prefix_split(enc_u64(v.len() as u64), enc_strs(v), at(buf@, pos as int));
            lemma_enc_strs_len(v);
        }
    }
    match dec_u64(buf, pos) {
        None => None,
        Some((n, p1)) => {
            proof {
                lemma_at_skip(buf@, pos as int, 8);
            }
            let mut acc: Vec<String> = Vec::new();
            let mut cur: usize = p1;
            let mut i: u64 = 0;
            proof {
                assert(acc.deep_view() =~= Seq::<Seq<char>>::empty());
                assert(buf@.subrange(p1 as int, p1 as int) =~= Seq::<u8>::empty());
                assert(enc_strs(acc.deep_view()) == Seq::<u8>::empty());
                assert forall|v: Seq<Seq<char>>| #![trigger enc_path(v).is_prefix_of(at(buf@, pos as int))]
                    enc_path(v).is_prefix_of(at(buf@, pos as int)) implies v.len() == n as nat
                        && v.take(0) == acc.deep_view() && enc_strs(v.skip(0)).is_prefix_of(
                        at(buf@, p1 as int),
                    ) by {
                    assert(v.skip(0) =~= v);
                    assert(v.take(0) =~= acc.deep_view());
                }
            }
            while i < n
                invariant
                    p1 == pos + 8,
                    pos + 8 <= blen,
                    blen == buf@.len(),
                    p1 <= cur <= blen,
                    i <= n,
                    pos <= buf@.len(),
                    acc.deep_view().len() == i as nat,
                    buf@.subrange(p1 as int, cur as int) == enc_strs(acc.deep_view()),
                    forall|v: Seq<Seq<char>>| #![trigger enc_path(v).is_prefix_of(at(buf@, pos as int))]
                        enc_path(v).is_prefix_of(at(buf@, pos as int)) ==> v.len() == n as nat
                            && v.take(i as int) == acc.deep_view() && enc_strs(
                            v.skip(i as int),
                        ).is_prefix_of(at(buf@, cur as int)),
                decreases n - i,
            {
                proof {
                    assert forall|v: Seq<Seq<char>>|
                        enc_path(v).is_prefix_of(at(buf@, pos as int)) implies enc_str(
                        v[i as int],
                    ).is_prefix_of(at(buf@, cur as int)) by {
                        let rest = v.skip(i as int);
                        assert(rest.len() > 0);
                        assert(rest[0] == v[i as int]);
                        lemma_prefix_split(
                            enc_str(rest[0]),
                            enc_strs(rest.drop_first()),
                            at(buf@, cur as int),
                        );
                    }
                }
                match dec_str(buf, cur) {
                    None => {
                        return None;
                    },
                    Some((s, p2)) => {
                        proof {
                            let accd = acc.deep_view();
                            lemma_prefix_subrange(enc_str(s@), buf@, cur as int);
                            lemma_subrange_concat(buf@, p1 as int, cur as int, p2 as int);
                            lemma_enc_strs_push(accd, s@);
                            assert forall|v: Seq<Seq<char>>|
                                enc_path(v).is_prefix_of(at(buf@, pos as int)) implies v.take(
                                i + 1,
                            ) == accd.push(s@) && enc_strs(v.skip(i + 1)).is_prefix_of(
                                at(buf@, p2 as int),
                            ) by {
                                let rest = v.skip(i as int);
                                assert(rest[0] == v[i as int]);
                                lemma_prefix_split(
                                    enc_str(rest[0]),
                                    enc_strs(rest.drop_first()),
                                    at(buf@, cur as int),
                                );
                                assert(v[i as int] == s@);
                                assert(v.take(i + 1) =~= v.take(i as int).push(v[i as int]));
                                assert(rest.drop_first() =~= v.skip(i + 1));
                                lemma_at_skip(buf@, cur as int, enc_str(s@).len() as int);
                            }
                        }
                        let ghost pre = acc.deep_view();
                        let ghost sv = s@;
                        acc.push(s);
                        proof {
                            assert(acc.deep_view() =~= pre.push(sv));
                        }
                        cur = p2;
                        i = i + 1;
                    },
                }
            }
            proof {
                let accd = acc.deep_view();
                assert(accd.len() == n as nat);
                lemma_subrange_prefix(enc_strs(accd), buf@, p1 as int);
                lemma_subrange_concat(buf@, pos as int, p1 as int, cur as int);
                lemma_prefix_subrange(enc_u64(n), buf@, pos as int);
                assert(enc_path(accd) =~= enc_u64(n) + enc_strs(accd));
                lemma_subrange_prefix(enc_path(accd), buf@, pos as int);
                assert forall|v: Seq<Seq<char>>|
                    enc_path(v).is_prefix_of(at(buf@, pos as int)) implies v == accd by {
                    assert(v.take(i as int) =~= v);
                }
            }
            Some((acc, cur))
        },
    }
}


// ---------------------------------------------------------------------
// Sequences of paths: the element count, then each path.
// ---------------------------------------------------------------------
pub open spec fn enc_paths_elems(v: Seq<Seq<Seq<char>>>) -> Seq<u8>
    decreases v.len(),
{
    if v.len() == 0 {
        Seq::empty()
    } else {
        enc_path(v[0]) + enc_paths_elems(v.drop_first())
    }
}

pub open spec fn enc_paths(v: Seq<Seq<Seq<char>>>) -> Seq<u8> {
    enc_u64(v.len() as u64) + enc_paths_elems(v)
}

pub proof fn lemma_enc_paths_push(v: Seq<Seq<Seq<char>>>, x: Seq<Seq<char>>)
    ensures
        enc_paths_elems(v.push(x)) == enc_paths_elems(v) + enc_path(x),
    decreases v.len(),
{
    if v.len() == 0 {
        let w = v.push(x);
        assert(w[0] == x);
        assert(w.drop_first() =~= Seq::<Seq<Seq<char>>>::empty());
        assert(enc_paths_elems(w.drop_first()) == Seq::<u8>::empty());
        assert(enc_paths_elems(w) == enc_path(x) + enc_paths_elems(w.drop_first()));
        assert(enc_paths_elems(v) == Seq::<u8>::empty());
        assert(enc_paths_elems(v.push(x)) =~= enc_paths_elems(v) + enc_path(x));
    } else {
        assert(v.push(x).drop_first() =~= v.drop_first().push(x));
        lemma_enc_paths_push(v.drop_first(), x);
        assert(v.push(x)[0] == v[0]);
        assert(enc_paths_elems(v.push(x)) =~= enc_paths_elems(v) + enc_path(x));
    }
}

pub proof fn lemma_enc_paths_len(v: Seq<Seq<Seq<char>>>)
    ensures
        enc_paths_elems(v).len() >= 8 * v.len(),
    decreases v.len(),
{
    if v.len() > 0 {
        lemma_enc_paths_len(v.drop_first());
    }
}

pub fn push_paths(out: &mut Vec<u8>, v: &Vec<Vec<String>>)
    ensures
        final(out)@ == old(out)@ + enc_paths(v.deep_view()),
{
    let n = v.len();
    push_u64(out, n as u64);
    let mut i: usize = 0;
    while i < n
        invariant
            n == v@.len(),
            i <= n,
            out@ == old(out)@ + enc_u64(n as u64) + enc_paths_elems(v.deep_view().take(i as int)),
        decreases n - i,
    {
        push_path(out, &v[i]);
        proof {
            let d = v.deep_view();
            assert(d.take(i + 1) =~= d.take(i as int).push(d[i as int]));
            lemma_enc_paths_push(d.take(i as int), d[i as int]);
            assert(d[i as int] == v@[i as int].deep_view());
            assert(out@ =~= old(out)@ + enc_u64(n as u64) + enc_paths_elems(d.take(i + 1)));
        }
        i = i + 1;
    }
    proof {
        assert(v.deep_view().take(n as int) =~= v.deep_view());
        assert(out@ =~= old(out)@ + enc_paths(v.deep_view()));
    }
}

pub fn dec_paths(buf: &Vec<u8>, pos: usize) -> (r: Option<(Vec<Vec<String>>, usize)>)
    requires
        pos <= buf@.len(),
    ensures
        r matches Some(p) ==> pos <= p.1 <= buf@.len() && p.1 == pos + enc_paths(
            p.0.deep_view(),
        ).len() && enc_paths(p.0.deep_view()).is_prefix_of(at(buf@, pos as int)),
        forall|v: Seq<Seq<Seq<char>>>| #![trigger enc_paths(v).is_prefix_of(at(buf@, pos as int))]
            enc_paths(v).is_prefix_of(at(buf@, pos as int)) ==> (r matches Some(p)
                && p.0.deep_view() == v && p.1 == pos + enc_paths(v).len()),
{
    let blen = buf.len();
    proof {
        assert forall|v: Seq<Seq<Seq<char>>>|
            enc_paths(v).is_prefix_of(at(buf@, pos as int)) implies (enc_u64(
            v.len() as u64,
        ).is_prefix_of(at(buf@, pos as int)) && enc_paths_elems(v).is_prefix_of(
            at(buf@, pos as int).skip(8),
        ) && v.len() < 0x1_0000_0000_0000_0000) by {
            lemma_prefix_split(enc_u64(v.len() as u64), enc_paths_elems(v), at(buf@, pos as int));
            lemma_enc_paths_len(v);
        }
    }
    match dec_u64(buf, pos) {
        None => None,
        Some((n, p1)) => {
            proof {
                lemma_at_skip(buf@, pos as int, 8);
            }
            let mut acc: Vec<Vec<String>> = Vec::new();
            let mut cur: usize = p1;
            let mut i: u64 = 0;
            proof {
                assert(acc.deep_view() =~= Seq::<Seq<Seq<char>>>::empty());
                assert(buf@.subrange(p1 as int, p1 as int) =~= Seq::<u8>::empty());
                assert(enc_paths_elems(acc.deep_view()) == Seq::<u8>::empty());
                assert forall|v: Seq<Seq<Seq<char>>>| #![trigger enc_paths(v).is_prefix_of(at(buf@, pos as int))]
                    enc_paths(v).is_prefix_of(at(buf@, pos as int)) implies v.len() == n as nat
                        && v.take(0) == acc.deep_view() && enc_paths_elems(v.skip(0)).is_prefix_of(
                        at(buf@, p1 as int),
                    ) by {
                    assert(v.skip(0) =~= v);
                    assert(v.take(0) =~= acc.deep_view());
                }
            }
            while i < n
                invariant
                    p1 == pos + 8,
                    pos + 8 <= blen,
                    blen == buf@.len(),
                    p1 <= cur <= blen,
                    i <= n,
                    pos <= buf@.len(),
                    acc.deep_view().len() == i as nat,
                    buf@.subrange(p1 as int, cur as int) == enc_paths_elems(acc.deep_view()),
                    forall|v: Seq<Seq<Seq<char>>>| #![trigger enc_paths(v).is_prefix_of(at(buf@, pos as int))]
                        enc_paths(v).is_prefix_of(at(buf@, pos as int)) ==> v.len() == n as nat
                            && v.take(i as int) == acc.deep_view() && enc_paths_elems(
                            v.skip(i as int),
                        ).is_prefix_of(at(buf@, cur as int)),
                decreases n - i,
            {
                proof {
                    assert forall|v: Seq<Seq<Seq<char>>>|
                        enc_paths(v).is_prefix_of(at(buf@, pos as int)) implies enc_path(
                        v[i as int],
                    ).is_prefix_of(at(buf@, cur as int)) by {
                        let rest = v.skip(i as int);
                        assert(rest.len() > 0);
                        assert(rest[0] == v[i as int]);
                        lemma_prefix_split(
                            enc_path(rest[0]),
                            enc_paths_elems(rest.drop_first()),
                            at(buf@, cur as int),
                        );
                    }
                }
                match dec_path(buf, cur) {
                    None => {
                        return None;
                    },
                    Some((s, p2)) => {
                        proof {
                            let accd = acc.deep_view();
                            lemma_prefix_subrange(enc_path(s.deep_view()), buf@, cur as int);
                            lemma_subrange_concat(buf@, p1 as int, cur as int, p2 as int);
                            lemma_enc_paths_push(accd, s.deep_view());
                            assert forall|v: Seq<Seq<Seq<char>>>|
                                enc_paths(v).is_prefix_of(at(buf@, pos as int)) implies v.take(
                                i + 1,
                            ) == accd.push(s.deep_view()) && enc_paths_elems(
                                v.skip(i + 1),
                            ).is_prefix_of(at(buf@, p2 as int)) by {
                                let rest = v.skip(i as int);
                                assert(rest[0] == v[i as int]);
                                lemma_prefix_split(
                                    enc_path(rest[0]),
                                    enc_paths_elems(rest.drop_first()),
                                    at(buf@, cur as int),
                                );
                                assert(v[i as int] == s.deep_view());
                                assert(v.take(i + 1) =~= v.take(i as int).push(v[i as int]));
                                assert(rest.drop_first() =~= v.skip(i + 1));
                                lemma_at_skip(buf@, cur as int, enc_path(s.deep_view()).len() as int);
                            }
                        }
                        let ghost pre = acc.deep_view();
                        let ghost sv = s.deep_view();
                        acc.push(s);
                        proof {
                            assert(acc.deep_view() =~= pre.push(sv));
                        }
                        cur = p2;
                        i = i + 1;
                    },
                }
            }
            proof {
                let accd = acc.deep_view();
                assert(accd.len() == n as nat);
                lemma_subrange_prefix(enc_paths_elems(accd), buf@, p1 as int);
                lemma_subrange_concat(buf@, pos as int, p1 as int, cur as int);
                lemma_prefix_subrange(enc_u64(n), buf@, pos as int);
                assert(enc_paths(accd) =~= enc_u64(n) + enc_paths_elems(accd));
                lemma_subrange_prefix(enc_paths(accd), buf@, pos as int);
                assert forall|v: Seq<Seq<Seq<char>>>|
                    enc_paths(v).is_prefix_of(at(buf@, pos as int)) implies v == accd by {
                    assert(v.take(i as int) =~= v);
                }
            }
            Some((acc, cur))
        },
    }
}

// ---------------------------------------------------------------------
// Position kinds
// ---------------------------------------------------------------------
pub open spec fn enc_postype(v: PositionType) -> Seq<u8> {
    match v {
        PositionType::Lambda => seq![0u8],
        PositionType::Attribute => seq![1u8],
    }
}

pub fn push_postype(out: &mut Vec<u8>, v: PositionType)
    ensures
        final(out)@ == old(out)@ + enc_postype(v),
{
    match v {
        PositionType::Lambda => push_u8(out, 0),
        PositionType::Attribute => push_u8(out, 1),
    }
    proof {
        assert(out@ =~= old(out)@ + enc_postype(v));
    }
}

pub fn dec_postype(buf: &Vec<u8>, pos: usize) -> (r: Option<(PositionType, usize)>)
    requires
        pos <= buf@.len(),
    ensures
        r matches Some(p) ==> p.1 == pos + 1 && p.1 <= buf@.len() && enc_postype(
            p.0,
        ).is_prefix_of(at(buf@, pos as int)),
        forall|v: PositionType| #![trigger enc_postype(v).is_prefix_of(at(buf@, pos as int))]
            enc_postype(v).is_prefix_of(at(buf@, pos as int)) ==> (r matches Some(p) && p.0 == v
                && p.1 == pos + 1),
{
    proof {
        assert(enc_postype(PositionType::Lambda) =~= enc_u8(0u8));
        assert(enc_postype(PositionType::Attribute) =~= enc_u8(1u8));
    }
    match dec_u8(buf, pos) {
        Some((t, p)) => {
            if t == 0 {
                Some((PositionType::Lambda, p))
            } else if t == 1 {
                Some((PositionType::Attribute, p))
            } else {
                None
            }
        },
        None => None,
    }
}

// ---------------------------------------------------------------------
// File positions
// ---------------------------------------------------------------------
pub open spec fn enc_filepos(v: FilePositionV) -> Seq<u8> {
    enc_str(v.file) + (enc_i64(v.line) + enc_i64(v.column))
}

pub fn push_filepos(out: &mut Vec<u8>, v: &FilePosition)
    ensures
        final(out)@ == old(out)@ + enc_filepos(v.deep_view()),
{
    push_str(out, v.file.as_str());
    push_i64(out, v.line);
    push_i64(out, v.column);
    proof {
        assert(out@ =~= old(out)@ + enc_filepos(v.deep_view()));
    }
}

pub fn dec_filepos(buf: &Vec<u8>, pos: usize) -> (r: Option<(FilePosition, usize)>)
    requires
        pos <= buf@.len(),
    ensures
        r matches Some(p) ==> pos <= p.1 <= buf@.len() && p.1 == pos + enc_filepos(
            p.0.deep_view(),
        ).len() && enc_filepos(p.0.deep_view()).is_prefix_of(at(buf@, pos as int)),
        forall|v: FilePositionV| #![trigger enc_filepos(v).is_prefix_of(at(buf@, pos as int))]
            enc_filepos(v).is_prefix_of(at(buf@, pos as int)) ==> (r matches Some(p)
                && p.0.deep_view() == v && p.1 == pos + enc_filepos(v).len()),
{
    proof {
        assert forall|v: FilePositionV|
            enc_filepos(v).is_prefix_of(at(buf@, pos as int)) implies enc_str(
            v.file,
        ).is_prefix_of(at(buf@, pos as int)) by {
            lemma_prefix_split(
                enc_str(v.file),
                enc_i64(v.line) + enc_i64(v.column),
                at(buf@, pos as int),
            );
        }
    }
    match dec_str(buf, pos) {
        None => None,
        Some((file, p1)) => {
            proof {
                assert forall|v: FilePositionV|
                    enc_filepos(v).is_prefix_of(at(buf@, pos as int)) implies (v.file == file@
                        && enc_i64(v.line).is_prefix_of(at(buf@, p1 as int)) && enc_i64(
                        v.column,
                    ).is_prefix_of(at(buf@, p1 + 9))) by {
                    lemma_prefix_split(
                        enc_str(v.file),
                        enc_i64(v.line) + enc_i64(v.column),
                        at(buf@, pos as int),
                    );
                    lemma_at_skip(buf@, pos as int, enc_str(v.file).len() as int);
                    lemma_prefix_split(
                        enc_i64(v.line),
                        enc_i64(v.column),
                        at(buf@, p1 as int),
                    );
                    lemma_at_skip(buf@, p1 as int, 9);
                }
            }
            match dec_i64(buf, p1) {
                None => None,
                Some((line, p2)) => {
                    match dec_i64(buf, p2) {
                        None => None,
                        Some((column, p3)) => {
                            let fp = FilePosition { file, line, column };
                            proof {
                                lemma_prefix_subrange(enc_str(fp.file@), buf@, pos as int);
                                lemma_prefix_subrange(enc_i64(line), buf@, p1 as int);
                                lemma_prefix_subrange(enc_i64(column), buf@, p2 as int);
                                lemma_subrange_concat(buf@, p1 as int, p2 as int, p3 as int);
                                lemma_subrange_concat(buf@, pos as int, p1 as int, p3 as int);
                                assert(enc_filepos(fp.deep_view()) =~= buf@.subrange(
                                    pos as int,
                                    p3 as int,
                                ));
                                lemma_subrange_prefix(enc_filepos(fp.deep_view()), buf@, pos as int);
                            }
                            Some((fp, p3))
                        },
                    }
                },
            }
        },
    }
}

pub open spec fn enc_opt_str(o: Option<Seq<char>>) -> Seq<u8> {
    match o {
        None => seq![0u8],
        Some(v) => seq![1u8] + enc_str(v),
    }
}

pub fn push_opt_str(out: &mut Vec<u8>, o: &Option<String>)
    ensures
        final(out)@ == old(out)@ + enc_opt_str(o.deep_view()),
{
    match o {
        None => {
            push_u8(out, 0);
        },
        Some(v) => {
            push_u8(out, 1);
            push_str(out, v.as_str());
        },
    }
    proof {
        assert(out@ =~= old(out)@ + enc_opt_str(o.deep_view()));
    }
}

pub fn dec_opt_str(buf: &Vec<u8>, pos: usize) -> (r: Option<(Option<String>, usize)>)
    requires
        pos <= buf@.len(),
    ensures
        r matches Some(p) ==> pos < p.1 <= buf@.len() && p.1 == pos + enc_opt_str(
            p.0.deep_view(),
        ).len() && enc_opt_str(p.0.deep_view()).is_prefix_of(at(buf@, pos as int)),
        forall|v: Option<Seq<char>>| #![trigger enc_opt_str(v).is_prefix_of(at(buf@, pos as int))]
            enc_opt_str(v).is_prefix_of(at(buf@, pos as int)) ==> (r matches Some(p)
                && p.0.deep_view() == v && p.1 == pos + enc_opt_str(v).len()),
{
    proof {
        assert forall|v: Option<Seq<char>>| #![trigger enc_opt_str(v).is_prefix_of(at(buf@, pos as int))]
            enc_opt_str(v).is_prefix_of(at(buf@, pos as int)) implies ((v matches Some(w)
            ==> enc_u8(1u8).is_prefix_of(at(buf@, pos as int)) && enc_str(w).is_prefix_of(
            at(buf@, pos as int).skip(1),
        )) && (v is None ==> enc_u8(0u8).is_prefix_of(at(buf@, pos as int)))) by {
            match v {
                None => {
                    assert(enc_opt_str(v) =~= enc_u8(0u8));
                },
                Some(w) => {
                    assert(enc_opt_str(v) =~= enc_u8(1u8) + enc_str(w));
                    lemma_prefix_split(enc_u8(1u8), enc_str(w), at(buf@, pos as int));
                },
            }
        }
    }
    match dec_u8(buf, pos) {
        None => None,
        Some((tag, p1)) => {
            proof {
                lemma_at_skip(buf@, pos as int, 1);
            }
            if tag == 0 {
                proof {
                    assert(enc_opt_str(Option::<Seq<char>>::None) =~= enc_u8(0u8));
                }
                Some((None, p1))
            } else if tag == 1 {
                match dec_str(buf, p1) {
                    None => None,
                    Some((x, p2)) => {
                        proof {
                            assert(enc_opt_str(Some(x@)) =~= enc_u8(1u8) + enc_str(x@));
                            lemma_prefix_split(enc_u8(1u8), enc_str(x@), at(buf@, pos as int));
                        }
                        Some((Some(x), p2))
                    },
                }
            } else {
                None
            }
        },
    }
}


pub open spec fn enc_opt_bool(o: Option<bool>) -> Seq<u8> {
    match o {
        None => seq![0u8],
        Some(v) => seq![1u8] + enc_bool(v),
    }
}

pub fn push_opt_bool(out: &mut Vec<u8>, o: &Option<bool>)
    ensures
        final(out)@ == old(out)@ + enc_opt_bool(o.deep_view()),
{
    match o {
        None => {
            push_u8(out, 0);
        },
        Some(v) => {
            push_u8(out, 1);
            push_bool(out, *v);
        },
    }
    proof {
        assert(out@ =~= old(out)@ + enc_opt_bool(o.deep_view()));
    }
}

pub fn dec_opt_bool(buf: &Vec<u8>, pos: usize) -> (r: Option<(Option<bool>, usize)>)
    requires
        pos <= buf@.len(),
    ensures
        r matches Some(p) ==> pos < p.1 <= buf@.len() && p.1 == pos + enc_opt_bool(
            p.0.deep_view(),
        ).len() && enc_opt_bool(p.0.deep_view()).is_prefix_of(at(buf@, pos as int)),
        forall|v: Option<bool>| #![trigger enc_opt_bool(v).is_prefix_of(at(buf@, pos as int))]
            enc_opt_bool(v).is_prefix_of(at(buf@, pos as int)) ==> (r matches Some(p)
                && p.0.deep_view() == v && p.1 == pos + enc_opt_bool(v).len()),
{
    proof {
        assert forall|v: Option<bool>| #![trigger enc_opt_bool(v).is_prefix_of(at(buf@, pos as int))]
            enc_opt_bool(v).is_prefix_of(at(buf@, pos as int)) implies ((v matches Some(w)
            ==> enc_u8(1u8).is_prefix_of(at(buf@, pos as int)) && enc_bool(w).is_prefix_of(
            at(buf@, pos as int).skip(1),
        )) && (v is None ==> enc_u8(0u8).is_prefix_of(at(buf@, pos as int)))) by {
            match v {
                None => {
                    assert(enc_opt_bool(v) =~= enc_u8(0u8));
                },
                Some(w) => {
                    assert(enc_opt_bool(v) =~= enc_u8(1u8) + enc_bool(w));
                    lemma_prefix_split(enc_u8(1u8), enc_bool(w), at(buf@, pos as int));
                },
            }
        }
    }
    match dec_u8(buf, pos) {
        None => None,
        Some((tag, p1)) => {
            proof {
                lemma_at_skip(buf@, pos as int, 1);
            }
            if tag == 0 {
                proof {
                    assert(enc_opt_bool(Option::<bool>::None) =~= enc_u8(0u8));
                }
                Some((None, p1))
            } else if tag == 1 {
                match dec_bool(buf, p1) {
                    None => None,
                    Some((x, p2)) => {
                        proof {
                            assert(enc_opt_bool(Some(x)) =~= enc_u8(1u8) + enc_bool(x));
                            lemma_prefix_split(enc_u8(1u8), enc_bool(x), at(buf@, pos as int));
                        }
                        Some((Some(x), p2))
                    },
                }
            } else {
                None
            }
        },
    }
}


pub open spec fn enc_opt_i64(o: Option<i64>) -> Seq<u8> {
    match o {
        None => seq![0u8],
        Some(v) => seq![1u8] + enc_i64(v),
    }
}

pub fn push_opt_i64(out: &mut Vec<u8>, o: &Option<i64>)
    ensures
        final(out)@ == old(out)@ + enc_opt_i64(o.deep_view()),
{
    match o {
        None => {
            push_u8(out, 0);
        },
        Some(v) => {
            push_u8(out, 1);
            push_i64(out, *v);
        },
    }
    proof {
        assert(out@ =~= old(out)@ + enc_opt_i64(o.deep_view()));
    }
}

pub fn dec_opt_i64(buf: &Vec<u8>, pos: usize) -> (r: Option<(Option<i64>, usize)>)
    requires
        pos <= buf@.len(),
    ensures
        r matches Some(p) ==> pos < p.1 <= buf@.len() && p.1 == pos + enc_opt_i64(
            p.0.deep_view(),
        ).len() && enc_opt_i64(p.0.deep_view()).is_prefix_of(at(buf@, pos as int)),
        forall|v: Option<i64>| #![trigger enc_opt_i64(v).is_prefix_of(at(buf@, pos as int))]
            enc_opt_i64(v).is_prefix_of(at(buf@, pos as int)) ==> (r matches Some(p)
                && p.0.deep_view() == v && p.1 == pos + enc_opt_i64(v).len()),
{
    proof {
        assert forall|v: Option<i64>| #![trigger enc_opt_i64(v).is_prefix_of(at(buf@, pos as int))]
            enc_opt_i64(v).is_prefix_of(at(buf@, pos as int)) implies ((v matches Some(w)
            ==> enc_u8(1u8).is_prefix_of(at(buf@, pos as int)) && enc_i64(w).is_prefix_of(
            at(buf@, pos as int).skip(1),
        )) && (v is None ==> enc_u8(0u8).is_prefix_of(at(buf@, pos as int)))) by {
            match v {
                None => {
                    assert(enc_opt_i64(v) =~= enc_u8(0u8));
                },
                Some(w) => {
                    assert(enc_opt_i64(v) =~= enc_u8(1u8) + enc_i64(w));
                    lemma_prefix_split(enc_u8(1u8), enc_i64(w), at(buf@, pos as int));
                },
            }
        }
    }
    match dec_u8(buf, pos) {
        None => None,
        Some((tag, p1)) => {
            proof {
                lemma_at_skip(buf@, pos as int, 1);
            }
            if tag == 0 {
                proof {
                    assert(enc_opt_i64(Option::<i64>::None) =~= enc_u8(0u8));
                }
                Some((None, p1))
            } else if tag == 1 {
                match dec_i64(buf, p1) {
                    None => None,
                    Some((x, p2)) => {
                        proof {
                            assert(enc_opt_i64(Some(x)) =~= enc_u8(1u8) + enc_i64(x));
                            lemma_prefix_split(enc_u8(1u8), enc_i64(x), at(buf@, pos as int));
                        }
                        Some((Some(x), p2))
                    },
                }
            } else {
                None
            }
        },
    }
}


pub open spec fn enc_opt_i32(o: Option<i32>) -> Seq<u8> {
    match o {
        None => seq![0u8],
        Some(v) => seq![1u8] + enc_i32(v),
    }
}

pub fn push_opt_i32(out: &mut Vec<u8>, o: &Option<i32>)
    ensures
        final(out)@ == old(out)@ + enc_opt_i32(o.deep_view()),
{
    match o {
        None => {
            push_u8(out, 0);
        },
        Some(v) => {
            push_u8(out, 1);
            push_i32(out, *v);
        },
    }
    proof {
        assert(out@ =~= old(out)@ + enc_opt_i32(o.deep_view()));
    }
}

pub fn dec_opt_i32(buf: &Vec<u8>, pos: usize) -> (r: Option<(Option<i32>, usize)>)
    requires
        pos <= buf@.len(),
    ensures
        r matches Some(p) ==> pos < p.1 <= buf@.len() && p.1 == pos + enc_opt_i32(
            p.0.deep_view(),
        ).len() && enc_opt_i32(p.0.deep_view()).is_prefix_of(at(buf@, pos as int)),
        forall|v: Option<i32>| #![trigger enc_opt_i32(v).is_prefix_of(at(buf@, pos as int))]
            enc_opt_i32(v).is_prefix_of(at(buf@, pos as int)) ==> (r matches Some(p)
                && p.0.deep_view() == v && p.1 == pos + enc_opt_i32(v).len()),
{
    proof {
        assert forall|v: Option<i32>| #![trigger enc_opt_i32(v).is_prefix_of(at(buf@, pos as int))]
            enc_opt_i32(v).is_prefix_of(at(buf@, pos as int)) implies ((v matches Some(w)
            ==> enc_u8(1u8).is_prefix_of(at(buf@, pos as int)) && enc_i32(w).is_prefix_of(
            at(buf@, pos as int).skip(1),
        )) && (v is None ==> enc_u8(0u8).is_prefix_of(at(buf@, pos as int)))) by {
            match v {
                None => {
                    assert(enc_opt_i32(v) =~= enc_u8(0u8));
                },
                Some(w) => {
                    assert(enc_opt_i32(v) =~= enc_u8(1u8) + enc_i32(w));
                    lemma_prefix_split(enc_u8(1u8), enc_i32(w), at(buf@, pos as int));
                },
            }
        }
    }
    match dec_u8(buf, pos) {
        None => None,
        Some((tag, p1)) => {
            proof {
                lemma_at_skip(buf@, pos as int, 1);
            }
            if tag == 0 {
                proof {
                    assert(enc_opt_i32(Option::<i32>::None) =~= enc_u8(0u8));
                }
                Some((None, p1))
            } else if tag == 1 {
                match dec_i32(buf, p1) {
                    None => None,
                    Some((x, p2)) => {
                        proof {
                            assert(enc_opt_i32(Some(x)) =~= enc_u8(1u8) + enc_i32(x));
                            lemma_prefix_split(enc_u8(1u8), enc_i32(x), at(buf@, pos as int));
                        }
                        Some((Some(x), p2))
                    },
                }
            } else {
                None
            }
        },
    }
}


pub open spec fn enc_opt_path(o: Option<Seq<Seq<char>>>) -> Seq<u8> {
    match o {
        None => seq![0u8],
        Some(v) => seq![1u8] + enc_path(v),
    }
}

pub fn push_opt_path(out: &mut Vec<u8>, o: &Option<Vec<String>>)
    ensures
        final(out)@ == old(out)@ + enc_opt_path(o.deep_view()),
{
    match o {
        None => {
            push_u8(out, 0);
        },
        Some(v) => {
            push_u8(out, 1);
            push_path(out, v);
        },
    }
    proof {
        assert(out@ =~= old(out)@ + enc_opt_path(o.deep_view()));
    }
}

pub fn dec_opt_path(buf: &Vec<u8>, pos: usize) -> (r: Option<(Option<Vec<String>>, usize)>)
    requires
        pos <= buf@.len(),
    ensures
        r matches Some(p) ==> pos < p.1 <= buf@.len() && p.1 == pos + enc_opt_path(
            p.0.deep_view(),
        ).len() && enc_opt_path(p.0.deep_view()).is_prefix_of(at(buf@, pos as int)),
        forall|v: Option<Seq<Seq<char>>>| #![trigger enc_opt_path(v).is_prefix_of(at(buf@, pos as int))]
            enc_opt_path(v).is_prefix_of(at(buf@, pos as int)) ==> (r matches Some(p)
                && p.0.deep_view() == v && p.1 == pos + enc_opt_path(v).len()),
{
    proof {
        assert forall|v: Option<Seq<Seq<char>>>| #![trigger enc_opt_path(v).is_prefix_of(at(buf@, pos as int))]
            enc_opt_path(v).is_prefix_of(at(buf@, pos as int)) implies ((v matches Some(w)
            ==> enc_u8(1u8).is_prefix_of(at(buf@, pos as int)) && enc_path(w).is_prefix_of(
            at(buf@, pos as int).skip(1),
        )) && (v is None ==> enc_u8(0u8).is_prefix_of(at(buf@, pos as int)))) by {
            match v {
                None => {
                    assert(enc_opt_path(v) =~= enc_u8(0u8));
                },
                Some(w) => {
                    assert(enc_opt_path(v) =~= enc_u8(1u8) + enc_path(w));
                    lemma_prefix_split(enc_u8(1u8), enc_path(w), at(buf@, pos as int));
                },
            }
        }
    }
    match dec_u8(buf, pos) {
        None => None,
        Some((tag, p1)) => {
            proof {
                lemma_at_skip(buf@, pos as int, 1);
            }
            if tag == 0 {
                proof {
                    assert(enc_opt_path(Option::<Seq<Seq<char>>>::None) =~= enc_u8(0u8));
                }
                Some((None, p1))
            } else if tag == 1 {
                match dec_path(buf, p1) {
                    None => None,
                    Some((x, p2)) => {
                        proof {
                            assert(enc_opt_path(Some(x.deep_view())) =~= enc_u8(1u8) + enc_path(x.deep_view()));
                            lemma_prefix_split(enc_u8(1u8), enc_path(x.deep_view()), at(buf@, pos as int));
                        }
                        Some((Some(x), p2))
                    },
                }
            } else {
                None
            }
        },
    }
}


pub open spec fn enc_opt_paths(o: Option<Seq<Seq<Seq<char>>>>) -> Seq<u8> {
    match o {
        None => seq![0u8],
        Some(v) => seq![1u8] + enc_paths(v),
    }
}

pub fn push_opt_paths(out: &mut Vec<u8>, o: &Option<Vec<Vec<String>>>)
    ensures
        final(out)@ == old(out)@ + enc_opt_paths(o.deep_view()),
{
    match o {
        None => {
            push_u8(out, 0);
        },
        Some(v) => {
            push_u8(out, 1);
            push_paths(out, v);
        },
    }
    proof {
        assert(out@ =~= old(out)@ + enc_opt_paths(o.deep_view()));
    }
}

pub fn dec_opt_paths(buf: &Vec<u8>, pos: usize) -> (r: Option<(Option<Vec<Vec<String>>>, usize)>)
    requires
        pos <= buf@.len(),
    ensures
        r matches Some(p) ==> pos < p.1 <= buf@.len() && p.1 == pos + enc_opt_paths(
            p.0.deep_view(),
        ).len() && enc_opt_paths(p.0.deep_view()).is_prefix_of(at(buf@, pos as int)),
        forall|v: Option<Seq<Seq<Seq<char>>>>| #![trigger enc_opt_paths(v).is_prefix_of(at(buf@, pos as int))]
            enc_opt_paths(v).is_prefix_of(at(buf@, pos as int)) ==> (r matches Some(p)
                && p.0.deep_view() == v && p.1 == pos + enc_opt_paths(v).len()),
{
    proof {
        assert forall|v: Option<Seq<Seq<Seq<char>>>>| #![trigger enc_opt_paths(v).is_prefix_of(at(buf@, pos as int))]
            enc_opt_paths(v).is_prefix_of(at(buf@, pos as int)) implies ((v matches Some(w)
            ==> enc_u8(1u8).is_prefix_of(at(buf@, pos as int)) && enc_paths(w).is_prefix_of(
            at(buf@, pos as int).skip(1),
        )) && (v is None ==> enc_u8(0u8).is_prefix_of(at(buf@, pos as int)))) by {
            match v {
                None => {
                    assert(enc_opt_paths(v) =~= enc_u8(0u8));
                },
                Some(w) => {
                    assert(enc_opt_paths(v) =~= enc_u8(1u8) + enc_paths(w));
                    lemma_prefix_split(enc_u8(1u8), enc_paths(w), at(buf@, pos as int));
                },
            }
        }
    }
    match dec_u8(buf, pos) {
        None => None,
        Some((tag, p1)) => {
            proof {
                lemma_at_skip(buf@, pos as int, 1);
            }
            if tag == 0 {
                proof {
                    assert(enc_opt_paths(Option::<Seq<Seq<Seq<char>>>>::None) =~= enc_u8(0u8));
                }
                Some((None, p1))
            } else if tag == 1 {
                match dec_paths(buf, p1) {
                    None => None,
                    Some((x, p2)) => {
                        proof {
                            assert(enc_opt_paths(Some(x.deep_view())) =~= enc_u8(1u8) + enc_paths(x.deep_view()));
                            lemma_prefix_split(enc_u8(1u8), enc_paths(x.deep_view()), at(buf@, pos as int));
                        }
                        Some((Some(x), p2))
                    },
                }
            } else {
                None
            }
        },
    }
}


pub open spec fn enc_opt_postype(o: Option<PositionType>) -> Seq<u8> {
    match o {
        None => seq![0u8],
        Some(v) => seq![1u8] + enc_postype(v),
    }
}

pub fn push_opt_postype(out: &mut Vec<u8>, o: &Option<PositionType>)
    ensures
        final(out)@ == old(out)@ + enc_opt_postype(o.deep_view()),
{
    match o {
        None => {
            push_u8(out, 0);
        },
        Some(v) => {
            push_u8(out, 1);
            push_postype(out, *v);
        },
    }
    proof {
        assert(out@ =~= old(out)@ + enc_opt_postype(o.deep_view()));
    }
}

pub fn dec_opt_postype(buf: &Vec<u8>, pos: usize) -> (r: Option<(Option<PositionType>, usize)>)
    requires
        pos <= buf@.len(),
    ensures
        r matches Some(p) ==> pos < p.1 <= buf@.len() && p.1 == pos + enc_opt_postype(
            p.0.deep_view(),
        ).len() && enc_opt_postype(p.0.deep_view()).is_prefix_of(at(buf@, pos as int)),
        forall|v: Option<PositionType>| #![trigger enc_opt_postype(v).is_prefix_of(at(buf@, pos as int))]
            enc_opt_postype(v).is_prefix_of(at(buf@, pos as int)) ==> (r matches Some(p)
                && p.0.deep_view() == v && p.1 == pos + enc_opt_postype(v).len()),
{
    proof {
        assert forall|v: Option<PositionType>| #![trigger enc_opt_postype(v).is_prefix_of(at(buf@, pos as int))]
            enc_opt_postype(v).is_prefix_of(at(buf@, pos as int)) implies ((v matches Some(w)
            ==> enc_u8(1u8).is_prefix_of(at(buf@, pos as int)) && enc_postype(w).is_prefix_of(
            at(buf@, pos as int).skip(1),
        )) && (v is None ==> enc_u8(0u8).is_prefix_of(at(buf@, pos as int)))) by {
            match v {
                None => {
                    assert(enc_opt_postype(v) =~= enc_u8(0u8));
                },
                Some(w) => {
                    assert(enc_opt_postype(v) =~= enc_u8(1u8) + enc_postype(w));
                    lemma_prefix_split(enc_u8(1u8), enc_postype(w), at(buf@, pos as int));
                },
            }
        }
    }
    match dec_u8(buf, pos) {
        None => None,
        Some((tag, p1)) => {
            proof {
                lemma_at_skip(buf@, pos as int, 1);
            }
            if tag == 0 {
                proof {
                    assert(enc_opt_postype(Option::<PositionType>::None) =~= enc_u8(0u8));
                }
                Some((None, p1))
            } else if tag == 1 {
                match dec_postype(buf, p1) {
                    None => None,
                    Some((x, p2)) => {
                        proof {
                            assert(enc_opt_postype(Some(x)) =~= enc_u8(1u8) + enc_postype(x));
                            lemma_prefix_split(enc_u8(1u8), enc_postype(x), at(buf@, pos as int));
                        }
                        Some((Some(x), p2))
                    },
                }
            } else {
                None
            }
        },
    }
}


pub open spec fn enc_opt_filepos(o: Option<FilePositionV>) -> Seq<u8> {
    match o {
        None => seq![0u8],
        Some(v) => seq![1u8] + enc_filepos(v),
    }
}

pub fn push_opt_filepos(out: &mut Vec<u8>, o: &Option<FilePosition>)
    ensures
        final(out)@ == old(out)@ + enc_opt_filepos(o.deep_view()),
{
    match o {
        None => {
            push_u8(out, 0);
        },
        Some(v) => {
            push_u8(out, 1);
            push_filepos(out, v);
        },
    }
    proof {
        assert(out@ =~= old(out)@ + enc_opt_filepos(o.deep_view()));
    }
}

pub fn dec_opt_filepos(buf: &Vec<u8>, pos: usize) -> (r: Option<(Option<FilePosition>, usize)>)
    requires
        pos <= buf@.len(),
    ensures
        r matches Some(p) ==> pos < p.1 <= buf@.len() && p.1 == pos + enc_opt_filepos(
            p.0.deep_view(),
        ).len() && enc_opt_filepos(p.0.deep_view()).is_prefix_of(at(buf@, pos as int)),
        forall|v: Option<FilePositionV>| #![trigger enc_opt_filepos(v).is_prefix_of(at(buf@, pos as int))]
            enc_opt_filepos(v).is_prefix_of(at(buf@, pos as int)) ==> (r matches Some(p)
                && p.0.deep_view() == v && p.1 == pos + enc_opt_filepos(v).len()),
{
    proof {
        assert forall|v: Option<FilePositionV>| #![trigger enc_opt_filepos(v).is_prefix_of(at(buf@, pos as int))]
            enc_opt_filepos(v).is_prefix_of(at(buf@, pos as int)) implies ((v matches Some(w)
            ==> enc_u8(1u8).is_prefix_of(at(buf@, pos as int)) && enc_filepos(w).is_prefix_of(
            at(buf@, pos as int).skip(1),
        )) && (v is None ==> enc_u8(0u8).is_prefix_of(at(buf@, pos as int)))) by {
            match v {
                None => {
                    assert(enc_opt_filepos(v) =~= enc_u8(0u8));
                },
                Some(w) => {
                    assert(enc_opt_filepos(v) =~= enc_u8(1u8) + enc_filepos(w));
                    lemma_prefix_split(enc_u8(1u8), enc_filepos(w), at(buf@, pos as int));
                },
            }
        }
    }
    match dec_u8(buf, pos) {
        None => None,
        Some((tag, p1)) => {
            proof {
                lemma_at_skip(buf@, pos as int, 1);
            }
            if tag == 0 {
                proof {
                    assert(enc_opt_filepos(Option::<FilePositionV>::None) =~= enc_u8(0u8));
                }
                Some((None, p1))
            } else if tag == 1 {
                match dec_filepos(buf, p1) {
                    None => None,
                    Some((x, p2)) => {
                        proof {
                            assert(enc_opt_filepos(Some(x.deep_view())) =~= enc_u8(1u8) + enc_filepos(x.deep_view()));
                            lemma_prefix_split(enc_u8(1u8), enc_filepos(x.deep_view()), at(buf@, pos as int));
                        }
                        Some((Some(x), p2))
                    },
                }
            } else {
                None
            }
        },
    }
}


// ---------------------------------------------------------------------
// Source origins, primop metadata, content, entry metadata, entries
// ---------------------------------------------------------------------
pub open spec fn enc_origin(v: SourceOriginV) -> Seq<u8> {
    enc_opt_filepos(v.position) + (enc_opt_path(v.path) + (enc_opt_postype(v.pos_type)))
}

pub fn push_origin(out: &mut Vec<u8>, v: &SourceOrigin)
    ensures
        final(out)@ == old(out)@ + enc_origin(v.deep_view()),
{
    push_opt_filepos(out, &v.position);
    push_opt_path(out, &v.path);
    push_opt_postype(out, &v.pos_type);
    proof {
        assert(out@ =~= old(out)@ + enc_origin(v.deep_view()));
    }
}

pub fn dec_origin(buf: &Vec<u8>, pos: usize) -> (r: Option<(SourceOrigin, usize)>)
    requires
        pos <= buf@.len(),
    ensures
        r matches Some(p) ==> pos <= p.1 <= buf@.len() && p.1 == pos + enc_origin(
            p.0.deep_view(),
        ).len() && enc_origin(p.0.deep_view()).is_prefix_of(at(buf@, pos as int)),
        forall|v: SourceOriginV| #![trigger enc_origin(v).is_prefix_of(at(buf@, pos as int))]
            enc_origin(v).is_prefix_of(at(buf@, pos as int)) ==> (r matches Some(p)
                && p.0.deep_view() == v && p.1 == pos + enc_origin(v).len()),
{
    proof {
        assert forall|v: SourceOriginV| #![trigger enc_origin(v).is_prefix_of(at(buf@, pos as int))]
            enc_origin(v).is_prefix_of(at(buf@, pos as int)) implies (enc_opt_filepos(v.position).is_prefix_of(at(buf@, pos as int)) && (enc_opt_path(v.path) + (enc_opt_postype(v.pos_type))).is_prefix_of(at(buf@, pos as int).skip(enc_opt_filepos(v.position).len() as int))) by {
            lemma_prefix_split(enc_opt_filepos(v.position), enc_opt_path(v.path) + (enc_opt_postype(v.pos_type)), at(buf@, pos as int));
        }
    }
    match dec_opt_filepos(buf, pos) {
        None => None,
        Some((x0, p0)) => {
            proof {
                assert forall|v: SourceOriginV| #![trigger enc_origin(v).is_prefix_of(at(buf@, pos as int))]
                    enc_origin(v).is_prefix_of(at(buf@, pos as int)) implies (v.position == x0.deep_view()
                    && enc_opt_path(v.path).is_prefix_of(at(buf@, p0 as int)) && (enc_opt_postype(v.pos_type)).is_prefix_of(at(buf@, p0 as int).skip(enc_opt_path(v.path).len() as int))) by {
                    lemma_at_skip(buf@, pos as int, (p0 - pos) as int);
                    lemma_prefix_split(enc_opt_path(v.path), enc_opt_postype(v.pos_type), at(buf@, p0 as int));
                }
            }
            match dec_opt_path(buf, p0) {
                None => None,
                Some((x1, p1)) => {
                    proof {
                        assert forall|v: SourceOriginV| #![trigger enc_origin(v).is_prefix_of(at(buf@, pos as int))]
                            enc_origin(v).is_prefix_of(at(buf@, pos as int)) implies (v.path == x1.deep_view()
                            && enc_opt_postype(v.pos_type).is_prefix_of(at(buf@, p1 as int))) by {
                            lemma_at_skip(buf@, p0 as int, (p1 - p0) as int);
                            
                        }
                    }
                    match dec_opt_postype(buf, p1) {
                        None => None,
                        Some((x2, p2)) => {
                            let built = SourceOrigin { position: x0, path: x1, pos_type: x2 };
                            proof {
                                lemma_prefix_subrange(enc_opt_filepos(x0.deep_view()), buf@, pos as int);
                                lemma_prefix_subrange(enc_opt_path(x1.deep_view()), buf@, p0 as int);
                                lemma_prefix_subrange(enc_opt_postype(x2.deep_view()), buf@, p1 as int);
                                lemma_subrange_concat(buf@, p0 as int, p1 as int, p2 as int);
                                lemma_subrange_concat(buf@, pos as int, p0 as int, p2 as int);
                                assert(enc_origin(built.deep_view()) =~= buf@.subrange(pos as int, p2 as int));
                                lemma_subrange_prefix(enc_origin(built.deep_view()), buf@, pos as int);
                            }
                            Some((built, p2))
                            },
                        }
                    },
                }
            },
        }
}

pub open spec fn enc_opt_origin(o: Option<SourceOriginV>) -> Seq<u8> {
    match o {
        None => seq![0u8],
        Some(v) => seq![1u8] + enc_origin(v),
    }
}

pub fn push_opt_origin(out: &mut Vec<u8>, o: &Option<SourceOrigin>)
    ensures
        final(out)@ == old(out)@ + enc_opt_origin(o.deep_view()),
{
    match o {
        None => {
            push_u8(out, 0);
        },
        Some(v) => {
            push_u8(out, 1);
            push_origin(out, v);
        },
    }
    proof {
        assert(out@ =~= old(out)@ + enc_opt_origin(o.deep_view()));
    }
}

pub fn dec_opt_origin(buf: &Vec<u8>, pos: usize) -> (r: Option<(Option<SourceOrigin>, usize)>)
    requires
        pos <= buf@.len(),
    ensures
        r matches Some(p) ==> pos < p.1 <= buf@.len() && p.1 == pos + enc_opt_origin(
            p.0.deep_view(),
        ).len() && enc_opt_origin(p.0.deep_view()).is_prefix_of(at(buf@, pos as int)),
        forall|v: Option<SourceOriginV>| #![trigger enc_opt_origin(v).is_prefix_of(at(buf@, pos as int))]
            enc_opt_origin(v).is_prefix_of(at(buf@, pos as int)) ==> (r matches Some(p)
                && p.0.deep_view() == v && p.1 == pos + enc_opt_origin(v).len()),
{
    proof {
        assert forall|v: Option<SourceOriginV>| #![trigger enc_opt_origin(v).is_prefix_of(at(buf@, pos as int))]
            enc_opt_origin(v).is_prefix_of(at(buf@, pos as int)) implies ((v matches Some(w)
            ==> enc_u8(1u8).is_prefix_of(at(buf@, pos as int)) && enc_origin(w).is_prefix_of(
            at(buf@, pos as int).skip(1),
        )) && (v is None ==> enc_u8(0u8).is_prefix_of(at(buf@, pos as int)))) by {
            match v {
                None => {
                    assert(enc_opt_origin(v) =~= enc_u8(0u8));
                },
                Some(w) => {
                    assert(enc_opt_origin(v) =~= enc_u8(1u8) + enc_origin(w));
                    lemma_prefix_split(enc_u8(1u8), enc_origin(w), at(buf@, pos as int));
                },
            }
        }
    }
    match dec_u8(buf, pos) {
        None => None,
        Some((tag, p1)) => {
            proof {
                lemma_at_skip(buf@, pos as int, 1);
            }
            if tag == 0 {
                proof {
                    assert(enc_opt_origin(Option::<SourceOriginV>::None) =~= enc_u8(0u8));
                }
                Some((None, p1))
            } else if tag == 1 {
                match dec_origin(buf, p1) {
                    None => None,
                    Some((x, p2)) => {
                        proof {
                            assert(enc_opt_origin(Some(x.deep_view())) =~= enc_u8(1u8) + enc_origin(x.deep_view()));
                            lemma_prefix_split(enc_u8(1u8), enc_origin(x.deep_view()), at(buf@, pos as int));
                        }
                        Some((Some(x), p2))
                    },
                }
            } else {
                None
            }
        },
    }
}

pub open spec fn enc_primop(v: PrimopMetaV) -> Seq<u8> {
    enc_opt_str(v.name) + (enc_opt_path(v.args) + (enc_opt_bool(v.experimental) + (enc_opt_i32(v.arity))))
}

pub fn push_primop(out: &mut Vec<u8>, v: &PrimopMeta)
    ensures
        final(out)@ == old(out)@ + enc_primop(v.deep_view()),
{
    push_opt_str(out, &v.name);
    push_opt_path(out, &v.args);
    push_opt_bool(out, &v.experimental);
    push_opt_i32(out, &v.arity);
    proof {
        assert(out@ =~= old(out)@ + enc_primop(v.deep_view()));
    }
}

pub fn dec_primop(buf: &Vec<u8>, pos: usize) -> (r: Option<(PrimopMeta, usize)>)
    requires
        pos <= buf@.len(),
    ensures
        r matches Some(p) ==> pos <= p.1 <= buf@.len() && p.1 == pos + enc_primop(
            p.0.deep_view(),
        ).len() && enc_primop(p.0.deep_view()).is_prefix_of(at(buf@, pos as int)),
        forall|v: PrimopMetaV| #![trigger enc_primop(v).is_prefix_of(at(buf@, pos as int))]
            enc_primop(v).is_prefix_of(at(buf@, pos as int)) ==> (r matches Some(p)
                && p.0.deep_view() == v && p.1 == pos + enc_primop(v).len()),
{
    proof {
        assert forall|v: PrimopMetaV| #![trigger enc_primop(v).is_prefix_of(at(buf@, pos as int))]
            enc_primop(v).is_prefix_of(at(buf@, pos as int)) implies (enc_opt_str(v.name).is_prefix_of(at(buf@, pos as int)) && (enc_opt_path(v.args) + (enc_opt_bool(v.experimental) + (enc_opt_i32(v.arity)))).is_prefix_of(at(buf@, pos as int).skip(enc_opt_str(v.name).len() as int))) by {
            lemma_prefix_split(enc_opt_str(v.name), enc_opt_path(v.args) + (enc_opt_bool(v.experimental) + (enc_opt_i32(v.arity))), at(buf@, pos as int));
        }
    }
    match dec_opt_str(buf, pos) {
        None => None,
        Some((x0, p0)) => {
            proof {
                assert forall|v: PrimopMetaV| #![trigger enc_primop(v).is_prefix_of(at(buf@, pos as int))]
                    enc_primop(v).is_prefix_of(at(buf@, pos as int)) implies (v.name == x0.deep_view()
                    && enc_opt_path(v.args).is_prefix_of(at(buf@, p0 as int)) && (enc_opt_bool(v.experimental) + (enc_opt_i32(v.arity))).is_prefix_of(at(buf@, p0 as int).skip(enc_opt_path(v.args).len() as int))) by {
                    lemma_at_skip(buf@, pos as int, (p0 - pos) as int);
                    lemma_prefix_split(enc_opt_path(v.args), enc_opt_bool(v.experimental) + (enc_opt_i32(v.arity)), at(buf@, p0 as int));
                }
            }
            match dec_opt_path(buf, p0) {
                None => None,
                Some((x1, p1)) => {
                    proof {
                        assert forall|v: PrimopMetaV| #![trigger enc_primop(v).is_prefix_of(at(buf@, pos as int))]
                            enc_primop(v).is_prefix_of(at(buf@, pos as int)) implies (v.args == x1.deep_view()
                            && enc_opt_bool(v.experimental).is_prefix_of(at(buf@, p1 as int)) && (enc_opt_i32(v.arity)).is_prefix_of(at(buf@, p1 as int).skip(enc_opt_bool(v.experimental).len() as int))) by {
                            lemma_at_skip(buf@, p0 as int, (p1 - p0) as int);
                            lemma_prefix_split(enc_opt_bool(v.experimental), enc_opt_i32(v.arity), at(buf@, p1 as int));
                        }
                    }
                    match dec_opt_bool(buf, p1) {
                        None => None,
                        Some((x2, p2)) => {
                            proof {
                                assert forall|v: PrimopMetaV| #![trigger enc_primop(v).is_prefix_of(at(buf@, pos as int))]
                                    enc_primop(v).is_prefix_of(at(buf@, pos as int)) implies (v.experimental == x2.deep_view()
                                    && enc_opt_i32(v.arity).is_prefix_of(at(buf@, p2 as int))) by {
                                    lemma_at_skip(buf@, p1 as int, (p2 - p1) as int);
                                    
                                }
                            }
                            match dec_opt_i32(buf, p2) {
                                None => None,
                                Some((x3, p3)) => {
                                    let built = PrimopMeta { name: x0, args: x1, experimental: x2, arity: x3 };
                                    proof {
                                        lemma_prefix_subrange(enc_opt_str(x0.deep_view()), buf@, pos as int);
                                        lemma_prefix_subrange(enc_opt_path(x1.deep_view()), buf@, p0 as int);
                                        lemma_prefix_subrange(enc_opt_bool(x2.deep_view()), buf@, p1 as int);
                                        lemma_prefix_subrange(enc_opt_i32(x3.deep_view()), buf@, p2 as int);
                                        lemma_subrange_concat(buf@, p1 as int, p2 as int, p3 as int);
                                        lemma_subrange_concat(buf@, p0 as int, p1 as int, p3 as int);
                                        lemma_subrange_concat(buf@, pos as int, p0 as int, p3 as int);
                                        assert(enc_primop(built.deep_view()) =~= buf@.subrange(pos as int, p3 as int));
                                        lemma_subrange_prefix(enc_primop(built.deep_view()), buf@, pos as int);
                                    }
                                    Some((built, p3))
                                    },
                                }
                            },
                        }
                    },
                }
            },
        }
}

pub open spec fn enc_opt_primop(o: Option<PrimopMetaV>) -> Seq<u8> {
    match o {
        None => seq![0u8],
        Some(v) => seq![1u8] + enc_primop(v),
    }
}

pub fn push_opt_primop(out: &mut Vec<u8>, o: &Option<PrimopMeta>)
    ensures
        final(out)@ == old(out)@ + enc_opt_primop(o.deep_view()),
{
    match o {
        None => {
            push_u8(out, 0);
        },
        Some(v) => {
            push_u8(out, 1);
            push_primop(out, v);
        },
    }
    proof {
        assert(out@ =~= old(out)@ + enc_opt_primop(o.deep_view()));
    }
}

pub fn dec_opt_primop(buf: &Vec<u8>, pos: usize) -> (r: Option<(Option<PrimopMeta>, usize)>)
    requires
        pos <= buf@.len(),
    ensures
        r matches Some(p) ==> pos < p.1 <= buf@.len() && p.1 == pos + enc_opt_primop(
            p.0.deep_view(),
        ).len() && enc_opt_primop(p.0.deep_view()).is_prefix_of(at(buf@, pos as int)),
        forall|v: Option<PrimopMetaV>| #![trigger enc_opt_primop(v).is_prefix_of(at(buf@, pos as int))]
            enc_opt_primop(v).is_prefix_of(at(buf@, pos as int)) ==> (r matches Some(p)
                && p.0.deep_view() == v && p.1 == pos + enc_opt_primop(v).len()),
{
    proof {
        assert forall|v: Option<PrimopMetaV>| #![trigger enc_opt_primop(v).is_prefix_of(at(buf@, pos as int))]
            enc_opt_primop(v).is_prefix_of(at(buf@, pos as int)) implies ((v matches Some(w)
            ==> enc_u8(1u8).is_prefix_of(at(buf@, pos as int)) && enc_primop(w).is_prefix_of(
            at(buf@, pos as int).skip(1),
        )) && (v is None ==> enc_u8(0u8).is_prefix_of(at(buf@, pos as int)))) by {
            match v {
                None => {
                    assert(enc_opt_primop(v) =~= enc_u8(0u8));
                },
                Some(w) => {
                    assert(enc_opt_primop(v) =~= enc_u8(1u8) + enc_primop(w));
                    lemma_prefix_split(enc_u8(1u8), enc_primop(w), at(buf@, pos as int));
                },
            }
        }
    }
    match dec_u8(buf, pos) {
        None => None,
        Some((tag, p1)) => {
            proof {
                lemma_at_skip(buf@, pos as int, 1);
            }
            if tag == 0 {
                proof {
                    assert(enc_opt_primop(Option::<PrimopMetaV>::None) =~= enc_u8(0u8));
                }
                Some((None, p1))
            } else if tag == 1 {
                match dec_primop(buf, p1) {
                    None => None,
                    Some((x, p2)) => {
                        proof {
                            assert(enc_opt_primop(Some(x.deep_view())) =~= enc_u8(1u8) + enc_primop(x.deep_view()));
                            lemma_prefix_split(enc_u8(1u8), enc_primop(x.deep_view()), at(buf@, pos as int));
                        }
                        Some((Some(x), p2))
                    },
                }
            } else {
                None
            }
        },
    }
}

pub open spec fn enc_content(v: ContentSourceV) -> Seq<u8> {
    enc_opt_str(v.content) + (enc_opt_origin(v.source))
}

pub fn push_content(out: &mut Vec<u8>, v: &ContentSource)
    ensures
        final(out)@ == old(out)@ + enc_content(v.deep_view()),
{
    push_opt_str(out, &v.content);
    push_opt_origin(out, &v.source);
    proof {
        assert(out@ =~= old(out)@ + enc_content(v.deep_view()));
    }
}

pub fn dec_content(buf: &Vec<u8>, pos: usize) -> (r: Option<(ContentSource, usize)>)
    requires
        pos <= buf@.len(),
    ensures
        r matches Some(p) ==> pos <= p.1 <= buf@.len() && p.1 == pos + enc_content(
            p.0.deep_view(),
        ).len() && enc_content(p.0.deep_view()).is_prefix_of(at(buf@, pos as int)),
        forall|v: ContentSourceV| #![trigger enc_content(v).is_prefix_of(at(buf@, pos as int))]
            enc_content(v).is_prefix_of(at(buf@, pos as int)) ==> (r matches Some(p)
                && p.0.deep_view() == v && p.1 == pos + enc_content(v).len()),
{
    proof {
        assert forall|v: ContentSourceV| #![trigger enc_content(v).is_prefix_of(at(buf@, pos as int))]
            enc_content(v).is_prefix_of(at(buf@, pos as int)) implies (enc_opt_str(v.content).is_prefix_of(at(buf@, pos as int)) && (enc_opt_origin(v.source)).is_prefix_of(at(buf@, pos as int).skip(enc_opt_str(v.content).len() as int))) by {
            lemma_prefix_split(enc_opt_str(v.content), enc_opt_origin(v.source), at(buf@, pos as int));
        }
    }
    match dec_opt_str(buf, pos) {
        None => None,
        Some((x0, p0)) => {
            proof {
                assert forall|v: ContentSourceV| #![trigger enc_content(v).is_prefix_of(at(buf@, pos as int))]
                    enc_content(v).is_prefix_of(at(buf@, pos as int)) implies (v.content == x0.deep_view()
                    && enc_opt_origin(v.source).is_prefix_of(at(buf@, p0 as int))) by {
                    lemma_at_skip(buf@, pos as int, (p0 - pos) as int);
                    
                }
            }
            match dec_opt_origin(buf, p0) {
                None => None,
                Some((x1, p1)) => {
                    let built = ContentSource { content: x0, source: x1 };
                    proof {
                        lemma_prefix_subrange(enc_opt_str(x0.deep_view()), buf@, pos as int);
                        lemma_prefix_subrange(enc_opt_origin(x1.deep_view()), buf@, p0 as int);
                        lemma_subrange_concat(buf@, pos as int, p0 as int, p1 as int);
                        assert(enc_content(built.deep_view()) =~= buf@.subrange(pos as int, p1 as int));
                        lemma_subrange_prefix(enc_content(built.deep_view()), buf@, pos as int);
                    }
                    Some((built, p1))
                    },
                }
            },
        }
}

pub open spec fn enc_opt_content(o: Option<ContentSourceV>) -> Seq<u8> {
    match o {
        None => seq![0u8],
        Some(v) => seq![1u8] + enc_content(v),
    }
}

pub fn push_opt_content(out: &mut Vec<u8>, o: &Option<ContentSource>)
    ensures
        final(out)@ == old(out)@ + enc_opt_content(o.deep_view()),
{
    match o {
        None => {
            push_u8(out, 0);
        },
        Some(v) => {
            push_u8(out, 1);
            push_content(out, v);
        },
    }
    proof {
        assert(out@ =~= old(out)@ + enc_opt_content(o.deep_view()));
    }
}

pub fn dec_opt_content(buf: &Vec<u8>, pos: usize) -> (r: Option<(Option<ContentSource>, usize)>)
    requires
        pos <= buf@.len(),
    ensures
        r matches Some(p) ==> pos < p.1 <= buf@.len() && p.1 == pos + enc_opt_content(
            p.0.deep_view(),
        ).len() && enc_opt_content(p.0.deep_view()).is_prefix_of(at(buf@, pos as int)),
        forall|v: Option<ContentSourceV>| #![trigger enc_opt_content(v).is_prefix_of(at(buf@, pos as int))]
            enc_opt_content(v).is_prefix_of(at(buf@, pos as int)) ==> (r matches Some(p)
                && p.0.deep_view() == v && p.1 == pos + enc_opt_content(v).len()),
{
    proof {
        assert forall|v: Option<ContentSourceV>| #![trigger enc_opt_content(v).is_prefix_of(at(buf@, pos as int))]
            enc_opt_content(v).is_prefix_of(at(buf@, pos as int)) implies ((v matches Some(w)
            ==> enc_u8(1u8).is_prefix_of(at(buf@, pos as int)) && enc_content(w).is_prefix_of(
            at(buf@, pos as int).skip(1),
        )) && (v is None ==> enc_u8(0u8).is_prefix_of(at(buf@, pos as int)))) by {
            match v {
                None => {
                    assert(enc_opt_content(v) =~= enc_u8(0u8));
                },
                Some(w) => {
                    assert(enc_opt_content(v) =~= enc_u8(1u8) + enc_content(w));
                    lemma_prefix_split(enc_u8(1u8), enc_content(w), at(buf@, pos as int));
                },
            }
        }
    }
    match dec_u8(buf, pos) {
        None => None,
        Some((tag, p1)) => {
            proof {
                lemma_at_skip(buf@, pos as int, 1);
            }
            if tag == 0 {
                proof {
                    assert(enc_opt_content(Option::<ContentSourceV>::None) =~= enc_u8(0u8));
                }
                Some((None, p1))
            } else if tag == 1 {
                match dec_content(buf, p1) {
                    None => None,
                    Some((x, p2)) => {
                        proof {
                            assert(enc_opt_content(Some(x.deep_view())) =~= enc_u8(1u8) + enc_content(x.deep_view()));
                            lemma_prefix_split(enc_u8(1u8), enc_content(x.deep_view()), at(buf@, pos as int));
                        }
                        Some((Some(x), p2))
                    },
                }
            } else {
                None
            }
        },
    }
}

pub open spec fn enc_meta_head(v: (Seq<char>, Seq<Seq<char>>, Option<Seq<Seq<Seq<char>>>>, Option<bool>, Option<bool>, Option<PrimopMetaV>)) -> Seq<u8> {
    enc_str(v.0) + (enc_path(v.1) + (enc_opt_paths(v.2) + (enc_opt_bool(v.3) + (enc_opt_bool(v.4) + (enc_opt_primop(v.5))))))
}

pub fn push_meta_head(out: &mut Vec<u8>, v: &(String, Vec<String>, Option<Vec<Vec<String>>>, Option<bool>, Option<bool>, Option<PrimopMeta>))
    ensures
        final(out)@ == old(out)@ + enc_meta_head(v.deep_view()),
{
    push_str(out, v.0.as_str());
    push_path(out, &v.1);
    push_opt_paths(out, &v.2);
    push_opt_bool(out, &v.3);
    push_opt_bool(out, &v.4);
    push_opt_primop(out, &v.5);
    proof {
        lemma_concat_assoc(old(out)@ + enc_str(v.0@) + enc_path(v.1.deep_view()) + enc_opt_paths(v.2.deep_view()) + enc_opt_bool(v.3.deep_view()), enc_opt_bool(v.4.deep_view()), enc_opt_primop(v.5.deep_view()));
        lemma_concat_assoc(old(out)@ + enc_str(v.0@) + enc_path(v.1.deep_view()) + enc_opt_paths(v.2.deep_view()), enc_opt_bool(v.3.deep_view()), enc_opt_bool(v.4.deep_view()) + (enc_opt_primop(v.5.deep_view())));
        lemma_concat_assoc(old(out)@ + enc_str(v.0@) + enc_path(v.1.deep_view()), enc_opt_paths(v.2.deep_view()), enc_opt_bool(v.3.deep_view()) + (enc_opt_bool(v.4.deep_view()) + (enc_opt_primop(v.5.deep_view()))));
        lemma_concat_assoc(old(out)@ + enc_str(v.0@), enc_path(v.1.deep_view()), enc_opt_paths(v.2.deep_view()) + (enc_opt_bool(v.3.deep_view()) + (enc_opt_bool(v.4.deep_view()) + (enc_opt_primop(v.5.deep_view())))));
        lemma_concat_assoc(old(out)@, enc_str(v.0@), enc_path(v.1.deep_view()) + (enc_opt_paths(v.2.deep_view()) + (enc_opt_bool(v.3.deep_view()) + (enc_opt_bool(v.4.deep_view()) + (enc_opt_primop(v.5.deep_view()))))));
        assert(out@ == old(out)@ + enc_meta_head(v.deep_view()));
    }
}

#[verifier::rlimit(80)]
pub fn dec_meta_head(buf: &Vec<u8>, pos: usize) -> (r: Option<((String, Vec<String>, Option<Vec<Vec<String>>>, Option<bool>, Option<bool>, Option<PrimopMeta>), usize)>)
    requires
        pos <= buf@.len(),
    ensures
        r matches Some(p) ==> pos <= p.1 <= buf@.len() && p.1 == pos + enc_meta_head(
            p.0.deep_view(),
        ).len() && enc_meta_head(p.0.deep_view()).is_prefix_of(at(buf@, pos as int)),
        forall|v: (Seq<char>, Seq<Seq<char>>, Option<Seq<Seq<Seq<char>>>>, Option<bool>, Option<bool>, Option<PrimopMetaV>)| #![trigger enc_meta_head(v).is_prefix_of(at(buf@, pos as int))]
            enc_meta_head(v).is_prefix_of(at(buf@, pos as int)) ==> (r matches Some(p)
                && p.0.deep_view() == v && p.1 == pos + enc_meta_head(v).len()),
{
    proof {
        assert forall|v: (Seq<char>, Seq<Seq<char>>, Option<Seq<Seq<Seq<char>>>>, Option<bool>, Option<bool>, Option<PrimopMetaV>)| #![trigger enc_meta_head(v).is_prefix_of(at(buf@, pos as int))]
            enc_meta_head(v).is_prefix_of(at(buf@, pos as int)) implies (enc_str(v.0).is_prefix_of(at(buf@, pos as int)) && (enc_path(v.1) + (enc_opt_paths(v.2) + (enc_opt_bool(v.3) + (enc_opt_bool(v.4) + (enc_opt_primop(v.5)))))).is_prefix_of(at(buf@, pos as int).skip(enc_str(v.0).len() as int))) by {
            lemma_prefix_split(enc_str(v.0), enc_path(v.1) + (enc_opt_paths(v.2) + (enc_opt_bool(v.3) + (enc_opt_bool(v.4) + (enc_opt_primop(v.5))))), at(buf@, pos as int));
        }
    }
    match dec_str(buf, pos) {
        None => None,
        Some((x0, p0)) => {
            proof {
                assert forall|v: (Seq<char>, Seq<Seq<char>>, Option<Seq<Seq<Seq<char>>>>, Option<bool>, Option<bool>, Option<PrimopMetaV>)| #![trigger enc_meta_head(v).is_prefix_of(at(buf@, pos as int))]
                    enc_meta_head(v).is_prefix_of(at(buf@, pos as int)) implies (v.0 == x0.deep_view()
                    && enc_path(v.1).is_prefix_of(at(buf@, p0 as int)) && (enc_opt_paths(v.2) + (enc_opt_bool(v.3) + (enc_opt_bool(v.4) + (enc_opt_primop(v.5))))).is_prefix_of(at(buf@, p0 as int).skip(enc_path(v.1).len() as int))) by {
                    lemma_at_skip(buf@, pos as int, (p0 - pos) as int);
                    lemma_prefix_split(enc_path(v.1), enc_opt_paths(v.2) + (enc_opt_bool(v.3) + (enc_opt_bool(v.4) + (enc_opt_primop(v.5)))), at(buf@, p0 as int));
                }
            }
            match dec_path(buf, p0) {
                None => None,
                Some((x1, p1)) => {
                    proof {
                        assert forall|v: (Seq<char>, Seq<Seq<char>>, Option<Seq<Seq<Seq<char>>>>, Option<bool>, Option<bool>, Option<PrimopMetaV>)| #![trigger enc_meta_head(v).is_prefix_of(at(buf@, pos as int))]
                            enc_meta_head(v).is_prefix_of(at(buf@, pos as int)) implies (v.1 == x1.deep_view()
                            && enc_opt_paths(v.2).is_prefix_of(at(buf@, p1 as int)) && (enc_opt_bool(v.3) + (enc_opt_bool(v.4) + (enc_opt_primop(v.5)))).is_prefix_of(at(buf@, p1 as int).skip(enc_opt_paths(v.2).len() as int))) by {
                            lemma_at_skip(buf@, p0 as int, (p1 - p0) as int);
                            lemma_prefix_split(enc_opt_paths(v.2), enc_opt_bool(v.3) + (enc_opt_bool(v.4) + (enc_opt_primop(v.5))), at(buf@, p1 as int));
                        }
                    }
                    match dec_opt_paths(buf, p1) {
                        None => None,
                        Some((x2, p2)) => {
                            proof {
                                assert forall|v: (Seq<char>, Seq<Seq<char>>, Option<Seq<Seq<Seq<char>>>>, Option<bool>, Option<bool>, Option<PrimopMetaV>)| #![trigger enc_meta_head(v).is_prefix_of(at(buf@, pos as int))]
                                    enc_meta_head(v).is_prefix_of(at(buf@, pos as int)) implies (v.2 == x2.deep_view()
                                    && enc_opt_bool(v.3).is_prefix_of(at(buf@, p2 as int)) && (enc_opt_bool(v.4) + (enc_opt_primop(v.5))).is_prefix_of(at(buf@, p2 as int).skip(enc_opt_bool(v.3).len() as int))) by {
                                    lemma_at_skip(buf@, p1 as int, (p2 - p1) as int);
                                    lemma_prefix_split(enc_opt_bool(v.3), enc_opt_bool(v.4) + (enc_opt_primop(v.5)), at(buf@, p2 as int));
                                }
                            }
                            match dec_opt_bool(buf, p2) {
                                None => None,
                                Some((x3, p3)) => {
                                    proof {
                                        assert forall|v: (Seq<char>, Seq<Seq<char>>, Option<Seq<Seq<Seq<char>>>>, Option<bool>, Option<bool>, Option<PrimopMetaV>)| #![trigger enc_meta_head(v).is_prefix_of(at(buf@, pos as int))]
                                            enc_meta_head(v).is_prefix_of(at(buf@, pos as int)) implies (v.3 == x3.deep_view()
                                            && enc_opt_bool(v.4).is_prefix_of(at(buf@, p3 as int)) && (enc_opt_primop(v.5)).is_prefix_of(at(buf@, p3 as int).skip(enc_opt_bool(v.4).len() as int))) by {
                                            lemma_at_skip(buf@, p2 as int, (p3 - p2) as int);
                                            lemma_prefix_split(enc_opt_bool(v.4), enc_opt_primop(v.5), at(buf@, p3 as int));
                                        }
                                    }
                                    match dec_opt_bool(buf, p3) {
                                        None => None,
                                        Some((x4, p4)) => {
                                            proof {
                                                assert forall|v: (Seq<char>, Seq<Seq<char>>, Option<Seq<Seq<Seq<char>>>>, Option<bool>, Option<bool>, Option<PrimopMetaV>)| #![trigger enc_meta_head(v).is_prefix_of(at(buf@, pos as int))]
                                                    enc_meta_head(v).is_prefix_of(at(buf@, pos as int)) implies (v.4 == x4.deep_view()
                                                    && enc_opt_primop(v.5).is_prefix_of(at(buf@, p4 as int))) by {
                                                    lemma_at_skip(buf@, p3 as int, (p4 - p3) as int);
                                                    
                                                }
                                            }
                                            match dec_opt_primop(buf, p4) {
                                                None => None,
                                                Some((x5, p5)) => {
                                                    let built = (x0, x1, x2, x3, x4, x5);
                                                    proof {
                                                        lemma_prefix_subrange(enc_str(x0.deep_view()), buf@, pos as int);
                                                        lemma_prefix_subrange(enc_path(x1.deep_view()), buf@, p0 as int);
                                                        lemma_prefix_subrange(enc_opt_paths(x2.deep_view()), buf@, p1 as int);
                                                        lemma_prefix_subrange(enc_opt_bool(x3.deep_view()), buf@, p2 as int);
                                                        lemma_prefix_subrange(enc_opt_bool(x4.deep_view()), buf@, p3 as int);
                                                        lemma_prefix_subrange(enc_opt_primop(x5.deep_view()), buf@, p4 as int);
                                                        lemma_subrange_concat(buf@, p3 as int, p4 as int, p5 as int);
                                                        lemma_subrange_concat(buf@, p2 as int, p3 as int, p5 as int);
                                                        lemma_subrange_concat(buf@, p1 as int, p2 as int, p5 as int);
                                                        lemma_subrange_concat(buf@, p0 as int, p1 as int, p5 as int);
                                                        lemma_subrange_concat(buf@, pos as int, p0 as int, p5 as int);
                                                        assert(enc_meta_head(built.deep_view()) =~= buf@.subrange(pos as int, p5 as int));
                                                        lemma_subrange_prefix(enc_meta_head(built.deep_view()), buf@, pos as int);
                                                    }
                                                    Some((built, p5))
                                                    },
                                                }
                                            },
                                        }
                                    },
                                }
                            },
                        }
                    },
                }
            },
        }
}

pub open spec fn enc_meta_tail(v: (Option<FilePositionV>, Option<Seq<char>>, Option<FilePositionV>, Option<Seq<char>>, Option<i64>, Option<SourceOriginV>, Option<Seq<char>>)) -> Seq<u8> {
    enc_opt_filepos(v.0) + (enc_opt_str(v.1) + (enc_opt_filepos(v.2) + (enc_opt_str(v.3) + (enc_opt_i64(v.4) + (enc_opt_origin(v.5) + (enc_opt_str(v.6)))))))
}

pub fn push_meta_tail(out: &mut Vec<u8>, v: &(Option<FilePosition>, Option<String>, Option<FilePosition>, Option<String>, Option<i64>, Option<SourceOrigin>, Option<String>))
    ensures
        final(out)@ == old(out)@ + enc_meta_tail(v.deep_view()),
{
    push_opt_filepos(out, &v.0);
    push_opt_str(out, &v.1);
    push_opt_filepos(out, &v.2);
    push_opt_str(out, &v.3);
    push_opt_i64(out, &v.4);
    push_opt_origin(out, &v.5);
    push_opt_str(out, &v.6);
    proof {
        lemma_concat_assoc(old(out)@ + enc_opt_filepos(v.0.deep_view()) + enc_opt_str(v.1.deep_view()) + enc_opt_filepos(v.2.deep_view()) + enc_opt_str(v.3.deep_view()) + enc_opt_i64(v.4.deep_view()), enc_opt_origin(v.5.deep_view()), enc_opt_str(v.6.deep_view()));
        lemma_concat_assoc(old(out)@ + enc_opt_filepos(v.0.deep_view()) + enc_opt_str(v.1.deep_view()) + enc_opt_filepos(v.2.deep_view()) + enc_opt_str(v.3.deep_view()), enc_opt_i64(v.4.deep_view()), enc_opt_origin(v.5.deep_view()) + (enc_opt_str(v.6.deep_view())));
        lemma_concat_assoc(old(out)@ + enc_opt_filepos(v.0.deep_view()) + enc_opt_str(v.1.deep_view()) + enc_opt_filepos(v.2.deep_view()), enc_opt_str(v.3.deep_view()), enc_opt_i64(v.4.deep_view()) + (enc_opt_origin(v.5.deep_view()) + (enc_opt_str(v.6.deep_view()))));
        lemma_concat_assoc(old(out)@ + enc_opt_filepos(v.0.deep_view()) + enc_opt_str(v.1.deep_view()), enc_opt_filepos(v.2.deep_view()), enc_opt_str(v.3.deep_view()) + (enc_opt_i64(v.4.deep_view()) + (enc_opt_origin(v.5.deep_view()) + (enc_opt_str(v.6.deep_view())))));
        lemma_concat_assoc(old(out)@ + enc_opt_filepos(v.0.deep_view()), enc_opt_str(v.1.deep_view()), enc_opt_filepos(v.2.deep_view()) + (enc_opt_str(v.3.deep_view()) + (enc_opt_i64(v.4.deep_view()) + (enc_opt_origin(v.5.deep_view()) + (enc_opt_str(v.6.deep_view()))))));
        lemma_concat_assoc(old(out)@, enc_opt_filepos(v.0.deep_view()), enc_opt_str(v.1.deep_view()) + (enc_opt_filepos(v.2.deep_view()) + (enc_opt_str(v.3.deep_view()) + (enc_opt_i64(v.4.deep_view()) + (enc_opt_origin(v.5.deep_view()) + (enc_opt_str(v.6.deep_view())))))));
        assert(out@ == old(out)@ + enc_meta_tail(v.deep_view()));
    }
}

#[verifier::rlimit(80)]
pub fn dec_meta_tail(buf: &Vec<u8>, pos: usize) -> (r: Option<((Option<FilePosition>, Option<String>, Option<FilePosition>, Option<String>, Option<i64>, Option<SourceOrigin>, Option<String>), usize)>)
    requires
        pos <= buf@.len(),
    ensures
        r matches Some(p) ==> pos <= p.1 <= buf@.len() && p.1 == pos + enc_meta_tail(
            p.0.deep_view(),
        ).len() && enc_meta_tail(p.0.deep_view()).is_prefix_of(at(buf@, pos as int)),
        forall|v: (Option<FilePositionV>, Option<Seq<char>>, Option<FilePositionV>, Option<Seq<char>>, Option<i64>, Option<SourceOriginV>, Option<Seq<char>>)| #![trigger enc_meta_tail(v).is_prefix_of(at(buf@, pos as int))]
            enc_meta_tail(v).is_prefix_of(at(buf@, pos as int)) ==> (r matches Some(p)
                && p.0.deep_view() == v && p.1 == pos + enc_meta_tail(v).len()),
{
    proof {
        assert forall|v: (Option<FilePositionV>, Option<Seq<char>>, Option<FilePositionV>, Option<Seq<char>>, Option<i64>, Option<SourceOriginV>, Option<Seq<char>>)| #![trigger enc_meta_tail(v).is_prefix_of(at(buf@, pos as int))]
            enc_meta_tail(v).is_prefix_of(at(buf@, pos as int)) implies (enc_opt_filepos(v.0).is_prefix_of(at(buf@, pos as int)) && (enc_opt_str(v.1) + (enc_opt_filepos(v.2) + (enc_opt_str(v.3) + (enc_opt_i64(v.4) + (enc_opt_origin(v.5) + (enc_opt_str(v.6))))))).is_prefix_of(at(buf@, pos as int).skip(enc_opt_filepos(v.0).len() as int))) by {
            lemma_prefix_split(enc_opt_filepos(v.0), enc_opt_str(v.1) + (enc_opt_filepos(v.2) + (enc_opt_str(v.3) + (enc_opt_i64(v.4) + (enc_opt_origin(v.5) + (enc_opt_str(v.6)))))), at(buf@, pos as int));
        }
    }
    match dec_opt_filepos(buf, pos) {
        None => None,
        Some((x0, p0)) => {
            proof {
                assert forall|v: (Option<FilePositionV>, Option<Seq<char>>, Option<FilePositionV>, Option<Seq<char>>, Option<i64>, Option<SourceOriginV>, Option<Seq<char>>)| #![trigger enc_meta_tail(v).is_prefix_of(at(buf@, pos as int))]
                    enc_meta_tail(v).is_prefix_of(at(buf@, pos as int)) implies (v.0 == x0.deep_view()
                    && enc_opt_str(v.1).is_prefix_of(at(buf@, p0 as int)) && (enc_opt_filepos(v.2) + (enc_opt_str(v.3) + (enc_opt_i64(v.4) + (enc_opt_origin(v.5) + (enc_opt_str(v.6)))))).is_prefix_of(at(buf@, p0 as int).skip(enc_opt_str(v.1).len() as int))) by {
                    lemma_at_skip(buf@, pos as int, (p0 - pos) as int);
                    lemma_prefix_split(enc_opt_str(v.1), enc_opt_filepos(v.2) + (enc_opt_str(v.3) + (enc_opt_i64(v.4) + (enc_opt_origin(v.5) + (enc_opt_str(v.6))))), at(buf@, p0 as int));
                }
            }
            match dec_opt_str(buf, p0) {
                None => None,
                Some((x1, p1)) => {
                    proof {
                        assert forall|v: (Option<FilePositionV>, Option<Seq<char>>, Option<FilePositionV>, Option<Seq<char>>, Option<i64>, Option<SourceOriginV>, Option<Seq<char>>)| #![trigger enc_meta_tail(v).is_prefix_of(at(buf@, pos as int))]
                            enc_meta_tail(v).is_prefix_of(at(buf@, pos as int)) implies (v.1 == x1.deep_view()
                            && enc_opt_filepos(v.2).is_prefix_of(at(buf@, p1 as int)) && (enc_opt_str(v.3) + (enc_opt_i64(v.4) + (enc_opt_origin(v.5) + (enc_opt_str(v.6))))).is_prefix_of(at(buf@, p1 as int).skip(enc_opt_filepos(v.2).len() as int))) by {
                            lemma_at_skip(buf@, p0 as int, (p1 - p0) as int);
                            lemma_prefix_split(enc_opt_filepos(v.2), enc_opt_str(v.3) + (enc_opt_i64(v.4) + (enc_opt_origin(v.5) + (enc_opt_str(v.6)))), at(buf@, p1 as int));
                        }
                    }
                    match dec_opt_filepos(buf, p1) {
                        None => None,
                        Some((x2, p2)) => {
                            proof {
                                assert forall|v: (Option<FilePositionV>, Option<Seq<char>>, Option<FilePositionV>, Option<Seq<char>>, Option<i64>, Option<SourceOriginV>, Option<Seq<char>>)| #![trigger enc_meta_tail(v).is_prefix_of(at(buf@, pos as int))]
                                    enc_meta_tail(v).is_prefix_of(at(buf@, pos as int)) implies (v.2 == x2.deep_view()
                                    && enc_opt_str(v.3).is_prefix_of(at(buf@, p2 as int)) && (enc_opt_i64(v.4) + (enc_opt_origin(v.5) + (enc_opt_str(v.6)))).is_prefix_of(at(buf@, p2 as int).skip(enc_opt_str(v.3).len() as int))) by {
                                    lemma_at_skip(buf@, p1 as int, (p2 - p1) as int);
                                    lemma_prefix_split(enc_opt_str(v.3), enc_opt_i64(v.4) + (enc_opt_origin(v.5) + (enc_opt_str(v.6))), at(buf@, p2 as int));
                                }
                            }
                            match dec_opt_str(buf, p2) {
                                None => None,
                                Some((x3, p3)) => {
                                    proof {
                                        assert forall|v: (Option<FilePositionV>, Option<Seq<char>>, Option<FilePositionV>, Option<Seq<char>>, Option<i64>, Option<SourceOriginV>, Option<Seq<char>>)| #![trigger enc_meta_tail(v).is_prefix_of(at(buf@, pos as int))]
                                            enc_meta_tail(v).is_prefix_of(at(buf@, pos as int)) implies (v.3 == x3.deep_view()
                                            && enc_opt_i64(v.4).is_prefix_of(at(buf@, p3 as int)) && (enc_opt_origin(v.5) + (enc_opt_str(v.6))).is_prefix_of(at(buf@, p3 as int).skip(enc_opt_i64(v.4).len() as int))) by {
                                            lemma_at_skip(buf@, p2 as int, (p3 - p2) as int);
                                            lemma_prefix_split(enc_opt_i64(v.4), enc_opt_origin(v.5) + (enc_opt_str(v.6)), at(buf@, p3 as int));
                                        }
                                    }
                                    match dec_opt_i64(buf, p3) {
                                        None => None,
                                        Some((x4, p4)) => {
                                            proof {
                                                assert forall|v: (Option<FilePositionV>, Option<Seq<char>>, Option<FilePositionV>, Option<Seq<char>>, Option<i64>, Option<SourceOriginV>, Option<Seq<char>>)| #![trigger enc_meta_tail(v).is_prefix_of(at(buf@, pos as int))]
                                                    enc_meta_tail(v).is_prefix_of(at(buf@, pos as int)) implies (v.4 == x4.deep_view()
                                                    && enc_opt_origin(v.5).is_prefix_of(at(buf@, p4 as int)) && (enc_opt_str(v.6)).is_prefix_of(at(buf@, p4 as int).skip(enc_opt_origin(v.5).len() as int))) by {
                                                    lemma_at_skip(buf@, p3 as int, (p4 - p3) as int);
                                                    lemma_prefix_split(enc_opt_origin(v.5), enc_opt_str(v.6), at(buf@, p4 as int));
                                                }
                                            }
                                            match dec_opt_origin(buf, p4) {
                                                None => None,
                                                Some((x5, p5)) => {
                                                    proof {
                                                        assert forall|v: (Option<FilePositionV>, Option<Seq<char>>, Option<FilePositionV>, Option<Seq<char>>, Option<i64>, Option<SourceOriginV>, Option<Seq<char>>)| #![trigger enc_meta_tail(v).is_prefix_of(at(buf@, pos as int))]
                                                            enc_meta_tail(v).is_prefix_of(at(buf@, pos as int)) implies (v.5 == x5.deep_view()
                                                            && enc_opt_str(v.6).is_prefix_of(at(buf@, p5 as int))) by {
                                                            lemma_at_skip(buf@, p4 as int, (p5 - p4) as int);
                                                            
                                                        }
                                                    }
                                                    match dec_opt_str(buf, p5) {
                                                        None => None,
                                                        Some((x6, p6)) => {
                                                            let built = (x0, x1, x2, x3, x4, x5, x6);
                                                            proof {
                                                                lemma_prefix_subrange(enc_opt_filepos(x0.deep_view()), buf@, pos as int);
                                                                lemma_prefix_subrange(enc_opt_str(x1.deep_view()), buf@, p0 as int);
                                                                lemma_prefix_subrange(enc_opt_filepos(x2.deep_view()), buf@, p1 as int);
                                                                lemma_prefix_subrange(enc_opt_str(x3.deep_view()), buf@, p2 as int);
                                                                lemma_prefix_subrange(enc_opt_i64(x4.deep_view()), buf@, p3 as int);
                                                                lemma_prefix_subrange(enc_opt_origin(x5.deep_view()), buf@, p4 as int);
                                                                lemma_prefix_subrange(enc_opt_str(x6.deep_view()), buf@, p5 as int);
                                                                lemma_subrange_concat(buf@, p4 as int, p5 as int, p6 as int);
                                                                lemma_subrange_concat(buf@, p3 as int, p4 as int, p6 as int);
                                                                lemma_subrange_concat(buf@, p2 as int, p3 as int, p6 as int);
                                                                lemma_subrange_concat(buf@, p1 as int, p2 as int, p6 as int);
                                                                lemma_subrange_concat(buf@, p0 as int, p1 as int, p6 as int);
                                                                lemma_subrange_concat(buf@, pos as int, p0 as int, p6 as int);
                                                                assert(enc_meta_tail(built.deep_view()) =~= buf@.subrange(pos as int, p6 as int));
                                                                lemma_subrange_prefix(enc_meta_tail(built.deep_view()), buf@, pos as int);
                                                            }
                                                            Some((built, p6))
                                                            },
                                                        }
                                                    },
                                                }
                                            },
                                        }
                                    },
                                }
                            },
                        }
                    },
                }
            },
        }
}

pub open spec fn meta_head_of(v: MetaV) -> (
    Seq<char>,
    Seq<Seq<char>>,
    Option<Seq<Seq<Seq<char>>>>,
    Option<bool>,
    Option<bool>,
    Option<PrimopMetaV>,
) {
    (v.title, v.path, v.aliases, v.is_primop, v.is_functor, v.primop_meta)
}

pub open spec fn meta_tail_of(v: MetaV) -> (
    Option<FilePositionV>,
    Option<Seq<char>>,
    Option<FilePositionV>,
    Option<Seq<char>>,
    Option<i64>,
    Option<SourceOriginV>,
    Option<Seq<char>>,
) {
    (
        v.attr_position,
        v.attr_expr,
        v.lambda_position,
        v.lambda_expr,
        v.count_applied,
        v.content_meta,
        v.signature,
    )
}

pub open spec fn enc_meta(v: MetaV) -> Seq<u8> {
    enc_meta_head(meta_head_of(v)) + enc_meta_tail(meta_tail_of(v))
}

pub fn push_meta(out: &mut Vec<u8>, v: &Meta)
    ensures
        final(out)@ == old(out)@ + enc_meta(v.deep_view()),
{
    push_str(out, v.title.as_str());
    push_path(out, &v.path);
    push_opt_paths(out, &v.aliases);
    push_opt_bool(out, &v.is_primop);
    push_opt_bool(out, &v.is_functor);
    push_opt_primop(out, &v.primop_meta);
    proof {
        lemma_concat_assoc(old(out)@ + enc_str(v.title@) + enc_path(v.path.deep_view()) + enc_opt_paths(v.aliases.deep_view()) + enc_opt_bool(v.is_primop.deep_view()), enc_opt_bool(v.is_functor.deep_view()), enc_opt_primop(v.primop_meta.deep_view()));
        lemma_concat_assoc(old(out)@ + enc_str(v.title@) + enc_path(v.path.deep_view()) + enc_opt_paths(v.aliases.deep_view()), enc_opt_bool(v.is_primop.deep_view()), enc_opt_bool(v.is_functor.deep_view()) + (enc_opt_primop(v.primop_meta.deep_view())));
        lemma_concat_assoc(old(out)@ + enc_str(v.title@) + enc_path(v.path.deep_view()), enc_opt_paths(v.aliases.deep_view()), enc_opt_bool(v.is_primop.deep_view()) + (enc_opt_bool(v.is_functor.deep_view()) + (enc_opt_primop(v.primop_meta.deep_view()))));
        lemma_concat_assoc(old(out)@ + enc_str(v.title@), enc_path(v.path.deep_view()), enc_opt_paths(v.aliases.deep_view()) + (enc_opt_bool(v.is_primop.deep_view()) + (enc_opt_bool(v.is_functor.deep_view()) + (enc_opt_primop(v.primop_meta.deep_view())))));
        lemma_concat_assoc(old(out)@, enc_str(v.title@), enc_path(v.path.deep_view()) + (enc_opt_paths(v.aliases.deep_view()) + (enc_opt_bool(v.is_primop.deep_view()) + (enc_opt_bool(v.is_functor.deep_view()) + (enc_opt_primop(v.primop_meta.deep_view()))))));
        assert(out@ == old(out)@ + enc_meta_head(meta_head_of(v.deep_view())));
    }
    push_opt_filepos(out, &v.attr_position);
    push_opt_str(out, &v.attr_expr);
    push_opt_filepos(out, &v.lambda_position);
    push_opt_str(out, &v.lambda_expr);
    push_opt_i64(out, &v.count_applied);
    push_opt_origin(out, &v.content_meta);
    push_opt_str(out, &v.signature);
    proof {
        lemma_concat_assoc(old(out)@ + enc_meta_head(meta_head_of(v.deep_view())) + enc_opt_filepos(v.attr_position.deep_view()) + enc_opt_str(v.attr_expr.deep_view()) + enc_opt_filepos(v.lambda_position.deep_view()) + enc_opt_str(v.lambda_expr.deep_view()) + enc_opt_i64(v.count_applied.deep_view()), enc_opt_origin(v.content_meta.deep_view()), enc_opt_str(v.signature.deep_view()));
        lemma_concat_assoc(old(out)@ + enc_meta_head(meta_head_of(v.deep_view())) + enc_opt_filepos(v.attr_position.deep_view()) + enc_opt_str(v.attr_expr.deep_view()) + enc_opt_filepos(v.lambda_position.deep_view()) + enc_opt_str(v.lambda_expr.deep_view()), enc_opt_i64(v.count_applied.deep_view()), enc_opt_origin(v.content_meta.deep_view()) + (enc_opt_str(v.signature.deep_view())));
        lemma_concat_assoc(old(out)@ + enc_meta_head(meta_head_of(v.deep_view())) + enc_opt_filepos(v.attr_position.deep_view()) + enc_opt_str(v.attr_expr.deep_view()) + enc_opt_filepos(v.lambda_position.deep_view()), enc_opt_str(v.lambda_expr.deep_view()), enc_opt_i64(v.count_applied.deep_view()) + (enc_opt_origin(v.content_meta.deep_view()) + (enc_opt_str(v.signature.deep_view()))));
        lemma_concat_assoc(old(out)@ + enc_meta_head(meta_head_of(v.deep_view())) + enc_opt_filepos(v.attr_position.deep_view()) + enc_opt_str(v.attr_expr.deep_view()), enc_opt_filepos(v.lambda_position.deep_view()), enc_opt_str(v.lambda_expr.deep_view()) + (enc_opt_i64(v.count_applied.deep_view()) + (enc_opt_origin(v.content_meta.deep_view()) + (enc_opt_str(v.signature.deep_view())))));
        lemma_concat_assoc(old(out)@ + enc_meta_head(meta_head_of(v.deep_view())) + enc_opt_filepos(v.attr_position.deep_view()), enc_opt_str(v.attr_expr.deep_view()), enc_opt_filepos(v.lambda_position.deep_view()) + (enc_opt_str(v.lambda_expr.deep_view()) + (enc_opt_i64(v.count_applied.deep_view()) + (enc_opt_origin(v.content_meta.deep_view()) + (enc_opt_str(v.signature.deep_view()))))));
        lemma_concat_assoc(old(out)@ + enc_meta_head(meta_head_of(v.deep_view())), enc_opt_filepos(v.attr_position.deep_view()), enc_opt_str(v.attr_expr.deep_view()) + (enc_opt_filepos(v.lambda_position.deep_view()) + (enc_opt_str(v.lambda_expr.deep_view()) + (enc_opt_i64(v.count_applied.deep_view()) + (enc_opt_origin(v.content_meta.deep_view()) + (enc_opt_str(v.signature.deep_view())))))));
        assert(out@ == old(out)@ + enc_meta_head(meta_head_of(v.deep_view())) + enc_meta_tail(
            meta_tail_of(v.deep_view()),
        ));
        lemma_concat_assoc(
            old(out)@,
            enc_meta_head(meta_head_of(v.deep_view())),
            enc_meta_tail(meta_tail_of(v.deep_view())),
        );
        assert(out@ == old(out)@ + enc_meta(v.deep_view()));
    }
}

pub fn dec_meta(buf: &Vec<u8>, pos: usize) -> (r: Option<(Meta, usize)>)
    requires
        pos <= buf@.len(),
    ensures
        r matches Some(p) ==> pos <= p.1 <= buf@.len() && p.1 == pos + enc_meta(
            p.0.deep_view(),
        ).len() && enc_meta(p.0.deep_view()).is_prefix_of(at(buf@, pos as int)),
        forall|v: MetaV| #![trigger enc_meta(v).is_prefix_of(at(buf@, pos as int))]
            enc_meta(v).is_prefix_of(at(buf@, pos as int)) ==> (r matches Some(p)
                && p.0.deep_view() == v && p.1 == pos + enc_meta(v).len()),
{
    proof {
        assert forall|v: MetaV| #![trigger enc_meta(v).is_prefix_of(at(buf@, pos as int))]
            enc_meta(v).is_prefix_of(at(buf@, pos as int)) implies (enc_meta_head(
            meta_head_of(v),
        ).is_prefix_of(at(buf@, pos as int)) && enc_meta_tail(meta_tail_of(v)).is_prefix_of(
            at(buf@, pos as int).skip(enc_meta_head(meta_head_of(v)).len() as int),
        )) by {
            lemma_prefix_split(
                enc_meta_head(meta_head_of(v)),
                enc_meta_tail(meta_tail_of(v)),
                at(buf@, pos as int),
            );
        }
    }
    match dec_meta_head(buf, pos) {
        None => None,
        Some((h, p0)) => {
            proof {
                assert forall|v: MetaV| #![trigger enc_meta(v).is_prefix_of(at(buf@, pos as int))]
                    enc_meta(v).is_prefix_of(at(buf@, pos as int)) implies (meta_head_of(v)
                    == h.deep_view() && enc_meta_tail(meta_tail_of(v)).is_prefix_of(
                    at(buf@, p0 as int),
                )) by {
                    lemma_at_skip(buf@, pos as int, (p0 - pos) as int);
                }
            }
            match dec_meta_tail(buf, p0) {
                None => None,
                Some((t, p1)) => {
                    let built = Meta {
                        title: h.0,
                        path: h.1,
                        aliases: h.2,
                        is_primop: h.3,
                        is_functor: h.4,
                        primop_meta: h.5,
                        attr_position: t.0,
                        attr_expr: t.1,
                        lambda_position: t.2,
                        lambda_expr: t.3,
                        count_applied: t.4,
                        content_meta: t.5,
                        signature: t.6,
                    };
                    proof {
                        assert(meta_head_of(built.deep_view()) == h.deep_view());
                        assert(meta_tail_of(built.deep_view()) == t.deep_view());
                        lemma_prefix_subrange(enc_meta_head(h.deep_view()), buf@, pos as int);
                        lemma_prefix_subrange(enc_meta_tail(t.deep_view()), buf@, p0 as int);
                        lemma_subrange_concat(buf@, pos as int, p0 as int, p1 as int);
                        assert(enc_meta(built.deep_view()) =~= buf@.subrange(
                            pos as int,
                            p1 as int,
                        ));
                        lemma_subrange_prefix(enc_meta(built.deep_view()), buf@, pos as int);
                    }
                    Some((built, p1))
                },
            }
        },
    }
}

pub open spec fn enc_doc(v: DocV) -> Seq<u8> {
    enc_meta(v.meta) + (enc_opt_content(v.content))
}

pub fn push_doc(out: &mut Vec<u8>, v: &Doc)
    ensures
        final(out)@ == old(out)@ + enc_doc(v.deep_view()),
{
    push_meta(out, &v.meta);
    push_opt_content(out, &v.content);
    proof {
        assert(out@ =~= old(out)@ + enc_doc(v.deep_view()));
    }
}

pub fn dec_doc(buf: &Vec<u8>, pos: usize) -> (r: Option<(Doc, usize)>)
    requires
        pos <= buf@.len(),
    ensures
        r matches Some(p) ==> pos <= p.1 <= buf@.len() && p.1 == pos + enc_doc(
            p.0.deep_view(),
        ).len() && enc_doc(p.0.deep_view()).is_prefix_of(at(buf@, pos as int)),
        forall|v: DocV| #![trigger enc_doc(v).is_prefix_of(at(buf@, pos as int))]
            enc_doc(v).is_prefix_of(at(buf@, pos as int)) ==> (r matches Some(p)
                && p.0.deep_view() == v && p.1 == pos + enc_doc(v).len()),
{
    proof {
        assert forall|v: DocV| #![trigger enc_doc(v).is_prefix_of(at(buf@, pos as int))]
            enc_doc(v).is_prefix_of(at(buf@, pos as int)) implies (enc_meta(v.meta).is_prefix_of(at(buf@, pos as int)) && (enc_opt_content(v.content)).is_prefix_of(at(buf@, pos as int).skip(enc_meta(v.meta).len() as int))) by {
            lemma_prefix_split(enc_meta(v.meta), enc_opt_content(v.content), at(buf@, pos as int));
        }
    }
    match dec_meta(buf, pos) {
        None => None,
        Some((x0, p0)) => {
            proof {
                assert forall|v: DocV| #![trigger enc_doc(v).is_prefix_of(at(buf@, pos as int))]
                    enc_doc(v).is_prefix_of(at(buf@, pos as int)) implies (v.meta == x0.deep_view()
                    && enc_opt_content(v.content).is_prefix_of(at(buf@, p0 as int))) by {
                    lemma_at_skip(buf@, pos as int, (p0 - pos) as int);
                    
                }
            }
            match dec_opt_content(buf, p0) {
                None => None,
                Some((x1, p1)) => {
                    let built = Doc { meta: x0, content: x1 };
                    proof {
                        lemma_prefix_subrange(enc_meta(x0.deep_view()), buf@, pos as int);
                        lemma_prefix_subrange(enc_opt_content(x1.deep_view()), buf@, p0 as int);
                        lemma_subrange_concat(buf@, pos as int, p0 as int, p1 as int);
                        assert(enc_doc(built.deep_view()) =~= buf@.subrange(pos as int, p1 as int));
                        lemma_subrange_prefix(enc_doc(built.deep_view()), buf@, pos as int);
                    }
                    Some((built, p1))
                    },
                }
            },
        }
}


// ---------------------------------------------------------------------
// Entry sequences and the portable archive format
// ---------------------------------------------------------------------

/// The byte buffer does not conform to the expected archive encoding.
#[derive(Clone, Copy, Debug, PartialEq, Eq, Structural)]
pub struct FormatError;

pub open spec fn enc_entries(v: Seq<DocV>) -> Seq<u8>
    decreases v.len(),
{
    if v.len() == 0 {
        Seq::empty()
    } else {
        enc_doc(v[0]) + enc_entries(v.drop_first())
    }
}

pub proof fn lemma_enc_entries_push(v: Seq<DocV>, x: DocV)
    ensures
        enc_entries(v.push(x)) == enc_entries(v) + enc_doc(x),
    decreases v.len(),
{
    if v.len() == 0 {
        let w = v.push(x);
        assert(w[0] == x);
        assert(w.drop_first() =~= Seq::<DocV>::empty());
        assert(enc_entries(w.drop_first()) == Seq::<u8>::empty());
        assert(enc_entries(w) == enc_doc(x) + enc_entries(w.drop_first()));
        assert(enc_entries(v) == Seq::<u8>::empty());
        assert(enc_entries(v.push(x)) =~= enc_entries(v) + enc_doc(x));
    } else {
        assert(v.push(x).drop_first() =~= v.drop_first().push(x));
        lemma_enc_entries_push(v.drop_first(), x);
        assert(v.push(x)[0] == v[0]);
        assert(enc_entries(v.push(x)) =~= enc_entries(v) + enc_doc(x));
    }
}

pub proof fn lemma_enc_entries_len(v: Seq<DocV>)
    ensures
        enc_entries(v).len() >= 8 * v.len(),
    decreases v.len(),
{
    if v.len() > 0 {
        lemma_enc_entries_len(v.drop_first());
        assert(enc_doc(v[0]).len() >= 8);
    }
}

pub proof fn lemma_enc_entries_split(v: Seq<DocV>, i: int)
    requires
        0 <= i <= v.len(),
    ensures
        enc_entries(v) == enc_entries(v.take(i)) + enc_entries(v.skip(i)),
    decreases i,
{
    if i == 0 {
        assert(v.take(0) =~= Seq::<DocV>::empty());
        assert(v.skip(0) =~= v);
        assert(enc_entries(v.take(0)) == Seq::<u8>::empty());
        assert(enc_entries(v) =~= enc_entries(v.take(0)) + enc_entries(v.skip(0)));
    } else {
        lemma_enc_entries_split(v.drop_first(), i - 1);
        assert(v.drop_first().take(i - 1) =~= v.take(i).drop_first());
        assert(v.drop_first().skip(i - 1) =~= v.skip(i));
        assert(v.take(i)[0] == v[0]);
        assert(enc_entries(v.take(i)) == enc_doc(v[0]) + enc_entries(v.take(i).drop_first()));
        lemma_concat_assoc(
            enc_doc(v[0]),
            enc_entries(v.take(i).drop_first()),
            enc_entries(v.skip(i)),
        );
    }
}

pub fn push_entries(out: &mut Vec<u8>, v: &Vec<Doc>)
    ensures
        final(out)@ == old(out)@ + enc_entries(v.deep_view()),
{
    let n = v.len();
    let mut i: usize = 0;
    while i < n
        invariant
            n == v@.len(),
            i <= n,
            out@ == old(out)@ + enc_entries(v.deep_view().take(i as int)),
        decreases n - i,
    {
        push_doc(out, &v[i]);
        proof {
            let d = v.deep_view();
            assert(d.take(i + 1) =~= d.take(i as int).push(d[i as int]));
            lemma_enc_entries_push(d.take(i as int), d[i as int]);
            assert(d[i as int] == v@[i as int].deep_view());
            assert(out@ =~= old(out)@ + enc_entries(d.take(i + 1)));
        }
        i = i + 1;
    }
    proof {
        assert(v.deep_view().take(n as int) =~= v.deep_view());
    }
}

#[verifier::rlimit(100)]
pub fn dec_entries(buf: &Vec<u8>, pos: usize, n: u64) -> (r: Option<(Vec<Doc>, usize)>)
    requires
        pos <= buf@.len(),
    ensures
        r matches Some(p) ==> pos <= p.1 <= buf@.len() && p.0.deep_view().len() == n as nat
            && p.1 == pos + enc_entries(p.0.deep_view()).len() && enc_entries(
            p.0.deep_view(),
        ).is_prefix_of(at(buf@, pos as int)),
        forall|v: Seq<DocV>| #![trigger enc_entries(v).is_prefix_of(at(buf@, pos as int))]
            v.len() == n as nat && enc_entries(v).is_prefix_of(at(buf@, pos as int)) ==> (
            r matches Some(p) && p.0.deep_view() == v && p.1 == pos + enc_entries(v).len()),
{
    let blen = buf.len();
    let mut acc: Vec<Doc> = Vec::new();
    let mut cur: usize = pos;
    let mut i: u64 = 0;
    proof {
        assert(acc.deep_view() =~= Seq::<DocV>::empty());
        assert(buf@.subrange(pos as int, pos as int) =~= Seq::<u8>::empty());
        assert(enc_entries(acc.deep_view()) == Seq::<u8>::empty());
        assert forall|v: Seq<DocV>| #![trigger enc_entries(v).is_prefix_of(at(buf@, pos as int))]
            v.len() == n as nat && enc_entries(v).is_prefix_of(at(buf@, pos as int)) implies
            v.take(0) == acc.deep_view() && enc_entries(v.skip(0)).is_prefix_of(
            at(buf@, pos as int),
        ) by {
            assert(v.skip(0) =~= v);
            assert(v.take(0) =~= acc.deep_view());
        }
    }
    while i < n
        invariant
            blen == buf@.len(),
            pos <= cur <= blen,
            i <= n,
            acc.deep_view().len() == i as nat,
            buf@.subrange(pos as int, cur as int) == enc_entries(acc.deep_view()),
            forall|v: Seq<DocV>| #![trigger enc_entries(v).is_prefix_of(at(buf@, pos as int))]
                v.len() == n as nat && enc_entries(v).is_prefix_of(at(buf@, pos as int)) ==>
                v.take(i as int) == acc.deep_view() && enc_entries(v.skip(i as int)).is_prefix_of(
                at(buf@, cur as int)),
        decreases n - i,
    {
        proof {
            assert forall|v: Seq<DocV>| #![trigger enc_entries(v).is_prefix_of(at(buf@, pos as int))]
                v.len() == n as nat && enc_entries(v).is_prefix_of(at(buf@, pos as int)) implies
                enc_doc(v[i as int]).is_prefix_of(at(buf@, cur as int)) by {
                let rest = v.skip(i as int);
                assert(rest.len() > 0);
                assert(rest[0] == v[i as int]);
                lemma_prefix_split(
                    enc_doc(rest[0]),
                    enc_entries(rest.drop_first()),
                    at(buf@, cur as int),
                );
            }
        }
        match dec_doc(buf, cur) {
            None => {
                return None;
            },
            Some((d, p2)) => {
                proof {
                    let accd = acc.deep_view();
                    lemma_prefix_subrange(enc_doc(d.deep_view()), buf@, cur as int);
                    lemma_subrange_concat(buf@, pos as int, cur as int, p2 as int);
                    lemma_enc_entries_push(accd, d.deep_view());
                    assert forall|v: Seq<DocV>| #![trigger enc_entries(v).is_prefix_of(at(buf@, pos as int))]
                        v.len() == n as nat && enc_entries(v).is_prefix_of(at(buf@, pos as int))
                        implies v.take(i + 1) == accd.push(d.deep_view()) && enc_entries(
                        v.skip(i + 1),
                    ).is_prefix_of(at(buf@, p2 as int)) by {
                        let rest = v.skip(i as int);
                        assert(rest[0] == v[i as int]);
                        lemma_prefix_split(
                            enc_doc(rest[0]),
                            enc_entries(rest.drop_first()),
                            at(buf@, cur as int),
                        );
                        assert(v[i as int] == d.deep_view());
                        assert(v.take(i + 1) =~= v.take(i as int).push(v[i as int]));
                        assert(rest.drop_first() =~= v.skip(i + 1));
                        lemma_at_skip(buf@, cur as int, enc_doc(d.deep_view()).len() as int);
                    }
                }
                let ghost pre = acc.deep_view();
                let ghost dv = d.deep_view();
                acc.push(d);
                proof {
                    assert(acc.deep_view() =~= pre.push(dv));
                }
                cur = p2;
                i = i + 1;
            },
        }
    }
    proof {
        let accd = acc.deep_view();
        lemma_subrange_prefix(enc_entries(accd), buf@, pos as int);
        assert forall|v: Seq<DocV>| #![trigger enc_entries(v).is_prefix_of(at(buf@, pos as int))]
            v.len() == n as nat && enc_entries(v).is_prefix_of(at(buf@, pos as int)) implies v
            == accd by {
            assert(v.take(i as int) =~= v);
        }
    }
    Some((acc, cur))
}

/// The portable archive: a format byte, the entry count, then every
/// entry's encoding. Fully self-describing; decoded before any access.
pub open spec fn enc_portable(v: Seq<DocV>) -> Seq<u8> {
    enc_u8(1u8) + (enc_u64(v.len() as u64) + enc_entries(v))
}

/// Encodes a corpus in the portable format. Always succeeds.
pub fn encode_portable(docs: &Docs) -> (r: Vec<u8>)
    ensures
        r@ == enc_portable(docs.deep_view()),
{
    let mut out: Vec<u8> = Vec::new();
    push_u8(&mut out, 1);
    push_u64(&mut out, docs.0.len() as u64);
    push_entries(&mut out, &docs.0);
    proof {
        lemma_concat_assoc(
            Seq::<u8>::empty() + enc_u8(1u8),
            enc_u64(docs.0.deep_view().len() as u64),
            enc_entries(docs.0.deep_view()),
        );
        lemma_concat_assoc(
            Seq::<u8>::empty(),
            enc_u8(1u8),
            enc_u64(docs.0.deep_view().len() as u64) + enc_entries(docs.0.deep_view()),
        );
        assert(Seq::<u8>::empty() + enc_portable(docs.deep_view()) =~= enc_portable(
            docs.deep_view(),
        ));
    }
    out
}

/// Decodes a portable archive. Returns the corpus exactly when the
/// buffer is, in full, the portable encoding of one; any truncated,
/// trailing-garbage or otherwise malformed buffer yields a FormatError.
pub fn decode_portable(bytes: &Vec<u8>) -> (r: Result<Docs, FormatError>)
    ensures
        r matches Ok(d) ==> bytes@ == enc_portable(d.deep_view()),
        forall|v: Seq<DocV>| #[trigger] enc_portable(v) == bytes@ ==> (r matches Ok(d)
            && d.deep_view() == v),
{
    let blen = bytes.len();
    proof {
        assert(at(bytes@, 0) =~= bytes@);
        assert forall|v: Seq<DocV>| #[trigger] enc_portable(v) == bytes@ implies (enc_u8(
            1u8,
        ).is_prefix_of(at(bytes@, 0)) && enc_u64(v.len() as u64).is_prefix_of(at(bytes@, 1))
            && enc_entries(v).is_prefix_of(at(bytes@, 9)) && v.len() < 0x1_0000_0000_0000_0000
            && 9 + enc_entries(v).len() == bytes@.len()) by {
            assert(enc_portable(v).is_prefix_of(at(bytes@, 0)));
            lemma_prefix_split(
                enc_u8(1u8),
                enc_u64(v.len() as u64) + enc_entries(v),
                at(bytes@, 0),
            );
            lemma_at_skip(bytes@, 0, 1);
            lemma_prefix_split(enc_u64(v.len() as u64), enc_entries(v), at(bytes@, 1));
            lemma_at_skip(bytes@, 1, 8);
            lemma_enc_entries_len(v);
        }
    }
    match dec_u8(bytes, 0) {
        None => Err(FormatError),
        Some((magic, p0)) => {
            if magic != 1 {
                return Err(FormatError);
            }
            match dec_u64(bytes, p0) {
                None => Err(FormatError),
                Some((n, p1)) => {
                    match dec_entries(bytes, p1, n) {
                        None => Err(FormatError),
                        Some((entries, p2)) => {
                            if p2 == blen {
                                let d = Docs(entries);
                                proof {
                                    lemma_prefix_subrange(enc_u8(1u8), bytes@, 0);
                                    lemma_prefix_subrange(enc_u64(n), bytes@, 1);
                                    lemma_prefix_subrange(
                                        enc_entries(d.deep_view()),
                                        bytes@,
                                        9,
                                    );
                                    lemma_subrange_concat(bytes@, 1, 9, p2 as int);
                                    lemma_subrange_concat(bytes@, 0, 1, p2 as int);
                                    assert(bytes@.subrange(0, p2 as int) =~= bytes@);
                                    assert(enc_portable(d.deep_view()) =~= bytes@.subrange(
                                        0,
                                        p2 as int,
                                    ));
                                }
                                Ok(d)
                            } else {
                                Err(FormatError)
                            }
                        },
                    }
                },
            }
        },
    }
}

} // verus!
