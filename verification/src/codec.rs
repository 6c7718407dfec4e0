//! The snapshot format: a count of records, then each key and value as a
//! little-endian 8-byte length followed by its UTF-8 bytes. Decoding accepts
//! exactly the byte strings this encoding produces, and rejects truncated
//! input, invalid UTF-8 and trailing bytes.

use crate::database::pair_views;
use vstd::prelude::*;
use vstd::bytes::{
    lemma_auto_spec_u64_to_from_le_bytes, spec_u64_from_le_bytes, spec_u64_to_le_bytes,
    u64_from_le_bytes, u64_to_le_bytes,
};
use vstd::slice::{slice_subrange, slice_to_vec};
use vstd::utf8::{decode_utf8, encode_utf8, encode_utf8_valid_utf8, encode_utf8_decode_utf8, valid_utf8};

verus! {

/// The encoding of one string: its UTF-8 byte length as 8 little-endian
/// bytes, then its UTF-8 bytes.
pub open spec fn str_bytes(s: Seq<char>) -> Seq<u8> {
    spec_u64_to_le_bytes(encode_utf8(s).len() as u64) + encode_utf8(s)
}

/// The encoding of a sequence of key-value pairs, in order.
pub open spec fn pairs_bytes(v: Seq<(Seq<char>, Seq<char>)>) -> Seq<u8>
    decreases v.len(),
{
    if v.len() == 0 {
        Seq::empty()
    } else {
        str_bytes(v[0].0) + str_bytes(v[0].1) + pairs_bytes(v.drop_first())
    }
}

/// The whole snapshot: the pair count as 8 little-endian bytes, then the
/// encoded pairs.
pub open spec fn snapshot_bytes(v: Seq<(Seq<char>, Seq<char>)>) -> Seq<u8> {
    spec_u64_to_le_bytes(v.len() as u64) + pairs_bytes(v)
}

/// Reads one encoded string off the front of a byte string; `None` when the
/// input is too short or its payload is not valid UTF-8.
pub open spec fn dec_str(b: Seq<u8>) -> Option<(Seq<char>, Seq<u8>)> {
    if b.len() < 8 {
        Option::None
    } else {
        let n = spec_u64_from_le_bytes(b.subrange(0, 8)) as int;
        if b.len() - 8 < n {
            Option::None
        } else {
            let payload = b.subrange(8, 8 + n);
            if valid_utf8(payload) {
                Option::Some((decode_utf8(payload), b.subrange(8 + n, b.len() as int)))
            } else {
                Option::None
            }
        }
    }
}

/// Prepends already-decoded pairs to the outcome of decoding the remainder.
pub open spec fn prepend_dec(
    prefix: Seq<(Seq<char>, Seq<char>)>,
    r: Option<(Seq<(Seq<char>, Seq<char>)>, Seq<u8>)>,
) -> Option<(Seq<(Seq<char>, Seq<char>)>, Seq<u8>)> {
    match r {
        Option::None => Option::None,
        Option::Some(p) => Option::Some((prefix + p.0, p.1)),
    }
}

/// Reads `n` encoded pairs off the front of a byte string, yielding the
/// pairs and the bytes that follow them.
pub open spec fn dec_pairs(b: Seq<u8>, n: nat) -> Option<(Seq<(Seq<char>, Seq<char>)>, Seq<u8>)>
    decreases n,
{
    if n == 0 {
        Option::Some((Seq::empty(), b))
    } else {
        match dec_str(b) {
            Option::None => Option::None,
            Option::Some(kr) => match dec_str(kr.1) {
                Option::None => Option::None,
                Option::Some(vr) => prepend_dec(
                    seq![(kr.0, vr.0)],
                    dec_pairs(vr.1, (n - 1) as nat),
                ),
            },
        }
    }
}

/// Decodes a whole snapshot; `None` unless the bytes are exactly one count
/// followed by that many well-formed pairs.
pub open spec fn dec_snapshot(b: Seq<u8>) -> Option<Seq<(Seq<char>, Seq<char>)>> {
    if b.len() < 8 {
        Option::None
    } else {
        let n = spec_u64_from_le_bytes(b.subrange(0, 8));
        match dec_pairs(b.subrange(8, b.len() as int), n as nat) {
            Option::None => Option::None,
            Option::Some(pr) => if pr.1.len() == 0 {
                Option::Some(pr.0)
            } else {
                Option::None
            },
        }
    }
}

proof fn lemma_dec_str_of_enc(s: Seq<char>, rest: Seq<u8>)
    requires
        encode_utf8(s).len() < 0x1_0000_0000_0000_0000,
    ensures
        dec_str(str_bytes(s) + rest) == Option::Some((s, rest)),
{
    lemma_auto_spec_u64_to_from_le_bytes();
    broadcast use encode_utf8_valid_utf8, encode_utf8_decode_utf8;

    let e = encode_utf8(s);
    let lb = spec_u64_to_le_bytes(e.len() as u64);
    let b = str_bytes(s) + rest;
    assert(b.subrange(0, 8) =~= lb);
    assert(spec_u64_from_le_bytes(lb) == e.len() as u64);
    assert(b.subrange(8, 8 + e.len() as int) =~= e);
    assert(b.subrange(8 + e.len() as int, b.len() as int) =~= rest);
}

proof fn lemma_dec_pairs_of_enc(v: Seq<(Seq<char>, Seq<char>)>, rest: Seq<u8>)
    requires
        forall|i: int|
            0 <= i < v.len() ==> encode_utf8((#[trigger] v[i]).0).len() < 0x1_0000_0000_0000_0000
                && encode_utf8(v[i].1).len() < 0x1_0000_0000_0000_0000,
    ensures
        dec_pairs(pairs_bytes(v) + rest, v.len()) == Option::Some((v, rest)),
    decreases v.len(),
{
    if v.len() == 0 {
        assert(pairs_bytes(v) + rest =~= rest);
    } else {
        let k = v[0].0;
        let val = v[0].1;
        let tail = v.drop_first();
        assert(forall|i: int|
            0 <= i < tail.len() ==> (#[trigger] tail[i]) == v[i + 1]);
        let r2 = pairs_bytes(tail) + rest;
        let r1 = str_bytes(val) + r2;
        assert(pairs_bytes(v) + rest =~= str_bytes(k) + r1);
        lemma_dec_str_of_enc(k, r1);
        lemma_dec_str_of_enc(val, r2);
        lemma_dec_pairs_of_enc(tail, rest);
        assert(seq![(k, val)] + tail =~= v);
    }
}

/// Decoding inverts encoding: a snapshot of any pairs whose strings and
/// count fit the 8-byte lengths decodes to exactly those pairs.
pub proof fn lemma_snapshot_roundtrip(v: Seq<(Seq<char>, Seq<char>)>)
    requires
        v.len() < 0x1_0000_0000_0000_0000,
        forall|i: int|
            0 <= i < v.len() ==> encode_utf8((#[trigger] v[i]).0).len() < 0x1_0000_0000_0000_0000
                && encode_utf8(v[i].1).len() < 0x1_0000_0000_0000_0000,
    ensures
        dec_snapshot(snapshot_bytes(v)) == Option::Some(v),
{
    lemma_auto_spec_u64_to_from_le_bytes();
    let b = snapshot_bytes(v);
    assert(b.subrange(0, 8) =~= spec_u64_to_le_bytes(v.len() as u64));
    assert(b.subrange(8, b.len() as int) =~= pairs_bytes(v) + Seq::<u8>::empty());
    lemma_dec_pairs_of_enc(v, Seq::empty());
}

/// Relies on `String::from_utf8`: it succeeds exactly on valid UTF-8 input,
/// and the string it returns holds the decoding of those bytes.
#[verifier::external_body]
fn string_from_utf8(bytes: Vec<u8>) -> (r: Option<String>)
    ensures
        r matches Option::Some(s) ==> valid_utf8(bytes@) && s@ == decode_utf8(bytes@),
        r is None ==> !valid_utf8(bytes@),
{
    match String::from_utf8(bytes) {
        Ok(s) => Option::Some(s),
        Err(_) => Option::None,
    }
}

proof fn lemma_pairs_bytes_push(v: Seq<(Seq<char>, Seq<char>)>, p: (Seq<char>, Seq<char>))
    ensures
        pairs_bytes(v.push(p)) == pairs_bytes(v) + str_bytes(p.0) + str_bytes(p.1),
    decreases v.len(),
{
    let w = v.push(p);
    if v.len() == 0 {
        assert(w[0] == p);
        assert(w.drop_first() =~= Seq::<(Seq<char>, Seq<char>)>::empty());
        assert(pairs_bytes(w.drop_first()) == Seq::<u8>::empty());
        assert(str_bytes(p.0) + str_bytes(p.1) + Seq::<u8>::empty() =~= Seq::<u8>::empty()
            + str_bytes(p.0) + str_bytes(p.1));
    } else {
        assert(w[0] == v[0]);
        assert(w.drop_first() =~= v.drop_first().push(p));
        lemma_pairs_bytes_push(v.drop_first(), p);
        assert(str_bytes(v[0].0) + str_bytes(v[0].1) + (pairs_bytes(v.drop_first()) + str_bytes(
            p.0,
        ) + str_bytes(p.1)) =~= (str_bytes(v[0].0) + str_bytes(v[0].1) + pairs_bytes(
            v.drop_first(),
        )) + str_bytes(p.0) + str_bytes(p.1));
    }
}

/// Appends the encoding of one string, and notes that its UTF-8 length fits
/// the 8-byte length field.
fn push_str_bytes(out: &mut Vec<u8>, s: &str)
    ensures
        final(out)@ == old(out)@ + str_bytes(s@),
        encode_utf8(s@).len() < 0x1_0000_0000_0000_0000,
{
    let mut payload = s.as_bytes_vec();
    let n: u64 = payload.len() as u64;
    let mut lenb = u64_to_le_bytes(n);
    out.append(&mut lenb);
    out.append(&mut payload);
}

/// Encodes key-value pairs into one snapshot byte string, which decodes
/// back to exactly those pairs.
pub fn encode_entries(v: &Vec<(String, String)>) -> (r: Vec<u8>)
    ensures
        r@ == snapshot_bytes(pair_views(v@)),
        dec_snapshot(r@) == Option::Some(pair_views(v@)),
{
    let n = v.len();
    let mut out = u64_to_le_bytes(n as u64);
    let mut i: usize = 0;
    while i < n
        invariant
            0 <= i <= n,
            n == v@.len(),
            out@ == spec_u64_to_le_bytes(n as u64) + pairs_bytes(
                pair_views(v@).take(i as int),
            ),
            forall|j: int|
                0 <= j < i ==> encode_utf8((#[trigger] pair_views(v@)[j]).0).len()
                    < 0x1_0000_0000_0000_0000 && encode_utf8(pair_views(v@)[j].1).len()
                    < 0x1_0000_0000_0000_0000,
        decreases n - i,
    {
        let ghost pv = pair_views(v@);
        let ghost out0 = out@;
        push_str_bytes(&mut out, v[i].0.as_str());
        push_str_bytes(&mut out, v[i].1.as_str());
        proof {
            assert(pv[i as int] == (v@[i as int].0@, v@[i as int].1@));
            assert(pv.take(i + 1) =~= pv.take(i as int).push(pv[i as int]));
            lemma_pairs_bytes_push(pv.take(i as int), pv[i as int]);
            assert(out@ =~= spec_u64_to_le_bytes(n as u64) + pairs_bytes(pv.take(i + 1)));
        }
        i = i + 1;
    }
    proof {
        let pv = pair_views(v@);
        assert(pv.take(n as int) =~= pv);
        lemma_snapshot_roundtrip(pv);
    }
    out
}

/// Reads one encoded string at an offset, as `dec_str` describes on the
/// bytes from that offset on.
fn read_str(bytes: &[u8], pos: usize) -> (r: Option<(String, usize)>)
    requires
        pos <= bytes@.len(),
    ensures
        match r {
            Option::Some(sp) => pos < sp.1 <= bytes@.len() && dec_str(
                bytes@.subrange(pos as int, bytes@.len() as int),
            ) == Option::Some((sp.0@, bytes@.subrange(sp.1 as int, bytes@.len() as int))),
            Option::None => dec_str(bytes@.subrange(pos as int, bytes@.len() as int)) is None,
        },
{
    let n_total = bytes.len();
    let ghost b = bytes@.subrange(pos as int, n_total as int);
    if n_total - pos < 8 {
        return Option::None;
    }
    let lenb = slice_subrange(bytes, pos, pos + 8);
    proof {
        assert(lenb@ =~= b.subrange(0, 8));
    }
    let n64 = u64_from_le_bytes(lenb);
    let avail = n_total - pos - 8;
    if n64 > avail as u64 {
        return Option::None;
    }
    let n = n64 as usize;
    let payload_slice = slice_subrange(bytes, pos + 8, pos + 8 + n);
    let payload = slice_to_vec(payload_slice);
    proof {
        assert(payload@ =~= b.subrange(8, 8 + n as int));
    }
    match string_from_utf8(payload) {
        Option::Some(s) => {
            proof {
                assert(b.subrange(8 + n as int, b.len() as int) =~= bytes@.subrange(
                    (pos + 8 + n) as int,
                    n_total as int,
                ));
            }
            Option::Some((s, pos + 8 + n))
        },
        Option::None => Option::None,
    }
}

/// Decodes a snapshot byte string back into its key-value pairs, as
/// `dec_snapshot` describes.
pub fn decode_entries(bytes: &[u8]) -> (r: Option<Vec<(String, String)>>)
    ensures
        match r {
            Option::Some(v) => dec_snapshot(bytes@) == Option::Some(pair_views(v@)),
            Option::None => dec_snapshot(bytes@) is None,
        },
{
    let n_total = bytes.len();
    if n_total < 8 {
        return Option::None;
    }
    let cntb = slice_subrange(bytes, 0, 8);
    proof {
        assert(cntb@ =~= bytes@.subrange(0, 8));
    }
    let cnt = u64_from_le_bytes(cntb);
    let ghost b8 = bytes@.subrange(8, n_total as int);
    let mut out: Vec<(String, String)> = Vec::new();
    let mut pos: usize = 8;
    let mut remaining: u64 = cnt;
    proof {
        assert(pair_views(out@) =~= Seq::<(Seq<char>, Seq<char>)>::empty());
        assert(prepend_dec(pair_views(out@), dec_pairs(b8, cnt as nat)) == dec_pairs(
            b8,
            cnt as nat,
        )) by {
            if dec_pairs(b8, cnt as nat) is Some {
                let p = dec_pairs(b8, cnt as nat)->Some_0;
                assert(pair_views(out@) + p.0 =~= p.0);
            }
        }
    }
    while remaining > 0
        invariant
            8 <= pos <= n_total,
            n_total == bytes@.len(),
            b8 == bytes@.subrange(8, n_total as int),
            cnt == spec_u64_from_le_bytes(bytes@.subrange(0, 8)),
            dec_pairs(b8, cnt as nat) == prepend_dec(
                pair_views(out@),
                dec_pairs(bytes@.subrange(pos as int, n_total as int), remaining as nat),
            ),
        decreases remaining,
    {
        let ghost bpos = bytes@.subrange(pos as int, n_total as int);
        let kres = read_str(bytes, pos);
        if kres.is_none() {
            return Option::None;
        }
        let (k, p1) = kres.unwrap();
        let vres = read_str(bytes, p1);
        if vres.is_none() {
            return Option::None;
        }
        let (vv, p2) = vres.unwrap();
        let ghost out0 = out@;
        let ghost b2 = bytes@.subrange(p2 as int, n_total as int);
        out.push((k, vv));
        proof {
            let x = dec_pairs(b2, (remaining - 1) as nat);
            assert(dec_pairs(bpos, remaining as nat) == prepend_dec(seq![(k@, vv@)], x));
            assert(pair_views(out@) =~= pair_views(out0).push((k@, vv@)));
            if x is Some {
                let p = x->Some_0;
                assert(pair_views(out0) + (seq![(k@, vv@)] + p.0) =~= pair_views(
                    out@,
                ) + p.0);
            }
        }
        pos = p2;
        remaining = remaining - 1;
    }
    proof {
        let bpos = bytes@.subrange(pos as int, n_total as int);
        assert(dec_pairs(bpos, 0) == Option::Some((Seq::<(Seq<char>, Seq<char>)>::empty(), bpos)));
        assert(pair_views(out@) + Seq::<(Seq<char>, Seq<char>)>::empty() =~= pair_views(
            out@,
        ));
    }
    if pos != n_total {
        proof {
            assert(bytes@.subrange(pos as int, n_total as int).len() > 0);
        }
        return Option::None;
    }
    Option::Some(out)
}

} // verus!
