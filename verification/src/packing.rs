//! Packing of an integer stream: each integer is replaced by its difference
//! to the one before it (the first by its difference to zero), the
//! differences are zigzag-mapped, and each is written as a LEB128 varint.
//!
//! Differences are taken with wrapping `i64` arithmetic, so every stream of
//! `i64` packs and unpacks exactly, including streams whose neighbours are
//! further apart than `i64` can hold.
use crate::error::CpError;
use crate::varint::{
    decode_uvarint, is_prefix, leb128, lemma_leb128_prefix_unique, lemma_leb128_shape,
    lemma_unzigzag_zigzag, lemma_zigzag_unzigzag, read_uvarint, unzigzag, write_uvarint, zigzag,
    zigzag_decode, zigzag_encode,
};
use vstd::prelude::*;

verus! {

/// The difference `x - prev`, wrapped into `i64`.
pub open spec fn delta(x: i64, prev: i64) -> i64 {
    vstd::wrapping::i64_specs::wrapping_sub(x, prev)
}

/// `prev + d`, wrapped into `i64`.
pub open spec fn undelta(prev: i64, d: i64) -> i64 {
    vstd::wrapping::i64_specs::wrapping_add(prev, d)
}

/// The bytes of one packed integer `x` that follows `prev`.
pub open spec fn chunk(x: i64, prev: i64) -> Seq<u8> {
    leb128(zigzag(delta(x, prev) as int) as nat)
}

/// The packing of `xs`, where the integer before `xs[0]` is `prev`.
pub open spec fn pack_from(prev: i64, xs: Seq<i64>) -> Seq<u8>
    decreases xs.len(),
{
    if xs.len() == 0 {
        Seq::empty()
    } else {
        chunk(xs[0], prev) + pack_from(xs[0], xs.drop_first())
    }
}

/// The packing of a whole stream.
pub open spec fn packed(xs: Seq<i64>) -> Seq<u8> {
    pack_from(0, xs)
}

/// The integer that comes before position `i` of `xs`: the one at `i - 1`,
/// or zero at the start.
pub open spec fn prev_at(xs: Seq<i64>, i: int) -> i64 {
    if i <= 0 {
        0
    } else {
        xs[i - 1]
    }
}

/// The stream of `count` integers whose packing starts `t`, with the
/// number of bytes that packing takes, if there is such a stream. There is
/// at most one ([`lemma_pack_prefix_unique`]).
pub open spec fn unpacked(t: Seq<u8>, count: nat) -> Option<(Seq<i64>, nat)> {
    if exists|xs: Seq<i64>| xs.len() == count && is_prefix(#[trigger] packed(xs), t) {
        let xs = choose|xs: Seq<i64>| xs.len() == count && is_prefix(#[trigger] packed(xs), t);
        Some((xs, packed(xs).len()))
    } else {
        None
    }
}

/// Wrapping addition undoes wrapping subtraction, and the other way round.
pub proof fn lemma_delta_inverse(x: i64, prev: i64, d: i64)
    ensures
        undelta(prev, delta(x, prev)) == x,
        delta(undelta(prev, d), prev) == d,
{
}

/// Packing `a + b` packs `a`, then packs `b` after the last of `a`.
pub proof fn lemma_pack_split(p: i64, a: Seq<i64>, b: Seq<i64>)
    ensures
        pack_from(p, a + b) == pack_from(p, a) + pack_from(
            if a.len() == 0 { p } else { a.last() },
            b,
        ),
    decreases a.len(),
{
    if a.len() == 0 {
        assert(a + b =~= b);
        assert(pack_from(p, a) + pack_from(p, b) =~= pack_from(p, b));
    } else {
        let a1 = a.drop_first();
        lemma_pack_split(a[0], a1, b);
        assert((a + b).drop_first() =~= a1 + b);
        assert((a + b)[0] == a[0]);
        if a1.len() > 0 {
            assert(a1.last() == a.last());
        }
        assert(pack_from(p, a + b) =~= pack_from(p, a) + pack_from(
            if a.len() == 0 { p } else { a.last() },
            b,
        ));
    }
}

/// A prefix of a prefix: where `a + b` starts `t`, `a` starts `t` and `b`
/// starts what follows `a`.
proof fn lemma_prefix_concat(a: Seq<u8>, b: Seq<u8>, t: Seq<u8>)
    requires
        is_prefix(a + b, t),
    ensures
        is_prefix(a, t),
        is_prefix(b, t.skip(a.len() as int)),
{
    assert(t.take(a.len() as int) =~= (a + b).take(a.len() as int));
    assert((a + b).take(a.len() as int) =~= a);
    assert forall|k: int| 0 <= k < b.len() implies #[trigger] t.skip(a.len() as int)[k] == b[k] by {
        assert(t[a.len() + k] == (a + b)[a.len() + k]);
    }
    assert(t.skip(a.len() as int).take(b.len() as int) =~= b);
}

/// Two streams of one length whose packings (after the same `p`) both
/// start `t` are the same stream.
pub proof fn lemma_pack_prefix_unique(p: i64, a: Seq<i64>, b: Seq<i64>, t: Seq<u8>)
    requires
        a.len() == b.len(),
        is_prefix(pack_from(p, a), t),
        is_prefix(pack_from(p, b), t),
    ensures
        a == b,
    decreases a.len(),
{
    if a.len() > 0 {
        let ca = chunk(a[0], p);
        let cb = chunk(b[0], p);
        lemma_prefix_concat(ca, pack_from(a[0], a.drop_first()), t);
        lemma_prefix_concat(cb, pack_from(b[0], b.drop_first()), t);
        let za = zigzag(delta(a[0], p) as int);
        let zb = zigzag(delta(b[0], p) as int);
        lemma_unzigzag_zigzag(delta(a[0], p));
        lemma_unzigzag_zigzag(delta(b[0], p));
        lemma_leb128_prefix_unique(za as nat, zb as nat, t);
        lemma_delta_inverse(a[0], p, 0);
        lemma_delta_inverse(b[0], p, 0);
        assert(a[0] == b[0]);
        lemma_leb128_shape(za as nat);
        lemma_pack_prefix_unique(a[0], a.drop_first(), b.drop_first(), t.skip(ca.len() as int));
        assert forall|k: int| 0 <= k < a.len() implies a[k] == b[k] by {
            if k > 0 {
                assert(a[k] == a.drop_first()[k - 1]);
                assert(b[k] == b.drop_first()[k - 1]);
            }
        }
        assert(a =~= b);
    }
}

/// Packs a stream of integers.
pub fn pack(xs: &[i64]) -> (out: Vec<u8>)
    ensures
        out@ == packed(xs@),
{
    let mut out: Vec<u8> = Vec::new();
    let mut prev: i64 = 0;
    let mut i: usize = 0;
    assert(xs@.skip(0) =~= xs@);
    assert(out@ + packed(xs@) =~= packed(xs@));
    while i < xs.len()
        invariant
            i <= xs.len(),
            prev == prev_at(xs@, i as int),
            out@ + pack_from(prev, xs@.skip(i as int)) == packed(xs@),
        decreases xs.len() - i,
    {
        let x: i64 = xs[i];
        let z: u64 = zigzag_encode(x.wrapping_sub(prev));
        proof {
            let s = xs@.skip(i as int);
            assert(s[0] == x);
            assert(s.drop_first() =~= xs@.skip(i + 1));
            assert(out@ + chunk(x, prev) + pack_from(x, xs@.skip(i + 1)) =~= out@ + pack_from(
                prev,
                s,
            ));
        }
        write_uvarint(&mut out, z);
        prev = x;
        i = i + 1;
    }
    assert(xs@.skip(i as int) =~= Seq::<i64>::empty());
    assert(out@ + Seq::<u8>::empty() =~= out@);
    out
}

/// Unpacks `count` integers from `bytes`, starting at `pos`.
///
/// On success returns the integers and the position just after the last
/// byte read. Fails with `CpError::Corrupt` exactly when no stream of
/// `count` integers packs to a prefix of `bytes[pos..]`.
pub fn unpack(bytes: &[u8], pos: usize, count: usize) -> (r: Result<(Vec<i64>, usize), CpError>)
    requires
        pos <= bytes.len(),
    ensures
        match unpacked(bytes@.skip(pos as int), count as nat) {
            Some((xs, n)) => r matches Ok((v, end)) && v@ == xs && end == pos + n,
            None => r matches Err(e) && e == CpError::Corrupt,
        },
{
    let ghost t0 = bytes@.skip(pos as int);
    let mut out: Vec<i64> = Vec::new();
    let mut cur: usize = pos;
    let mut prev: i64 = 0;
    let mut i: usize = 0;
    while i < count
        invariant
            i <= count,
            out@.len() == i,
            pos <= cur <= bytes.len(),
            t0 == bytes@.skip(pos as int),
            prev == prev_at(out@, i as int),
            bytes@.subrange(pos as int, cur as int) == packed(out@),
        decreases count - i,
    {
        let rd = read_uvarint(bytes, cur);
        match rd {
            Ok((z, len)) => {
                let d: i64 = zigzag_decode(z);
                let x: i64 = prev.wrapping_add(d);
                proof {
                    lemma_zigzag_unzigzag(z);
                    lemma_delta_inverse(0, prev, d);
                    assert(zigzag(delta(x, prev) as int) == z);
                    assert(chunk(x, prev) == leb128(z as nat));
                    lemma_pack_split(0, out@, seq![x]);
                    assert(out@.push(x) =~= out@ + seq![x]);
                    assert(pack_from(x, Seq::<i64>::empty()) =~= Seq::<u8>::empty());
                    assert(pack_from(prev, seq![x]) =~= chunk(x, prev) + pack_from(
                        x,
                        seq![x].drop_first(),
                    ));
                    assert(seq![x].drop_first() =~= Seq::<i64>::empty());
                    if i > 0 {
                        assert(out@.last() == prev);
                    }
                    assert(bytes@.skip(cur as int).take(len as int) =~= bytes@.subrange(
                        cur as int,
                        cur + len,
                    ));
                    assert(bytes@.subrange(pos as int, cur + len) =~= bytes@.subrange(
                        pos as int,
                        cur as int,
                    ) + bytes@.subrange(cur as int, cur + len));
                }
                out.push(x);
                prev = x;
                cur = cur + len;
                i = i + 1;
            },
            Err(e) => {
                proof {
                    assert forall|ys: Seq<i64>|
                        ys.len() == count implies !is_prefix(#[trigger] packed(ys), t0) by {
                        lemma_no_stream_after_failed_read(
                            ys,
                            out@,
                            t0,
                            bytes@,
                            pos as int,
                            cur as int,
                            prev,
                        );
                    }
                }
                return Err(e);
            },
        }
    }
    proof {
        assert(t0.take(packed(out@).len() as int) =~= bytes@.subrange(pos as int, cur as int));
        assert(is_prefix(packed(out@), t0));
        let ys = choose|ys: Seq<i64>| ys.len() == count && is_prefix(#[trigger] packed(ys), t0);
        lemma_pack_prefix_unique(0, ys, out@, t0);
    }
    Ok((out, cur))
}

/// Where `i` integers were unpacked from `t0 = bytes[pos..]` up to `cur`
/// and no varint can be read at `cur`, no longer stream packs to a prefix
/// of `t0`.
proof fn lemma_no_stream_after_failed_read(
    ys: Seq<i64>,
    done: Seq<i64>,
    t0: Seq<u8>,
    bytes: Seq<u8>,
    pos: int,
    cur: int,
    prev: i64,
)
    requires
        0 <= pos <= cur <= bytes.len(),
        t0 == bytes.skip(pos),
        ys.len() > done.len(),
        prev == prev_at(done, done.len() as int),
        bytes.subrange(pos, cur) == packed(done),
        decode_uvarint(bytes.skip(cur)) is None,
    ensures
        !is_prefix(packed(ys), t0),
{
    if is_prefix(packed(ys), t0) {
        lemma_failed_read_contradiction(ys, done, t0, bytes, pos, cur, prev);
    }
}

proof fn lemma_failed_read_contradiction(
    ys: Seq<i64>,
    done: Seq<i64>,
    t0: Seq<u8>,
    bytes: Seq<u8>,
    pos: int,
    cur: int,
    prev: i64,
)
    requires
        0 <= pos <= cur <= bytes.len(),
        t0 == bytes.skip(pos),
        ys.len() > done.len(),
        prev == prev_at(done, done.len() as int),
        bytes.subrange(pos, cur) == packed(done),
        is_prefix(packed(ys), t0),
    ensures
        decode_uvarint(bytes.skip(cur)) is Some,
{
    let i = done.len() as int;
    let head = ys.take(i);
    let tail = ys.skip(i);
    assert(ys =~= head + tail);
    lemma_pack_split(0, head, tail);
    let p = if head.len() == 0 { 0i64 } else { head.last() };
    lemma_prefix_concat(packed(head), pack_from(p, tail), t0);
    assert(t0.take(packed(done).len() as int) =~= bytes.subrange(pos, cur));
    assert(is_prefix(packed(done), t0));
    lemma_pack_prefix_unique(0, head, done, t0);
    assert(p == prev);
    let rest = t0.skip(packed(done).len() as int);
    assert(rest =~= bytes.skip(cur));
    assert(tail.len() > 0);
    lemma_prefix_concat(chunk(tail[0], prev), pack_from(tail[0], tail.drop_first()), rest);
    let z = zigzag(delta(tail[0], prev) as int);
    lemma_unzigzag_zigzag(delta(tail[0], prev));
    let zu: u64 = z as u64;
    assert(is_prefix(leb128(zu as nat), bytes.skip(cur)));
}

/// What [`unpacked`] finds is a stream of the asked length whose packing
/// starts `t`, with that packing's length.
pub proof fn lemma_unpacked_some(t: Seq<u8>, count: nat)
    ensures
        unpacked(t, count) matches Some((xs, l)) ==> xs.len() == count && is_prefix(packed(xs), t)
            && l == packed(xs).len(),
{
}

/// A packing takes at least one byte per integer.
pub proof fn lemma_packed_len(p: i64, xs: Seq<i64>)
    ensures
        pack_from(p, xs).len() >= xs.len(),
    decreases xs.len(),
{
    if xs.len() > 0 {
        lemma_leb128_shape(zigzag(delta(xs[0], p) as int) as nat);
        lemma_packed_len(xs[0], xs.drop_first());
    }
}

/// Unpacking what [`pack`] wrote, followed by any bytes, gives back the
/// stream and the length of its packing.
pub proof fn lemma_unpack_pack(xs: Seq<i64>, rest: Seq<u8>)
    ensures
        unpacked(packed(xs) + rest, xs.len()) == Some((xs, packed(xs).len())),
{
    let t = packed(xs) + rest;
    assert(t.take(packed(xs).len() as int) =~= packed(xs));
    assert(is_prefix(packed(xs), t));
    let ys = choose|ys: Seq<i64>| ys.len() == xs.len() && is_prefix(#[trigger] packed(ys), t);
    lemma_pack_prefix_unique(0, ys, xs, t);
}

} // verus!
