//! Zigzag mapping of signed integers and unsigned LEB128 varints.
use crate::error::CpError;
use vstd::prelude::*;

verus! {

// ---------------------------------------------------------------------------
// Zigzag
// ---------------------------------------------------------------------------

/// Zigzag maps 0, -1, 1, -2, 2, ... to 0, 1, 2, 3, 4, ...
pub open spec fn zigzag(n: int) -> int {
    if n >= 0 {
        2 * n
    } else {
        -2 * n - 1
    }
}

/// The inverse of [`zigzag`] on the naturals.
pub open spec fn unzigzag(u: int) -> int {
    if u % 2 == 0 {
        u / 2
    } else {
        -(u / 2) - 1
    }
}

/// Zigzag-encodes a signed integer.
pub fn zigzag_encode(n: i64) -> (u: u64)
    ensures
        u == zigzag(n as int),
        n >= 0 ==> u == 2 * n,
        n < 0 ==> u == -2 * n - 1,
{
    if n >= 0 {
        (n as u64) * 2
    } else {
        let m: i64 = -(n + 1);
        (m as u64) * 2 + 1
    }
}

/// Decodes a zigzag-encoded integer.
pub fn zigzag_decode(u: u64) -> (n: i64)
    ensures
        n == unzigzag(u as int),
        u % 2 == 0 ==> 2 * n == u && n >= 0,
        u % 2 == 1 ==> -2 * n - 1 == u && n < 0,
{
    let half: u64 = u / 2;
    if u % 2 == 0 {
        half as i64
    } else {
        -(half as i64) - 1
    }
}

/// Zigzag decoding undoes zigzag encoding, for every `i64`.
pub proof fn lemma_unzigzag_zigzag(n: i64)
    ensures
        unzigzag(zigzag(n as int)) == n,
        0 <= zigzag(n as int) <= u64::MAX,
{
}

/// Zigzag encoding undoes zigzag decoding, for every `u64`.
pub proof fn lemma_zigzag_unzigzag(u: u64)
    ensures
        zigzag(unzigzag(u as int)) == u,
        i64::MIN <= unzigzag(u as int) <= i64::MAX,
{
}

// ---------------------------------------------------------------------------
// LEB128
// ---------------------------------------------------------------------------

/// The unsigned LEB128 encoding of `v`: seven bits per byte, least
/// significant group first, the high bit set on every byte but the last.
pub open spec fn leb128(v: nat) -> Seq<u8>
    decreases v,
{
    if v < 128 {
        seq![v as u8]
    } else {
        seq![(v % 128 + 128) as u8] + leb128(v / 128)
    }
}

/// The value that a run of LEB128 bytes stands for, first byte least
/// significant; the continuation bits are ignored.
pub open spec fn leb128_value(w: Seq<u8>) -> nat
    decreases w.len(),
{
    if w.len() == 0 {
        0
    } else {
        (w[0] % 128) as nat + 128 * leb128_value(w.drop_first())
    }
}

/// `128` to the power `k`.
pub open spec fn pow128(k: nat) -> nat
    decreases k,
{
    if k == 0 {
        1
    } else {
        128 * pow128((k - 1) as nat)
    }
}

/// The shape of a canonical LEB128 run: every byte but the last has its
/// high bit set, the last has it clear, and a run of more than one byte
/// does not end in a zero byte.
pub open spec fn canonical_run(w: Seq<u8>) -> bool {
    &&& w.len() > 0
    &&& forall|k: int| 0 <= k < w.len() - 1 ==> #[trigger] w[k] >= 128
    &&& w[w.len() - 1] < 128
    &&& (w.len() > 1 ==> w[w.len() - 1] != 0)
}

/// `p` is a prefix of `s`.
pub open spec fn is_prefix(p: Seq<u8>, s: Seq<u8>) -> bool {
    p.len() <= s.len() && s.take(p.len() as int) == p
}

/// Every LEB128 encoding is a canonical run that stands for its value.
pub proof fn lemma_leb128_shape(v: nat)
    ensures
        canonical_run(leb128(v)),
        leb128_value(leb128(v)) == v,
    decreases v,
{
    if v < 128 {
        assert(leb128(v).drop_first() =~= Seq::<u8>::empty());
        assert(leb128_value(Seq::<u8>::empty()) == 0);
        assert(leb128(v)[0] % 128 == v);
    } else {
        lemma_leb128_shape(v / 128);
        let w = leb128(v);
        let rest = leb128(v / 128);
        assert(w.drop_first() =~= rest);
        assert forall|k: int| 0 <= k < w.len() - 1 implies #[trigger] w[k] >= 128 by {
            if k > 0 {
                assert(w[k] == rest[k - 1]);
            }
        }
        assert(w[w.len() - 1] == rest[rest.len() - 1]);
        assert(w[0] == (v % 128 + 128) as u8);
        assert(w[0] % 128 == v % 128);
        assert(v == v % 128 + 128 * (v / 128));
    }
}

/// A run whose last byte carries a non-zero group stands for a positive value.
proof fn lemma_value_positive(w: Seq<u8>)
    requires
        w.len() > 0,
        w[w.len() - 1] % 128 != 0,
    ensures
        leb128_value(w) > 0,
    decreases w.len(),
{
    if w.len() > 1 {
        let r = w.drop_first();
        assert(r[r.len() - 1] == w[w.len() - 1]);
        lemma_value_positive(r);
    }
}

/// A canonical run is the LEB128 encoding of the value it stands for.
pub proof fn lemma_canonical_run_is_leb128(w: Seq<u8>)
    requires
        canonical_run(w),
    ensures
        leb128(leb128_value(w)) == w,
    decreases w.len(),
{
    if w.len() == 1 {
        assert(w.drop_first().len() == 0);
        assert(w[0] % 128 == w[0]);
        assert(leb128_value(Seq::<u8>::empty()) == 0);
        assert(w.drop_first() =~= Seq::<u8>::empty());
        assert(leb128_value(w) == w[0] as nat);
        assert(leb128(leb128_value(w)) =~= w);
    } else {
        let r = w.drop_first();
        assert(w[0] >= 128);
        assert(r[r.len() - 1] == w[w.len() - 1]);
        assert forall|k: int| 0 <= k < r.len() - 1 implies #[trigger] r[k] >= 128 by {
            assert(r[k] == w[k + 1]);
        }
        lemma_canonical_run_is_leb128(r);
        lemma_value_positive(r);
        let lo: nat = (w[0] % 128) as nat;
        let hi: nat = leb128_value(r);
        let v: nat = leb128_value(w);
        assert(v == lo + 128 * hi);
        assert(v >= 128);
        assert(v % 128 == lo && v / 128 == hi) by {
            vstd::arithmetic::div_mod::lemma_fundamental_div_mod_converse(
                v as int,
                128,
                hi as int,
                lo as int,
            );
        }
        assert((lo + 128) as u8 == w[0]);
        assert(leb128(v) =~= w);
    }
}

/// Where a LEB128 encoding is a prefix of `t`, its length is fixed by the
/// first byte of `t` whose high bit is clear.
pub proof fn lemma_leb128_prefix_len(v: nat, t: Seq<u8>, k: int)
    requires
        is_prefix(leb128(v), t),
        0 <= k < t.len(),
        forall|j: int| 0 <= j < k ==> #[trigger] t[j] >= 128,
        t[k] < 128,
    ensures
        leb128(v).len() == k + 1,
        leb128(v) == t.take(k + 1),
{
    lemma_leb128_shape(v);
    let w = leb128(v);
    if w.len() < k + 1 {
        assert(t[w.len() - 1] == w[w.len() - 1]);
    } else if w.len() > k + 1 {
        assert(t[k] == w[k]);
    }
    assert(w =~= t.take(k + 1));
}

/// A LEB128 encoding is longer than `m` bytes, for `m >= 1`, only for
/// values of at least `128^m`.
pub proof fn lemma_leb128_len_bound(v: nat, m: nat)
    requires
        m >= 1,
        leb128(v).len() > m,
    ensures
        v >= pow128(m),
    decreases m,
{
    assert(pow128(m) == 128 * pow128((m - 1) as nat));
    if v < 128 {
        assert(leb128(v).len() == 1);
    } else {
        assert(leb128(v).len() == 1 + leb128(v / 128).len());
        if m == 1 {
            assert(pow128(0) == 1);
        } else {
            lemma_leb128_len_bound(v / 128, (m - 1) as nat);
            assert(v >= 128 * (v / 128));
            assert(128 * (v / 128) >= 128 * pow128((m - 1) as nat));
        }
    }
}

/// Two LEB128 encodings that are both prefixes of one byte string encode
/// the same value.
pub proof fn lemma_leb128_prefix_unique(a: nat, b: nat, t: Seq<u8>)
    requires
        is_prefix(leb128(a), t),
        is_prefix(leb128(b), t),
    ensures
        a == b,
{
    lemma_leb128_shape(a);
    lemma_leb128_shape(b);
    let wa = leb128(a);
    let wb = leb128(b);
    let k = wa.len() - 1;
    assert(t[k] == wa[k]);
    assert forall|j: int| 0 <= j < k implies #[trigger] t[j] >= 128 by {
        assert(t[j] == wa[j]);
    }
    lemma_leb128_prefix_len(b, t, k);
    assert(wa == wb);
}

/// Appends the LEB128 encoding of `v` to `out`.
pub fn write_uvarint(out: &mut Vec<u8>, v: u64)
    ensures
        final(out)@ == old(out)@ + leb128(v as nat),
{
    let mut rest: u64 = v;
    while rest >= 128
        invariant
            out@ + leb128(rest as nat) == old(out)@ + leb128(v as nat),
        decreases rest,
    {
        let byte: u8 = (rest % 128 + 128) as u8;
        proof {
            assert(leb128(rest as nat) == seq![byte] + leb128((rest / 128) as nat));
            assert(out@.push(byte) + leb128((rest / 128) as nat) =~= out@ + leb128(rest as nat));
        }
        out.push(byte);
        rest = rest / 128;
    }
    proof {
        assert(leb128(rest as nat) == seq![rest as u8]);
        assert(out@.push(rest as u8) =~= out@ + leb128(rest as nat));
    }
    out.push(rest as u8);
}

/// `128^k` grows with `k`, and `128^10` exceeds every `u64`.
proof fn lemma_pow128_bound(k: nat)
    ensures
        pow128(k) >= 1,
        k >= 10 ==> pow128(k) > u64::MAX,
    decreases k,
{
    if k > 0 {
        lemma_pow128_bound((k - 1) as nat);
        if k == 10 {
            lemma_pow128_values();
        }
    }
}

/// The value whose LEB128 encoding starts `t`, if some `u64` has one.
/// Encodings are prefix-free, so there is at most one such value
/// ([`lemma_leb128_prefix_unique`]).
pub open spec fn decode_uvarint(t: Seq<u8>) -> Option<u64> {
    if exists|v: u64| is_prefix(#[trigger] leb128(v as nat), t) {
        Some(choose|v: u64| is_prefix(#[trigger] leb128(v as nat), t))
    } else {
        None
    }
}

/// No `u64` has a LEB128 encoding that starts `t` when the first `k`
/// bytes of `t` all have their high bit set and either the bytes end there,
/// or `k` reaches the longest encoding of a `u64`, or the run that ends at
/// `t[k]` is not canonical or stands for more than `u64::MAX`.
proof fn lemma_no_uvarint(t: Seq<u8>, k: int)
    requires
        0 <= k <= 10,
        k <= t.len(),
        forall|j: int| 0 <= j < k ==> #[trigger] t[j] >= 128,
        k == t.len() || k == 10 || (t[k] < 128 && ((k > 0 && t[k] == 0) || leb128_value(
            t.take(k + 1),
        ) > u64::MAX)),
    ensures
        forall|v: u64| !is_prefix(#[trigger] leb128(v as nat), t),
{
    assert forall|v: u64| !is_prefix(#[trigger] leb128(v as nat), t) by {
        if is_prefix(leb128(v as nat), t) {
            lemma_leb128_shape(v as nat);
            let w = leb128(v as nat);
            if w.len() <= k {
                assert(t[w.len() - 1] == w[w.len() - 1]);
            } else if k == 10 {
                lemma_leb128_len_bound(v as nat, 10);
                lemma_pow128_bound(10);
            } else {
                lemma_leb128_prefix_len(v as nat, t, k);
            }
        }
    }
}

/// Reads one LEB128 varint from `bytes`, starting at `pos`.
///
/// Returns the value and the number of bytes it took. Fails with
/// `CpError::Corrupt` exactly when no `u64` has a LEB128 encoding that is
/// a prefix of `bytes[pos..]`: the bytes run out, the value overflows
/// 64 bits, or the run is not in canonical form (a trailing zero byte).
pub fn read_uvarint(bytes: &[u8], pos: usize) -> (r: Result<(u64, usize), CpError>)
    requires
        pos <= bytes.len(),
    ensures
        match decode_uvarint(bytes@.skip(pos as int)) {
            Some(v) => r == Ok::<(u64, usize), CpError>((v, leb128(v as nat).len() as usize)),
            None => r == Err::<(u64, usize), CpError>(CpError::Corrupt),
        },
{
    let ghost t = bytes@.skip(pos as int);
    let avail: usize = bytes.len() - pos;
    let mut k: usize = 0;
    while k < 10 && k < avail && bytes[pos + k] >= 128
        invariant
            k <= 10,
            k <= avail,
            avail == t.len(),
            pos + avail == bytes.len(),
            t == bytes@.skip(pos as int),
            forall|j: int| 0 <= j < k ==> #[trigger] t[j] >= 128,
        decreases 10 - k,
    {
        assert(t[k as int] == bytes@[pos + k]);
        k = k + 1;
    }
    if k == avail || k == 10 {
        proof {
            lemma_no_uvarint(t, k as int);
        }
        return Err(CpError::Corrupt);
    }
    assert(t[k as int] == bytes@[pos + k]);
    let last: u8 = bytes[pos + k];
    let ghost w = t.take(k + 1);
    if k > 0 && last == 0 {
        proof {
            lemma_no_uvarint(t, k as int);
        }
        return Err(CpError::Corrupt);
    }
    // Fold the run from its last byte back to its first.
    let mut acc: u128 = 0;
    let mut i: usize = k + 1;
    proof {
        assert(w.skip(i as int).len() == 0);
        lemma_pow128_bound(0);
    }
    while i > 0
        invariant
            0 <= i <= k + 1,
            k < 10,
            k < avail,
            pos + avail == bytes.len(),
            w == t.take(k + 1),
            t == bytes@.skip(pos as int),
            acc == leb128_value(w.skip(i as int)),
            acc < pow128((k + 1 - i) as nat),
        decreases i,
    {
        let b: u8 = bytes[pos + i - 1];
        proof {
            assert(b == w[i - 1]);
            assert(w.skip(i - 1).drop_first() =~= w.skip(i as int));
            assert(w.skip(i - 1)[0] == b);
            lemma_pow128_bound((k + 1 - i) as nat);
            lemma_pow128_mono((k + 1 - i) as nat, 9);
            lemma_pow128_values();
            assert(acc * 128 + ((b % 128) as int) < pow128((k + 1 - i) as nat) * 128) by (nonlinear_arith)
                requires
                    acc < pow128((k + 1 - i) as nat),
                    (b % 128) < 128,
            ;
            assert(pow128((k + 1 - (i - 1)) as nat) == 128 * pow128((k + 1 - i) as nat));
        }
        acc = (b % 128) as u128 + 128 * acc;
        i = i - 1;
    }
    assert(w.skip(0) =~= w);
    if acc > u64::MAX as u128 {
        proof {
            lemma_no_uvarint(t, k as int);
        }
        return Err(CpError::Corrupt);
    }
    let v: u64 = acc as u64;
    proof {
        assert forall|j: int| 0 <= j < w.len() - 1 implies #[trigger] w[j] >= 128 by {
            assert(w[j] == t[j]);
        }
        assert(w[w.len() - 1] == last);
        assert(canonical_run(w));
        lemma_canonical_run_is_leb128(w);
        assert(t.take(w.len() as int) =~= w);
        assert(is_prefix(leb128(v as nat), t));
        let c = choose|x: u64| is_prefix(#[trigger] leb128(x as nat), t);
        lemma_leb128_prefix_unique(c as nat, v as nat, t);
    }
    Ok((v, k + 1))
}

/// The powers of 128 up to `128^10`.
proof fn lemma_pow128_values()
    ensures
        pow128(9) == 0x8000_0000_0000_0000,
        pow128(10) == 0x40_0000_0000_0000_0000,
{
    assert(pow128(0) == 1);
    assert(pow128(1) == 0x80);
    assert(pow128(2) == 0x4000);
    assert(pow128(3) == 0x20_0000);
    assert(pow128(4) == 0x1000_0000);
    assert(pow128(5) == 0x8_0000_0000);
    assert(pow128(6) == 0x400_0000_0000);
    assert(pow128(7) == 0x2_0000_0000_0000);
    assert(pow128(8) == 0x100_0000_0000_0000);
    assert(pow128(9) == 0x8000_0000_0000_0000);
    assert(pow128(10) == 0x40_0000_0000_0000_0000);
}

/// `128^a <= 128^b` for `a <= b`.
proof fn lemma_pow128_mono(a: nat, b: nat)
    requires
        a <= b,
    ensures
        pow128(a) <= pow128(b),
    decreases b,
{
    if a < b {
        lemma_pow128_mono(a, (b - 1) as nat);
        lemma_pow128_bound((b - 1) as nat);
    }
}

/// What [`decode_uvarint`] finds is a value whose encoding starts `t`.
pub proof fn lemma_decode_uvarint_some(t: Seq<u8>)
    ensures
        decode_uvarint(t) matches Some(v) ==> is_prefix(leb128(v as nat), t),
{
}

/// Decoding a LEB128 encoding, followed by any bytes, gives back the
/// encoded value.
pub proof fn lemma_leb128_roundtrip(v: u64, rest: Seq<u8>)
    ensures
        decode_uvarint(leb128(v as nat) + rest) == Some(v),
{
    let t = leb128(v as nat) + rest;
    let w = leb128(v as nat);
    assert(t.take(w.len() as int) =~= w);
    assert(is_prefix(leb128(v as nat), t));
    let c = choose|x: u64| is_prefix(#[trigger] leb128(x as nat), t);
    lemma_leb128_prefix_unique(c as nat, v as nat, t);
}

} // verus!
