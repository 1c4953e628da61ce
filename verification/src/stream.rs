//! The compressed byte stream.
//!
//! A stream holds, in order, as LEB128 varints: the number of kept points,
//! the quantization bit width, and the bit patterns of the quantization
//! offset and step (two `f64`, carried as their `u64` bits); then the kept
//! timestamps and the quantized values, each as a packed integer stream
//! ([`crate::packing`]). Nothing follows.
use crate::error::CpError;
use crate::packing::{
    lemma_packed_len, lemma_unpack_pack, lemma_unpacked_some, pack, packed, unpack, unpacked,
};
use crate::series::{check_series, valid_series};
use crate::varint::{
    decode_uvarint, is_prefix, leb128, lemma_decode_uvarint_some, lemma_leb128_roundtrip,
    read_uvarint, write_uvarint,
};
use vstd::prelude::*;

verus! {

/// The quantization parameters carried in a stream. `offset_bits` and
/// `step_bits` are the bit patterns of the `f64` offset and step.
#[derive(Debug, Clone, Copy, PartialEq, Eq, Structural)]
pub struct QuantHeader {
    pub quant_bits: u32,
    pub offset_bits: u64,
    pub step_bits: u64,
}

/// The header bytes of a stream of `n` points.
pub open spec fn header_bytes(n: nat, h: QuantHeader) -> Seq<u8> {
    leb128(n) + leb128(h.quant_bits as nat) + leb128(h.offset_bits as nat) + leb128(
        h.step_bits as nat,
    )
}

/// The stream that holds the kept timestamps `ts`, the quantized values
/// `q` and the header `h`.
pub open spec fn encoded_stream(ts: Seq<i64>, q: Seq<i64>, h: QuantHeader) -> Seq<u8> {
    header_bytes(ts.len(), h) + packed(ts) + packed(q)
}

/// Reading a stream field by field: what a reader finds in `data`, if the
/// fields are all there, the point series is well formed and no byte is
/// left over.
pub open spec fn read_stream(data: Seq<u8>) -> Option<(Seq<i64>, Seq<i64>, QuantHeader)> {
    match decode_uvarint(data) {
        None => None,
        Some(n) => {
            let p1 = leb128(n as nat).len() as int;
            match decode_uvarint(data.skip(p1)) {
                None => None,
                Some(qb) => if qb > u32::MAX {
                    None
                } else {
                    let p2 = p1 + leb128(qb as nat).len();
                    match decode_uvarint(data.skip(p2)) {
                        None => None,
                        Some(ob) => {
                            let p3 = p2 + leb128(ob as nat).len();
                            match decode_uvarint(data.skip(p3)) {
                                None => None,
                                Some(sb) => {
                                    let p4 = p3 + leb128(sb as nat).len();
                                    match unpacked(data.skip(p4), n as nat) {
                                        None => None,
                                        Some((ts, l1)) => {
                                            let p5 = p4 + l1;
                                            match unpacked(data.skip(p5), n as nat) {
                                                None => None,
                                                Some((q, l2)) => if p5 + l2 == data.len()
                                                    && valid_series(ts, q.len()) {
                                                    Some(
                                                        (
                                                            ts,
                                                            q,
                                                            QuantHeader {
                                                                quant_bits: qb as u32,
                                                                offset_bits: ob,
                                                                step_bits: sb,
                                                            },
                                                        ),
                                                    )
                                                } else {
                                                    None
                                                },
                                            }
                                        },
                                    }
                                },
                            }
                        },
                    }
                },
            }
        },
    }
}

/// `a + b`, split at the end of `a`.
proof fn lemma_split(a: Seq<u8>, b: Seq<u8>)
    ensures
        (a + b).take(a.len() as int) == a,
        (a + b).skip(a.len() as int) == b,
{
    assert((a + b).take(a.len() as int) =~= a);
    assert((a + b).skip(a.len() as int) =~= b);
}

/// `s`, cut at `i`, is its take and its skip.
proof fn lemma_rejoin(s: Seq<u8>, i: int)
    requires
        0 <= i <= s.len(),
    ensures
        s == s.take(i) + s.skip(i),
{
    assert(s =~= s.take(i) + s.skip(i));
}

/// Reading a stream gives back what it was written from.
pub proof fn lemma_read_encoded_stream(ts: Seq<i64>, q: Seq<i64>, h: QuantHeader)
    requires
        valid_series(ts, q.len()),
        ts.len() <= u64::MAX,
    ensures
        read_stream(encoded_stream(ts, q, h)) == Some((ts, q, h)),
{
    let n = ts.len() as u64;
    let a = leb128(n as nat);
    let b = leb128(h.quant_bits as nat);
    let c = leb128(h.offset_bits as nat);
    let d = leb128(h.step_bits as nat);
    let pt = packed(ts);
    let pq = packed(q);
    let data = encoded_stream(ts, q, h);
    let r1 = b + c + d + pt + pq;
    let r2 = c + d + pt + pq;
    let r3 = d + pt + pq;
    let r4 = pt + pq;
    assert(data =~= a + r1);
    assert(r1 =~= b + r2);
    assert(r2 =~= c + r3);
    assert(r3 =~= d + r4);
    lemma_split(a, r1);
    lemma_leb128_roundtrip(n, r1);
    let p1 = a.len() as int;
    lemma_split(b, r2);
    lemma_leb128_roundtrip(h.quant_bits as u64, r2);
    let p2 = p1 + b.len();
    assert(data.skip(p2) =~= r2);
    lemma_split(c, r3);
    lemma_leb128_roundtrip(h.offset_bits, r3);
    let p3 = p2 + c.len();
    assert(data.skip(p3) =~= r3);
    lemma_split(d, r4);
    lemma_leb128_roundtrip(h.step_bits, r4);
    let p4 = p3 + d.len();
    assert(data.skip(p4) =~= r4);
    lemma_unpack_pack(ts, pq);
    let p5 = p4 + pt.len();
    assert(data.skip(p5) =~= pq);
    assert(pq =~= pq + Seq::<u8>::empty());
    lemma_unpack_pack(q, Seq::<u8>::empty());
    assert(p5 + pq.len() == data.len());
}

/// Two well-formed series with the same stream are the same series with
/// the same header, so what [`decode_stream`] gives back is what the
/// stream was written from.
pub proof fn lemma_encoded_stream_injective(
    ts1: Seq<i64>,
    q1: Seq<i64>,
    h1: QuantHeader,
    ts2: Seq<i64>,
    q2: Seq<i64>,
    h2: QuantHeader,
)
    requires
        valid_series(ts1, q1.len()),
        valid_series(ts2, q2.len()),
        ts1.len() <= u64::MAX,
        ts2.len() <= u64::MAX,
        encoded_stream(ts1, q1, h1) == encoded_stream(ts2, q2, h2),
    ensures
        ts1 == ts2,
        q1 == q2,
        h1 == h2,
{
    lemma_read_encoded_stream(ts1, q1, h1);
    lemma_read_encoded_stream(ts2, q2, h2);
}

/// Whatever reading a stream finds, the stream is the encoding of it.
pub proof fn lemma_read_stream_sound(data: Seq<u8>)
    ensures
        read_stream(data) matches Some((ts, q, h)) ==> data == encoded_stream(ts, q, h)
            && valid_series(ts, q.len()),
{
    if let Some((ts, q, h)) = read_stream(data) {
        let n = decode_uvarint(data).unwrap();
        lemma_decode_uvarint_some(data);
        let p1 = leb128(n as nat).len() as int;
        let qb = decode_uvarint(data.skip(p1)).unwrap();
        lemma_decode_uvarint_some(data.skip(p1));
        let p2 = p1 + leb128(qb as nat).len();
        let ob = decode_uvarint(data.skip(p2)).unwrap();
        lemma_decode_uvarint_some(data.skip(p2));
        let p3 = p2 + leb128(ob as nat).len();
        let sb = decode_uvarint(data.skip(p3)).unwrap();
        lemma_decode_uvarint_some(data.skip(p3));
        let p4 = p3 + leb128(sb as nat).len();
        lemma_unpacked_some(data.skip(p4), n as nat);
        let l1 = unpacked(data.skip(p4), n as nat).unwrap().1;
        let p5 = p4 + l1;
        lemma_unpacked_some(data.skip(p5), n as nat);
        assert(h.quant_bits == qb);
        assert(ts.len() == n);
        // Each field is the slice of `data` between two positions.
        assert(data.take(p1) =~= leb128(n as nat));
        assert(data.subrange(p1, p2) =~= data.skip(p1).take(p2 - p1));
        assert(data.subrange(p2, p3) =~= data.skip(p2).take(p3 - p2));
        assert(data.subrange(p3, p4) =~= data.skip(p3).take(p4 - p3));
        assert(data.subrange(p4, p5) =~= data.skip(p4).take(p5 - p4));
        assert(data.skip(p5) =~= data.skip(p5).take(data.len() - p5));
        assert(data =~= data.take(p1) + data.subrange(p1, p2) + data.subrange(p2, p3)
            + data.subrange(p3, p4) + data.subrange(p4, p5) + data.skip(p5));
    }
}

/// Writes the stream of the kept timestamps `ts`, the quantized values
/// `q` and the header `h`.
///
/// Fails with `CpError::BadInput` exactly when the series is not well
/// formed (empty, `q` of another length, timestamps not strictly
/// increasing).
pub fn encode_stream(ts: &[i64], q: &[i64], h: QuantHeader) -> (r: Result<Vec<u8>, CpError>)
    ensures
        r is Ok <==> valid_series(ts@, q@.len()),
        r matches Ok(out) ==> out@ == encoded_stream(ts@, q@, h),
        r is Err ==> (r matches Err(e) && e == CpError::BadInput),
{
    match check_series(ts, q.len()) {
        Ok(()) => {},
        Err(e) => {
            return Err(e);
        },
    }
    let mut out: Vec<u8> = Vec::new();
    write_uvarint(&mut out, ts.len() as u64);
    write_uvarint(&mut out, h.quant_bits as u64);
    write_uvarint(&mut out, h.offset_bits);
    write_uvarint(&mut out, h.step_bits);
    let mut pt = pack(ts);
    out.append(&mut pt);
    let mut pq = pack(q);
    out.append(&mut pq);
    Ok(out)
}

/// Reads a stream back into the kept timestamps, the quantized values and
/// the header.
///
/// Succeeds exactly when `data` is the stream of some well-formed series,
/// and then gives back what it was written from. Otherwise fails with
/// `CpError::Corrupt`.
pub fn decode_stream(data: &[u8]) -> (r: Result<(Vec<i64>, Vec<i64>, QuantHeader), CpError>)
    ensures
        r matches Ok((ts, q, h)) ==> data@ == encoded_stream(ts@, q@, h) && valid_series(
            ts@,
            q@.len(),
        ),
        r is Err <==> !exists|ts: Seq<i64>, q: Seq<i64>, h: QuantHeader|
            data@ == #[trigger] encoded_stream(ts, q, h) && valid_series(ts, q.len()),
        r is Err ==> (r matches Err(e) && e == CpError::Corrupt),
{
    let ghost d = data@;
    let r = read_fields(data);
    proof {
        lemma_read_stream_sound(d);
        if r is Err {
            assert forall|ts: Seq<i64>, q: Seq<i64>, h: QuantHeader|
                !(d == #[trigger] encoded_stream(ts, q, h) && valid_series(ts, q.len())) by {
                if d == encoded_stream(ts, q, h) && valid_series(ts, q.len()) {
                    lemma_packed_len(0, ts);
                    assert(d.len() == data.len());
                    assert(ts.len() <= d.len());
                    lemma_read_encoded_stream(ts, q, h);
                }
            }
        } else {
            let (ts, q, h) = read_stream(d).unwrap();
            assert(d == encoded_stream(ts, q, h) && valid_series(ts, q.len()));
        }
    }
    r
}

/// Reads the fields of a stream in order, failing at the first that is
/// not there.
fn read_fields(data: &[u8]) -> (r: Result<(Vec<i64>, Vec<i64>, QuantHeader), CpError>)
    ensures
        match read_stream(data@) {
            Some((ts, q, h)) => r matches Ok((vt, vq, vh)) && vt@ == ts && vq@ == q && vh == h,
            None => r matches Err(e) && e == CpError::Corrupt,
        },
{
    let ghost d = data@;
    assert(d.skip(0) =~= d);
    assert(d.len() == data.len());
    let (n, l1) = match read_uvarint(data, 0) {
        Ok(x) => x,
        Err(e) => {
            return Err(e);
        },
    };
    proof {
        assert(decode_uvarint(d) == Some(n));
        lemma_decode_uvarint_some(d);
        assert(l1 == leb128(n as nat).len());
        assert(l1 <= d.len());
    }
    let (qb, l2) = match read_uvarint(data, l1) {
        Ok(x) => x,
        Err(e) => {
            return Err(e);
        },
    };
    proof {
        assert(decode_uvarint(d.skip(l1 as int)) == Some(qb));
        lemma_decode_uvarint_some(d.skip(l1 as int));
        assert(l2 == leb128(qb as nat).len());
        assert(l1 + l2 <= d.len());
    }
    if qb > u32::MAX as u64 {
        return Err(CpError::Corrupt);
    }
    let p2: usize = l1 + l2;
    assert(d.skip(l1 as int).skip(l2 as int) =~= d.skip(p2 as int));
    let (ob, l3) = match read_uvarint(data, p2) {
        Ok(x) => x,
        Err(e) => {
            return Err(e);
        },
    };
    proof {
        assert(decode_uvarint(d.skip(p2 as int)) == Some(ob));
        lemma_decode_uvarint_some(d.skip(p2 as int));
        assert(l3 == leb128(ob as nat).len());
        assert(p2 + l3 <= d.len());
    }
    let p3: usize = p2 + l3;
    let (sb, l4) = match read_uvarint(data, p3) {
        Ok(x) => x,
        Err(e) => {
            return Err(e);
        },
    };
    proof {
        assert(decode_uvarint(d.skip(p3 as int)) == Some(sb));
        lemma_decode_uvarint_some(d.skip(p3 as int));
        assert(l4 == leb128(sb as nat).len());
        assert(p3 + l4 <= d.len());
    }
    let p4: usize = p3 + l4;
    if n > (data.len() - p4) as u64 {
        proof {
            lemma_unpacked_some(d.skip(p4 as int), n as nat);
            if let Some((xs, _)) = unpacked(d.skip(p4 as int), n as nat) {
                lemma_packed_len(0, xs);
            }
        }
        return Err(CpError::Corrupt);
    }
    let count: usize = n as usize;
    let (ts, p5) = match unpack(data, p4, count) {
        Ok(x) => x,
        Err(e) => {
            return Err(e);
        },
    };
    let (q, p6) = match unpack(data, p5, count) {
        Ok(x) => x,
        Err(e) => {
            return Err(e);
        },
    };
    if p6 != data.len() {
        return Err(CpError::Corrupt);
    }
    match check_series(ts.as_slice(), q.len()) {
        Ok(()) => {},
        Err(_) => {
            return Err(CpError::Corrupt);
        },
    }
    let h = QuantHeader { quant_bits: qb as u32, offset_bits: ob, step_bits: sb };
    Ok((ts, q, h))
}

/// The number of bytes that `n_input` raw points take: an `i64` timestamp
/// and an `f64` value each.
pub fn raw_size(n_input: usize) -> (b: usize)
    requires
        n_input * 16 <= usize::MAX,
    ensures
        b == n_input * 16,
{
    n_input * 16
}

} // verus!
