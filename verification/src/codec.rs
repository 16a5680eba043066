//! Length-prefixed framing of log records: every record is a 4-byte
//! big-endian length followed by that many payload bytes.
use vstd::prelude::*;
use bytes::{Buf, BufMut};

verus! {

/// The four big-endian bytes of `n`.
pub open spec fn be32(n: u32) -> Seq<u8> {
    seq![
        ((n >> 24u32) & 0xffu32) as u8,
        ((n >> 16u32) & 0xffu32) as u8,
        ((n >> 8u32) & 0xffu32) as u8,
        (n & 0xffu32) as u8,
    ]
}

/// The number that the first four bytes of `b` denote when read big-endian.
pub open spec fn be32_value(b: Seq<u8>) -> nat
    recommends
        b.len() >= 4,
{
    (b[0] as nat) * 0x1000000 + (b[1] as nat) * 0x10000 + (b[2] as nat) * 0x100 + (b[3] as nat)
}

/// Reading back the big-endian bytes of a number gives the number.
pub proof fn lemma_be32_roundtrip(n: u32)
    ensures
        be32_value(be32(n)) == n,
{
    let b0 = ((n >> 24u32) & 0xffu32) as u8;
    let b1 = ((n >> 16u32) & 0xffu32) as u8;
    let b2 = ((n >> 8u32) & 0xffu32) as u8;
    let b3 = (n & 0xffu32) as u8;
    assert((b0 as nat) * 0x1000000 + (b1 as nat) * 0x10000 + (b2 as nat) * 0x100 + (b3 as nat)
        == n) by (bit_vector)
        requires
            b0 == ((n >> 24u32) & 0xffu32) as u8,
            b1 == ((n >> 16u32) & 0xffu32) as u8,
            b2 == ((n >> 8u32) & 0xffu32) as u8,
            b3 == (n & 0xffu32) as u8,
    ;
}

/// One record: the length header followed by the payload.
pub open spec fn frame(payload: Seq<u8>) -> Seq<u8> {
    be32(payload.len() as u32) + payload
}

/// A payload fits in a record when its length fits the 32-bit header.
pub open spec fn payloads_fit(ps: Seq<Seq<u8>>) -> bool {
    forall|i: int| 0 <= i < ps.len() ==> #[trigger] ps[i].len() <= u32::MAX
}

/// The bytes of a log holding the records `ps`, in order.
pub open spec fn frames(ps: Seq<Seq<u8>>) -> Seq<u8>
    decreases ps.len(),
{
    if ps.len() == 0 {
        Seq::empty()
    } else {
        frames(ps.drop_last()) + frame(ps.last())
    }
}

/// The records that a log's bytes hold, read from the front; `None` when the
/// bytes end inside a header or inside a payload.
pub open spec fn parse_frames(b: Seq<u8>) -> Option<Seq<Seq<u8>>>
    decreases b.len(),
{
    if b.len() == 0 {
        Some(Seq::empty())
    } else if b.len() < 4 {
        None
    } else {
        let n = be32_value(b) as int;
        if 4 + n > b.len() {
            None
        } else {
            match parse_frames(b.subrange(4 + n, b.len() as int)) {
                Some(rest) => Some(seq![b.subrange(4, 4 + n)] + rest),
                None => None,
            }
        }
    }
}

/// The position of the payload of record `j` in the bytes of the log `ps`.
pub open spec fn payload_offset(ps: Seq<Seq<u8>>, j: int) -> int
    decreases j,
{
    if j <= 0 {
        4
    } else {
        payload_offset(ps, j - 1) + ps[j - 1].len() + 4
    }
}

pub proof fn lemma_frames_len(ps: Seq<Seq<u8>>)
    ensures
        frames(ps).len() == payload_offset(ps, ps.len() as int) - 4,
    decreases ps.len(),
{
    if ps.len() > 0 {
        lemma_frames_len(ps.drop_last());
        lemma_payload_offset_prefix(ps, ps.drop_last(), ps.len() - 1);
    }
}

/// The payload offsets of the first `j` records depend on those records only.
pub proof fn lemma_payload_offset_prefix(ps: Seq<Seq<u8>>, qs: Seq<Seq<u8>>, j: int)
    requires
        0 <= j <= ps.len(),
        j <= qs.len(),
        forall|i: int| 0 <= i < j ==> ps[i] == qs[i],
    ensures
        payload_offset(ps, j) == payload_offset(qs, j),
    decreases j,
{
    if j > 0 {
        lemma_payload_offset_prefix(ps, qs, j - 1);
    }
}

pub proof fn lemma_payload_offset_ge4(ps: Seq<Seq<u8>>, j: int)
    ensures
        payload_offset(ps, j) >= 4,
    decreases j,
{
    if j > 0 {
        lemma_payload_offset_ge4(ps, j - 1);
    }
}

/// Payload offsets grow strictly with the record number.
pub proof fn lemma_payload_offset_increasing(ps: Seq<Seq<u8>>, i: int, j: int)
    requires
        0 <= i < j,
    ensures
        payload_offset(ps, i) + 4 <= payload_offset(ps, j),
    decreases j,
{
    if i < j - 1 {
        lemma_payload_offset_increasing(ps, i, j - 1);
    }
}

/// Within the bytes of a log, record `j`'s header sits just before its
/// payload offset and its payload just after.
pub proof fn lemma_frames_at(ps: Seq<Seq<u8>>, j: int)
    requires
        0 <= j < ps.len(),
    ensures
        frames(ps).len() >= payload_offset(ps, j) + ps[j].len(),
        frames(ps).subrange(payload_offset(ps, j) - 4, payload_offset(ps, j)) == be32(
            ps[j].len() as u32,
        ),
        frames(ps).subrange(payload_offset(ps, j), payload_offset(ps, j) + ps[j].len()) == ps[j],
    decreases ps.len(),
{
    let last = ps.len() - 1;
    let init = ps.drop_last();
    lemma_payload_offset_prefix(ps, init, j);
    lemma_frames_len(init);
    lemma_payload_offset_prefix(ps, init, last);
    if j < last {
        lemma_frames_at(init, j);
        assert(init[j] == ps[j]);
        assert(payload_offset(ps, j) == payload_offset(init, j));
        assert(frames(init).len() >= payload_offset(ps, j) + ps[j].len());
        assert(payload_offset(ps, j) >= 4) by { lemma_payload_offset_ge4(ps, j); }
        assert(frames(ps) == frames(init) + frame(ps.last()));
        assert(frames(ps).subrange(payload_offset(ps, j) - 4, payload_offset(ps, j))
            =~= frames(init).subrange(payload_offset(ps, j) - 4, payload_offset(ps, j)));
        assert(frames(ps).subrange(payload_offset(ps, j), payload_offset(ps, j) + ps[j].len())
            =~= frames(init).subrange(payload_offset(ps, j), payload_offset(ps, j) + ps[j].len()));
    } else {
        assert(frames(ps) == frames(init) + frame(ps.last()));
        assert(frames(ps).subrange(payload_offset(ps, j) - 4, payload_offset(ps, j)) =~= be32(
            ps[j].len() as u32,
        ));
        assert(frames(ps).subrange(payload_offset(ps, j), payload_offset(ps, j) + ps[j].len())
            =~= ps[j]);
    }
}

/// `frames` read from the front: the first record, then the rest.
pub proof fn lemma_frames_front(ps: Seq<Seq<u8>>)
    requires
        ps.len() > 0,
    ensures
        frames(ps) == frame(ps[0]) + frames(ps.drop_first()),
    decreases ps.len(),
{
    if ps.len() == 1 {
        assert(ps.drop_first() =~= Seq::<Seq<u8>>::empty());
        assert(ps.drop_last() =~= Seq::<Seq<u8>>::empty());
        assert(frames(ps) =~= frame(ps[0]) + frames(ps.drop_first()));
    } else {
        lemma_frames_front(ps.drop_last());
        assert(ps.drop_last().drop_first() =~= ps.drop_first().drop_last());
        assert(ps.drop_first().last() == ps.last());
        assert(frames(ps) =~= frame(ps[0]) + frames(ps.drop_first()));
    }
}

/// Law: the bytes of records whose lengths fit the header read back as
/// exactly those records.
pub proof fn lemma_parse_frames_roundtrip(ps: Seq<Seq<u8>>)
    requires
        payloads_fit(ps),
    ensures
        parse_frames(frames(ps)) == Some(ps),
    decreases ps.len(),
{
    if ps.len() == 0 {
    } else {
        let b = frames(ps);
        let rest = ps.drop_first();
        lemma_frames_front(ps);
        assert(ps[0].len() <= u32::MAX);
        lemma_be32_roundtrip(ps[0].len() as u32);
        assert(b.subrange(0, 4) =~= be32(ps[0].len() as u32));
        assert(be32_value(b) == be32_value(b.subrange(0, 4)));
        let n = ps[0].len() as int;
        assert(b.subrange(4, 4 + n) =~= ps[0]);
        assert(b.subrange(4 + n, b.len() as int) =~= frames(rest));
        assert forall|i: int| 0 <= i < rest.len() implies #[trigger] rest[i].len() <= u32::MAX by {
            assert(rest[i] == ps[i + 1]);
        }
        lemma_parse_frames_roundtrip(rest);
        assert(seq![ps[0]] + rest =~= ps);
    }
}

/// Law: bytes that read as records are exactly the bytes of those records.
pub proof fn lemma_parse_frames_exact(b: Seq<u8>)
    requires
        parse_frames(b) is Some,
    ensures
        frames(parse_frames(b).unwrap()) == b,
        payloads_fit(parse_frames(b).unwrap()),
    decreases b.len(),
{
    if b.len() > 0 {
        let n = be32_value(b) as int;
        let tail = b.subrange(4 + n, b.len() as int);
        lemma_parse_frames_exact(tail);
        let rest = parse_frames(tail).unwrap();
        let ps = parse_frames(b).unwrap();
        assert(ps == seq![b.subrange(4, 4 + n)] + rest);
        assert(ps.drop_first() =~= rest);
        lemma_frames_front(ps);
        assert(n <= u32::MAX) by {
            assert(b[0] < 256 && b[1] < 256 && b[2] < 256 && b[3] < 256);
        }
        lemma_be32_value_bytes(b);
        assert(b =~= frame(ps[0]) + frames(rest));
        assert forall|i: int| 0 <= i < ps.len() implies #[trigger] ps[i].len() <= u32::MAX by {
            if i > 0 {
                assert(ps[i] == rest[i - 1]);
            }
        }
    }
}

/// The first four bytes of `b` are the big-endian bytes of the number they
/// denote.
pub proof fn lemma_be32_value_bytes(b: Seq<u8>)
    requires
        b.len() >= 4,
    ensures
        be32_value(b) <= u32::MAX,
        be32(be32_value(b) as u32) == b.subrange(0, 4),
{
    let b0 = b[0];
    let b1 = b[1];
    let b2 = b[2];
    let b3 = b[3];
    let v: u32 = ((b0 as u32) << 24u32) | ((b1 as u32) << 16u32) | ((b2 as u32) << 8u32) | (b3 as u32);
    assert(v == (b0 as nat) * 0x1000000 + (b1 as nat) * 0x10000 + (b2 as nat) * 0x100 + (b3 as nat)
        && ((v >> 24u32) & 0xffu32) as u8 == b0 && ((v >> 16u32) & 0xffu32) as u8 == b1
        && ((v >> 8u32) & 0xffu32) as u8 == b2 && (v & 0xffu32) as u8 == b3) by (bit_vector)
        requires
            v == ((b0 as u32) << 24u32) | ((b1 as u32) << 16u32) | ((b2 as u32) << 8u32) | (b3 as u32),
    ;
    assert(be32(be32_value(b) as u32) =~= b.subrange(0, 4));
}

/// `BufMut::put_u32` of the `bytes` crate on a `Vec<u8>`: appends the four
/// big-endian bytes of `n`.
#[verifier::external_body]
fn put_u32(buf: &mut Vec<u8>, n: u32)
    ensures
        final(buf)@ == old(buf)@ + be32(n),
{
    buf.put_u32(n)
}

/// `Buf::get_u32` of the `bytes` crate on a byte slice: reads the first four
/// bytes as a big-endian number (it panics on fewer than four bytes).
#[verifier::external_body]
fn get_u32(bytes: &[u8]) -> (n: u32)
    requires
        bytes@.len() >= 4,
    ensures
        n == be32_value(bytes@),
{
    let mut b: &[u8] = bytes;
    b.get_u32()
}

/// The record for `payload`: its length as four big-endian bytes, then the
/// payload.
pub fn encode_frame(payload: &[u8]) -> (framed: Vec<u8>)
    requires
        payload@.len() <= u32::MAX,
    ensures
        framed@ == frame(payload@),
{
    let mut framed: Vec<u8> = Vec::new();
    put_u32(&mut framed, payload.len() as u32);
    framed.extend_from_slice(payload);
    framed
}

/// The payload length that a record header announces.
pub fn frame_payload_len(header: &[u8]) -> (len: usize)
    requires
        header@.len() >= 4,
    ensures
        len == be32_value(header@),
{
    let n = get_u32(header);
    n as usize
}

/// Where each record of a log starts and how long it is: for record `j`, the
/// position of its payload and the payload's length. `None` when the bytes
/// do not split into whole records.
pub fn scan_frames(bytes: &[u8]) -> (found: Option<Vec<(usize, usize)>>)
    ensures
        found is None <==> parse_frames(bytes@) is None,
        found matches Some(v) ==> {
            let ps = parse_frames(bytes@).unwrap();
            &&& v@.len() == ps.len()
            &&& forall|j: int|
                0 <= j < ps.len() ==> (#[trigger] v@[j]).0 == payload_offset(ps, j) && v@[j].1
                    == ps[j].len()
        },
{
    let len = bytes.len();
    let mut pos: usize = 0;
    let mut found: Vec<(usize, usize)> = Vec::new();
    let ghost mut collected: Seq<Seq<u8>> = Seq::empty();
    assert(bytes@.subrange(0, len as int) =~= bytes@);
    while pos < len
        invariant
            len == bytes@.len(),
            pos <= len,
            pos == payload_offset(collected, collected.len() as int) - 4,
            match parse_frames(bytes@.subrange(pos as int, len as int)) {
                Some(r) => parse_frames(bytes@) == Some(collected + r),
                None => parse_frames(bytes@) is None,
            },
            found@.len() == collected.len(),
            forall|j: int|
                0 <= j < collected.len() ==> (#[trigger] found@[j]).0 == payload_offset(
                    collected,
                    j,
                ) && found@[j].1 == collected[j].len(),
        decreases len - pos,
    {
        let ghost rest = bytes@.subrange(pos as int, len as int);
        if len - pos < 4 {
            return None;
        }
        let n = get_u32(&bytes[pos..pos + 4]);
        assert(be32_value(bytes@.subrange(pos as int, pos + 4)) == be32_value(rest));
        if (n as usize) > len - pos - 4 {
            return None;
        }
        let ghost payload = rest.subrange(4, 4 + n);
        proof {
            assert(rest.subrange(4 + n, rest.len() as int) =~= bytes@.subrange(
                pos + 4 + n,
                len as int,
            ));
            let old_collected = collected;
            match parse_frames(rest.subrange(4 + n, rest.len() as int)) {
                Some(r2) => {
                    assert(old_collected + (seq![payload] + r2) =~= old_collected.push(payload)
                        + r2);
                },
                None => {},
            }
            collected = collected.push(payload);
            lemma_payload_offset_prefix(collected, old_collected, old_collected.len() as int);
            assert forall|j: int| 0 <= j < old_collected.len() implies payload_offset(collected, j)
                == payload_offset(old_collected, j) by {
                lemma_payload_offset_prefix(collected, old_collected, j);
            }
        }
        found.push((pos + 4, n as usize));
        pos = pos + 4 + n as usize;
    }
    assert(bytes@.subrange(pos as int, len as int) =~= Seq::<u8>::empty());
    assert(collected + Seq::<Seq<u8>>::empty() =~= collected);
    Some(found)
}

} // verus!
