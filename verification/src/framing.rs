use vstd::prelude::*;

use crate::CompressorError;
use crate::canon::{canon, lemma_canon_len, lemma_canon_push};
use crate::codec::{
    CompressedStateEvent, be_bytes, compress, decode, decode_spec, enc16, lemma_decode_compress,
    lemma_u64_be_roundtrip, u64_from_be,
};
use crate::sets::StateSet;
use crate::store::StateDiff;

verus! {

/// The events read back from a byte string, sixteen bytes at a time, in
/// order. A trailing fragment shorter than one event is ignored.
pub open spec fn chunk_events(s: Seq<u8>) -> Seq<CompressedStateEvent>
    decreases s.len(),
{
    if s.len() < 16 {
        Seq::empty()
    } else {
        seq![decode_spec(s.take(16))] + chunk_events(s.skip(16))
    }
}

/// Chunking inverts concatenation: the events of a serialised sequence are
/// the sequence itself.
pub proof fn lemma_chunks_of_canon(s: Seq<CompressedStateEvent>)
    ensures
        chunk_events(canon(s)) == s,
    decreases s.len(),
{
    lemma_canon_len(s);
    if s.len() == 0 {
        assert(chunk_events(canon(s)) =~= s);
    } else {
        assert(canon(s).take(16) =~= enc16(s[0]));
        lemma_decode_compress(s[0]);
        assert(canon(s).skip(16) =~= canon(s.skip(1)));
        lemma_chunks_of_canon(s.skip(1));
        assert(chunk_events(canon(s)) =~= s);
    }
}

/// Appending one whole event to a whole serialisation appends its decoding.
proof fn lemma_chunk_snoc(s: Seq<u8>, c: Seq<u8>)
    requires
        s.len() % 16 == 0,
        c.len() == 16,
    ensures
        chunk_events(s + c) == chunk_events(s).push(decode_spec(c)),
    decreases s.len(),
{
    if s.len() == 0 {
        assert((s + c).len() == 16);
        assert((s + c).take(16) =~= c);
        assert((s + c).skip(16) =~= Seq::<u8>::empty());
        assert(chunk_events(s + c) == seq![decode_spec((s + c).take(16))] + chunk_events(
            (s + c).skip(16),
        ));
        assert(chunk_events((s + c).skip(16)) == Seq::<CompressedStateEvent>::empty());
        assert(decode_spec((s + c).take(16)) == decode_spec(c));
        assert(chunk_events(s) == Seq::<CompressedStateEvent>::empty());
        assert(chunk_events(s + c) =~= chunk_events(s).push(decode_spec(c)));
    } else {
        assert((s + c).take(16) =~= s.take(16));
        assert((s + c).skip(16) =~= s.skip(16) + c);
        assert(s.skip(16).len() % 16 == 0) by {
            assert(s.skip(16).len() == s.len() - 16);
        }
        lemma_chunk_snoc(s.skip(16), c);
        assert(chunk_events(s + c) =~= chunk_events(s).push(decode_spec(c)));
    }
}

/// The stored parent link of record bytes: zero stands for none.
pub open spec fn record_parent(s: Seq<u8>) -> Option<u64> {
    if u64_from_be(s.take(8)) == 0 {
        None
    } else {
        Some(u64_from_be(s.take(8)))
    }
}

/// The stored count of added events.
pub open spec fn record_added_count(s: Seq<u8>) -> u64 {
    u64_from_be(s.subrange(8, 16))
}

/// Record bytes are well formed: room for the header, for as many added
/// events as the count names, and whole events after them.
pub open spec fn valid_record(s: Seq<u8>) -> bool {
    &&& s.len() >= 16
    &&& s.len() >= 16 + 16 * (record_added_count(s) as int)
    &&& (s.len() - 16) % 16 == 0
}

/// The bytes holding the added events.
pub open spec fn record_added_bytes(s: Seq<u8>) -> Seq<u8> {
    s.subrange(16, 16 + 16 * (record_added_count(s) as int))
}

/// The bytes holding the removed events.
pub open spec fn record_removed_bytes(s: Seq<u8>) -> Seq<u8> {
    s.subrange(16 + 16 * (record_added_count(s) as int), s.len() as int)
}

/// The serialised form of one record: parent (eight bytes, zero for none),
/// number of added events (eight bytes), the added events, then the removed
/// events, sixteen bytes each.
pub open spec fn statediff_bytes(
    parent: u64,
    added: Seq<CompressedStateEvent>,
    removed: Seq<CompressedStateEvent>,
) -> Seq<u8> {
    be_bytes(parent) + be_bytes(added.len() as u64) + canon(added) + canon(removed)
}

/// Append the eight big-endian bytes of `x`.
fn push_u64_be(out: &mut Vec<u8>, x: u64)
    ensures
        final(out)@ == old(out)@ + be_bytes(x),
{
    out.push(#[verifier::truncate] ((x >> 56u64) as u8));
    out.push(#[verifier::truncate] ((x >> 48u64) as u8));
    out.push(#[verifier::truncate] ((x >> 40u64) as u8));
    out.push(#[verifier::truncate] ((x >> 32u64) as u8));
    out.push(#[verifier::truncate] ((x >> 24u64) as u8));
    out.push(#[verifier::truncate] ((x >> 16u64) as u8));
    out.push(#[verifier::truncate] ((x >> 8u64) as u8));
    out.push(#[verifier::truncate] (x as u8));
    proof {
        assert(x >> 0u64 == x) by (bit_vector);
        assert(out@ =~= old(out)@ + be_bytes(x));
    }
}

/// Append the serialised events of a set, in its stored order.
fn push_events(out: &mut Vec<u8>, s: &StateSet)
    ensures
        final(out)@ == old(out)@ + canon(s.elems@),
{
    let n = s.len();
    let mut i: usize = 0;
    while i < n
        invariant
            n == s.elems@.len(),
            i <= n,
            out@ == old(out)@ + canon(s.elems@.take(i as int)),
        decreases n - i,
    {
        let bytes = compress(s.get(i));
        let mut k: usize = 0;
        while k < 16
            invariant
                k <= 16,
                bytes@.len() == 16,
                out@ == old(out)@ + canon(s.elems@.take(i as int)) + bytes@.take(k as int),
                i < n,
                n == s.elems@.len(),
                bytes@ == enc16(s.elems@[i as int]),
            decreases 16 - k,
        {
            out.push(bytes[k]);
            proof {
                assert(bytes@.take(k + 1) =~= bytes@.take(k as int).push(bytes@[k as int]));
                assert(out@ =~= old(out)@ + canon(s.elems@.take(i as int)) + bytes@.take(k + 1));
            }
            k += 1;
        }
        proof {
            assert(bytes@.take(16) =~= bytes@);
            assert(s.elems@.take(i + 1) =~= s.elems@.take(i as int).push(s.elems@[i as int]));
            lemma_canon_push(s.elems@.take(i as int), s.elems@[i as int]);
            assert(out@ =~= old(out)@ + canon(s.elems@.take(i + 1)));
        }
        i += 1;
    }
    proof {
        assert(s.elems@.take(n as int) =~= s.elems@);
    }
}

/// Serialise one record for the ordered key-value backend.
pub fn encode_statediff(d: &StateDiff) -> (r: Vec<u8>)
    requires
        d.parent != Some(0u64),
    ensures
        r@ == statediff_bytes(
            match d.parent {
                None => 0u64,
                Some(p) => p,
            },
            d.added.elems@,
            d.removed.elems@,
        ),
{
    let mut out: Vec<u8> = Vec::new();
    let parent_code: u64 = match d.parent {
        None => 0,
        Some(p) => p,
    };
    push_u64_be(&mut out, parent_code);
    push_u64_be(&mut out, d.added.len() as u64);
    push_events(&mut out, &d.added);
    push_events(&mut out, &d.removed);
    proof {
        assert(out@ =~= statediff_bytes(
            match d.parent {
                None => 0u64,
                Some(p) => p,
            },
            d.added.elems@,
            d.removed.elems@,
        ));
    }
    out
}

/// Read the eight big-endian bytes at `off` back as a `u64`.
fn read_u64_at(bytes: &Vec<u8>, off: usize) -> (r: u64)
    requires
        off + 8 <= bytes@.len(),
    ensures
        r == u64_from_be(bytes@.subrange(off as int, off as int + 8)),
{
    let n = bytes.len();
    proof {
        assert(off + 8 <= n);
    }
    let r = ((bytes[off] as u64) << 56u64) | ((bytes[off + 1] as u64) << 48u64) | ((bytes[off
        + 2] as u64) << 40u64) | ((bytes[off + 3] as u64) << 32u64) | ((bytes[off + 4] as u64)
        << 24u64) | ((bytes[off + 5] as u64) << 16u64) | ((bytes[off + 6] as u64) << 8u64) | (
    bytes[off + 7] as u64);
    proof {
        let s = bytes@.subrange(off as int, off as int + 8);
        assert(s[0] == bytes@[off as int] && s[1] == bytes@[off + 1] && s[2] == bytes@[off + 2]
            && s[3] == bytes@[off + 3] && s[4] == bytes@[off + 4] && s[5] == bytes@[off + 5]
            && s[6] == bytes@[off + 6] && s[7] == bytes@[off + 7]);
    }
    r
}

/// Read the sixteen bytes at `off` back as one event.
fn read_event_at(bytes: &Vec<u8>, off: usize) -> (r: CompressedStateEvent)
    requires
        off + 16 <= bytes@.len(),
    ensures
        r == decode_spec(bytes@.subrange(off as int, off as int + 16)),
{
    let n = bytes.len();
    proof {
        assert(off + 16 <= n);
    }
    let chunk: [u8; 16] = [
        bytes[off],
        bytes[off + 1],
        bytes[off + 2],
        bytes[off + 3],
        bytes[off + 4],
        bytes[off + 5],
        bytes[off + 6],
        bytes[off + 7],
        bytes[off + 8],
        bytes[off + 9],
        bytes[off + 10],
        bytes[off + 11],
        bytes[off + 12],
        bytes[off + 13],
        bytes[off + 14],
        bytes[off + 15],
    ];
    proof {
        assert(chunk@ =~= bytes@.subrange(off as int, off as int + 16));
    }
    decode(&chunk)
}

/// Read whole events from `bytes`, starting at `start` and taking `count`
/// of them.
fn read_events(bytes: &Vec<u8>, start: usize, count: usize) -> (r: StateSet)
    requires
        start + 16 * count <= bytes@.len(),
    ensures
        r.elems@ == chunk_events(bytes@.subrange(start as int, start as int + 16 * count)),
{
    let n = bytes.len();
    proof {
        assert(start + 16 * count <= n);
    }
    let mut out: Vec<CompressedStateEvent> = Vec::new();
    let mut i: usize = 0;
    proof {
        assert(bytes@.subrange(start as int, start as int) =~= Seq::<u8>::empty());
    }
    while i < count
        invariant
            n == bytes@.len(),
            start + 16 * count <= n,
            i <= count,
            out@ == chunk_events(bytes@.subrange(start as int, start as int + 16 * i)),
        decreases count - i,
    {
        let ev = read_event_at(bytes, start + 16 * i);
        out.push(ev);
        proof {
            let head = bytes@.subrange(start as int, start as int + 16 * i);
            let c = bytes@.subrange(start + 16 * i, start + 16 * i + 16);
            assert(head.len() % 16 == 0) by {
                assert(head.len() == 16 * i);
                assert((16 * (i as int)) % 16 == 0) by (nonlinear_arith);
            }
            lemma_chunk_snoc(head, c);
            assert(head + c =~= bytes@.subrange(start as int, start as int + 16 * (i + 1)));
        }
        i += 1;
    }
    StateSet { elems: out }
}

/// Deserialise one record. Bytes that do not frame whole events, or whose
/// added count does not fit what is there, are refused as corruption.
pub fn decode_statediff(bytes: &Vec<u8>) -> (r: Result<StateDiff, CompressorError>)
    ensures
        match r {
            Ok(d) => {
                &&& valid_record(bytes@)
                &&& d.parent == record_parent(bytes@)
                &&& d.added.elems@ == chunk_events(record_added_bytes(bytes@))
                &&& d.removed.elems@ == chunk_events(record_removed_bytes(bytes@))
            },
            Err(e) => e == CompressorError::Corruption && !valid_record(bytes@),
        },
{
    let n = bytes.len();
    if n < 16 {
        return Err(CompressorError::Corruption);
    }
    if (n - 16) % 16 != 0 {
        return Err(CompressorError::Corruption);
    }
    let parent_code = read_u64_at(bytes, 0);
    proof {
        assert(bytes@.subrange(0, 8) =~= bytes@.take(8));
    }
    let count64 = read_u64_at(bytes, 8);
    if (count64 as u128) * 16 > (n as u128) - 16 {
        return Err(CompressorError::Corruption);
    }
    let count = count64 as usize;
    let added = read_events(bytes, 16, count);
    let removed_count = (n - 16) / 16 - count;
    let removed = read_events(bytes, 16 + 16 * count, removed_count);
    proof {
        assert(16 + 16 * (count as int) + 16 * (removed_count as int) == n) by (nonlinear_arith)
            requires
                removed_count as int == ((n as int) - 16) / 16 - (count as int),
                ((n as int) - 16) % 16 == 0,
                n >= 16,
                16 * (count as int) <= (n as int) - 16,
        ;
        assert(record_added_bytes(bytes@) =~= bytes@.subrange(16, 16 + 16 * (count as int)));
        assert(record_removed_bytes(bytes@) =~= bytes@.subrange(
            16 + 16 * (count as int),
            16 + 16 * (count as int) + 16 * (removed_count as int),
        ));
    }
    let parent = if parent_code == 0 {
        None
    } else {
        Some(parent_code)
    };
    Ok(StateDiff { parent, added, removed })
}

/// The serialised form of a record decodes back to it: the parent link and
/// both event sequences are recovered exactly, so the framing loses nothing.
pub proof fn lemma_record_roundtrip(
    parent: u64,
    added: Seq<CompressedStateEvent>,
    removed: Seq<CompressedStateEvent>,
)
    requires
        added.len() < u64::MAX,
        removed.len() < u64::MAX,
    ensures
        ({
            let s = statediff_bytes(parent, added, removed);
            &&& valid_record(s)
            &&& record_parent(s) == if parent == 0 {
                Option::<u64>::None
            } else {
                Option::<u64>::Some(parent)
            }
            &&& chunk_events(record_added_bytes(s)) == added
            &&& chunk_events(record_removed_bytes(s)) == removed
        }),
{
    let s = statediff_bytes(parent, added, removed);
    lemma_canon_len(added);
    lemma_canon_len(removed);
    assert(s.take(8) =~= be_bytes(parent));
    lemma_u64_be_roundtrip(parent);
    assert(s.subrange(8, 16) =~= be_bytes(added.len() as u64));
    lemma_u64_be_roundtrip(added.len() as u64);
    assert(record_added_count(s) == added.len());
    assert((s.len() - 16) % 16 == 0) by {
        assert(s.len() - 16 == 16 * added.len() + 16 * removed.len());
        assert((16 * (added.len() as int) + 16 * (removed.len() as int)) % 16 == 0)
            by (nonlinear_arith);
    }
    assert(record_added_bytes(s) =~= canon(added));
    assert(record_removed_bytes(s) =~= canon(removed));
    lemma_chunks_of_canon(added);
    lemma_chunks_of_canon(removed);
}

} // verus!
