use vstd::prelude::*;

verus! {

/// A state event in compressed form: the two short identifiers that together
/// stand for one `(event_type, state_key) -> event_id` entry of a room state.
#[derive(Clone, Copy, PartialEq, Eq, Structural, Debug, Hash)]
pub struct CompressedStateEvent {
    pub short_state_key: u64,
    pub short_event_id: u64,
}

/// Byte `j` (0-based, most significant first) of the big-endian encoding of `x`.
pub open spec fn be_byte(x: u64, j: int) -> u8
    recommends
        0 <= j < 8,
{
    (x >> (((7 - j) * 8) as u64)) as u8
}

/// The eight bytes of `x`, big-endian.
pub open spec fn be_bytes(x: u64) -> Seq<u8> {
    Seq::new(8, |j: int| be_byte(x, j))
}

/// The 16-byte wire form of a compressed event: big-endian `short_state_key`
/// followed by big-endian `short_event_id`.
pub open spec fn enc16(ev: CompressedStateEvent) -> Seq<u8> {
    be_bytes(ev.short_state_key) + be_bytes(ev.short_event_id)
}

/// The `u64` read back from eight big-endian bytes.
pub open spec fn u64_from_be(s: Seq<u8>) -> u64
    recommends
        s.len() == 8,
{
    ((s[0] as u64) << 56) | ((s[1] as u64) << 48) | ((s[2] as u64) << 40)
        | ((s[3] as u64) << 32) | ((s[4] as u64) << 24) | ((s[5] as u64) << 16)
        | ((s[6] as u64) << 8) | (s[7] as u64)
}

/// The event read back from a 16-byte wire form.
pub open spec fn decode_spec(s: Seq<u8>) -> CompressedStateEvent
    recommends
        s.len() == 16,
{
    CompressedStateEvent {
        short_state_key: u64_from_be(s.take(8)),
        short_event_id: u64_from_be(s.skip(8)),
    }
}

/// Encode an event as its 16-byte wire form.
pub fn compress(ev: CompressedStateEvent) -> (r: [u8; 16])
    ensures
        r@ == enc16(ev),
{
    let k = ev.short_state_key;
    let e = ev.short_event_id;
    let r: [u8; 16] = [
        #[verifier::truncate] ((k >> 56u64) as u8),
        #[verifier::truncate] ((k >> 48u64) as u8),
        #[verifier::truncate] ((k >> 40u64) as u8),
        #[verifier::truncate] ((k >> 32u64) as u8),
        #[verifier::truncate] ((k >> 24u64) as u8),
        #[verifier::truncate] ((k >> 16u64) as u8),
        #[verifier::truncate] ((k >> 8u64) as u8),
        #[verifier::truncate] (k as u8),
        #[verifier::truncate] ((e >> 56u64) as u8),
        #[verifier::truncate] ((e >> 48u64) as u8),
        #[verifier::truncate] ((e >> 40u64) as u8),
        #[verifier::truncate] ((e >> 32u64) as u8),
        #[verifier::truncate] ((e >> 24u64) as u8),
        #[verifier::truncate] ((e >> 16u64) as u8),
        #[verifier::truncate] ((e >> 8u64) as u8),
        #[verifier::truncate] (e as u8),
    ];
    proof {
        assert(k >> 0u64 == k) by (bit_vector);
        assert(e >> 0u64 == e) by (bit_vector);
        assert(r@ =~= enc16(ev));
    }
    r
}

/// Decode a 16-byte wire form back into an event.
pub fn decode(bytes: &[u8; 16]) -> (r: CompressedStateEvent)
    ensures
        r == decode_spec(bytes@),
{
    let k = ((bytes[0] as u64) << 56u64) | ((bytes[1] as u64) << 48u64)
        | ((bytes[2] as u64) << 40u64) | ((bytes[3] as u64) << 32u64)
        | ((bytes[4] as u64) << 24u64) | ((bytes[5] as u64) << 16u64)
        | ((bytes[6] as u64) << 8u64) | (bytes[7] as u64);
    let e = ((bytes[8] as u64) << 56u64) | ((bytes[9] as u64) << 48u64)
        | ((bytes[10] as u64) << 40u64) | ((bytes[11] as u64) << 32u64)
        | ((bytes[12] as u64) << 24u64) | ((bytes[13] as u64) << 16u64)
        | ((bytes[14] as u64) << 8u64) | (bytes[15] as u64);
    proof {
        assert(bytes@.take(8) =~= Seq::new(8, |j: int| bytes@[j]));
        assert(bytes@.skip(8) =~= Seq::new(8, |j: int| bytes@[j + 8]));
    }
    CompressedStateEvent { short_state_key: k, short_event_id: e }
}

/// A `u64` is recovered exactly from its own big-endian bytes.
pub proof fn lemma_u64_be_roundtrip(x: u64)
    ensures
        u64_from_be(be_bytes(x)) == x,
{
    let s = be_bytes(x);
    assert(s[0] == ((x >> 56u64) as u8) && s[1] == ((x >> 48u64) as u8)
        && s[2] == ((x >> 40u64) as u8) && s[3] == ((x >> 32u64) as u8)
        && s[4] == ((x >> 24u64) as u8) && s[5] == ((x >> 16u64) as u8)
        && s[6] == ((x >> 8u64) as u8) && s[7] == ((x >> 0u64) as u8));
    assert(((((x >> 56u64) as u8) as u64) << 56) | ((((x >> 48u64) as u8) as u64) << 48)
        | ((((x >> 40u64) as u8) as u64) << 40) | ((((x >> 32u64) as u8) as u64) << 32)
        | ((((x >> 24u64) as u8) as u64) << 24) | ((((x >> 16u64) as u8) as u64) << 16)
        | ((((x >> 8u64) as u8) as u64) << 8) | (((x >> 0u64) as u8) as u64) == x)
        by (bit_vector);
}

/// Decoding inverts encoding: `decode_spec` after `enc16` is the identity.
pub proof fn lemma_decode_compress(ev: CompressedStateEvent)
    ensures
        decode_spec(enc16(ev)) == ev,
{
    assert(enc16(ev).take(8) =~= be_bytes(ev.short_state_key));
    assert(enc16(ev).skip(8) =~= be_bytes(ev.short_event_id));
    lemma_u64_be_roundtrip(ev.short_state_key);
    lemma_u64_be_roundtrip(ev.short_event_id);
}

/// The encoding is injective: two events with the same wire form are equal.
pub proof fn lemma_compress_injective(a: CompressedStateEvent, b: CompressedStateEvent)
    ensures
        enc16(a) == enc16(b) ==> a == b,
{
    if enc16(a) == enc16(b) {
        lemma_decode_compress(a);
        lemma_decode_compress(b);
    }
}

} // verus!
