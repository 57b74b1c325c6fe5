use state_compressor::CompressorError;
use state_compressor::framing::{decode_statediff, encode_statediff};
use state_compressor::store::StateDiff;
use state_compressor::codec::{CompressedStateEvent, compress, decode};
use state_compressor::canon::{sort_events, state_hash_key};
use state_compressor::registry::ShortIdRegistry;
use state_compressor::sets::StateSet;

fn ev(k: u64, e: u64) -> CompressedStateEvent {
    CompressedStateEvent { short_state_key: k, short_event_id: e }
}

fn set_of(events: &[(u64, u64)]) -> StateSet {
    let mut s = StateSet::new();
    for &(k, e) in events {
        s.insert(ev(k, e));
    }
    s
}

fn pairs(s: &StateSet) -> Vec<(u64, u64)> {
    let mut out: Vec<(u64, u64)> = Vec::new();
    for i in 0..s.len() {
        let e = s.get(i);
        out.push((e.short_state_key, e.short_event_id));
    }
    out.sort();
    out
}

#[test]
fn compress_roundtrip() {
    let e = ev(0x0102030405060708, 0x1122334455667788);
    let bytes = compress(e);
    assert_eq!(
        bytes,
        [
            0x01, 0x02, 0x03, 0x04, 0x05, 0x06, 0x07, 0x08, 0x11, 0x22, 0x33, 0x44, 0x55, 0x66,
            0x77, 0x88
        ]
    );
    let back = decode(&bytes);
    assert_eq!(back, e);
}

#[test]
fn compress_roundtrip_edges() {
    for &e in &[ev(0, 0), ev(u64::MAX, 0), ev(0, u64::MAX), ev(u64::MAX, u64::MAX), ev(1, 2)] {
        assert_eq!(decode(&compress(e)), e);
    }
}

#[test]
fn compress_injective_samples() {
    let evs = [ev(1, 1), ev(1, 2), ev(2, 1), ev(0, 0), ev(0, 256), ev(256, 0)];
    for i in 0..evs.len() {
        for j in 0..evs.len() {
            if i != j {
                assert_ne!(compress(evs[i]), compress(evs[j]));
            }
        }
    }
}

#[test]
fn state_set_operations() {
    let mut s = set_of(&[(1, 1), (1, 2)]);
    assert!(s.contains(&ev(1, 1)));
    assert!(!s.contains(&ev(2, 1)));
    s.insert(ev(1, 1));
    assert_eq!(s.len(), 2);
    s.remove(&ev(1, 1));
    assert_eq!(pairs(&s), vec![(1, 2)]);
    let other = set_of(&[(1, 2), (3, 3)]);
    let d = other.difference(&s);
    assert_eq!(pairs(&d), vec![(3, 3)]);
    let mut u = s.duplicate();
    u.extend_with(&other);
    assert_eq!(pairs(&u), vec![(1, 2), (3, 3)]);
    u.remove_all(&other);
    assert_eq!(pairs(&u), Vec::<(u64, u64)>::new());
    assert!(u.is_empty());
}

#[test]
fn sort_events_is_canonical() {
    let a = set_of(&[(2, 1), (1, 2), (1, 1)]);
    let b = set_of(&[(1, 1), (1, 2), (2, 1)]);
    let sa = sort_events(&a);
    let sb = sort_events(&b);
    assert_eq!(sa.len(), 3);
    assert_eq!(sa[0], ev(1, 1));
    assert_eq!(sa[1], ev(1, 2));
    assert_eq!(sa[2], ev(2, 1));
    assert_eq!(sa, sb);
    assert_eq!(state_hash_key(&a), state_hash_key(&b));
}

#[test]
fn state_hash_key_distinguishes_sets() {
    let a = set_of(&[(1, 1), (2, 2)]);
    let b = set_of(&[(1, 1), (2, 3)]);
    assert_ne!(state_hash_key(&a), state_hash_key(&b));
}

#[test]
fn registry_event_ids_idempotent() {
    let mut reg = ShortIdRegistry::new();
    let id_a = reg.shorten_event_id(&b"$a:server".to_vec());
    let id_b = reg.shorten_event_id(&b"$b:server".to_vec());
    assert_eq!(id_a, 1);
    assert_eq!(id_b, 2);
    assert_eq!(reg.shorten_event_id(&b"$a:server".to_vec()), id_a);
    assert_eq!(reg.event_id_from_short(id_a).unwrap(), b"$a:server".to_vec());
    assert_eq!(reg.event_id_from_short(id_b).unwrap(), b"$b:server".to_vec());
}

#[test]
fn registry_reverse_lookup_not_found() {
    let reg = ShortIdRegistry::new();
    assert_eq!(reg.event_id_from_short(0), Err(CompressorError::NotFound));
    assert_eq!(reg.event_id_from_short(1), Err(CompressorError::NotFound));
    let mut reg = ShortIdRegistry::new();
    reg.shorten_event_id(&b"$a:server".to_vec());
    assert_eq!(reg.event_id_from_short(2), Err(CompressorError::NotFound));
}

#[test]
fn registry_state_keys_idempotent() {
    let mut reg = ShortIdRegistry::new();
    let k1 = reg.short_state_key(&b"m.room.member".to_vec(), &b"@alice:server".to_vec());
    let k2 = reg.short_state_key(&b"m.room.member".to_vec(), &b"@bob:server".to_vec());
    let k3 = reg.short_state_key(&b"m.room.name".to_vec(), &b"".to_vec());
    assert_eq!((k1, k2, k3), (1, 2, 3));
    assert_eq!(
        reg.short_state_key(&b"m.room.member".to_vec(), &b"@alice:server".to_vec()),
        k1
    );
}

#[test]
fn registry_state_hash_second_call_existed() {
    let mut reg = ShortIdRegistry::new();
    let key = state_hash_key(&set_of(&[(1, 1), (2, 2)]));
    let (id1, existed1) = reg.shorten_state_hash(&key);
    assert!(!existed1);
    let (id2, existed2) = reg.shorten_state_hash(&key);
    assert!(existed2);
    assert_eq!(id1, id2);
    let other = state_hash_key(&set_of(&[(1, 1)]));
    let (id3, existed3) = reg.shorten_state_hash(&other);
    assert!(!existed3);
    assert_ne!(id3, id1);
}

#[test]
fn statediff_framing_roundtrip() {
    let d = StateDiff {
        parent: Some(3),
        added: set_of(&[(1, 1), (2, 2)]),
        removed: set_of(&[(9, 9)]),
    };
    let bytes = encode_statediff(&d);
    assert_eq!(bytes.len(), 16 + 16 * 3);
    let back = decode_statediff(&bytes).unwrap();
    assert_eq!(back.parent, Some(3));
    assert_eq!(pairs(&back.added), pairs(&d.added));
    assert_eq!(pairs(&back.removed), pairs(&d.removed));

    let root = StateDiff { parent: None, added: set_of(&[(5, 5)]), removed: StateSet::new() };
    let bytes = encode_statediff(&root);
    let back = decode_statediff(&bytes).unwrap();
    assert_eq!(back.parent, None);
    assert_eq!(pairs(&back.added), vec![(5, 5)]);
    assert_eq!(back.removed.len(), 0);
}

#[test]
fn statediff_framing_rejects_corrupt_bytes() {
    // Too short for a header.
    assert!(matches!(decode_statediff(&vec![0u8; 15]), Err(CompressorError::Corruption)));
    // Header alone is a record with no events.
    let empty = decode_statediff(&vec![0u8; 16]).unwrap();
    assert_eq!(empty.parent, None);
    assert_eq!(empty.added.len(), 0);
    // A torn event at the end.
    assert!(matches!(decode_statediff(&vec![0u8; 17]), Err(CompressorError::Corruption)));
    // An added count larger than what is there.
    let d = StateDiff { parent: None, added: set_of(&[(1, 1)]), removed: StateSet::new() };
    let mut bytes = encode_statediff(&d);
    bytes[15] = 9;
    assert!(matches!(decode_statediff(&bytes), Err(CompressorError::Corruption)));
}
