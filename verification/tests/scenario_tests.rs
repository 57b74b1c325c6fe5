use state_compressor::CompressorError;
use state_compressor::codec::CompressedStateEvent;
use state_compressor::compressor::Compressor;
use state_compressor::sets::StateSet;
use state_compressor::store::StateDiff;

fn ev(k: u64, e: u64) -> CompressedStateEvent {
    CompressedStateEvent { short_state_key: k, short_event_id: e }
}

fn set_of(events: &[(u64, u64)]) -> StateSet {
    let mut s = StateSet::new();
    for &(k, e) in events {
        s.insert(ev(k, e));
    }
    s
}

fn pairs(s: &StateSet) -> Vec<(u64, u64)> {
    let mut out: Vec<(u64, u64)> = Vec::new();
    for i in 0..s.len() {
        let e = s.get(i);
        out.push((e.short_state_key, e.short_event_id));
    }
    out.sort();
    out
}

fn room() -> Vec<u8> {
    b"!room:server".to_vec()
}

/// Commit and advance the room pointer, as the room-state updater would.
fn commit(c: &mut Compressor, room_id: &Vec<u8>, s: &StateSet) -> (u64, StateSet, StateSet) {
    let (h, added, removed) = c.save_state(room_id, s).unwrap();
    c.set_room_state(room_id, h).unwrap();
    (h, added, removed)
}

#[test]
fn fresh_room_commit() {
    let mut c = Compressor::new(100);
    let s1 = set_of(&[(1, 1), (2, 2), (3, 3)]);
    let (h1, added, removed) = commit(&mut c, &room(), &s1);
    assert_eq!(pairs(&added), vec![(1, 1), (2, 2), (3, 3)]);
    assert!(removed.is_empty());
    let stack = c.load_shortstatehash_info(h1).unwrap();
    assert_eq!(stack.len(), 1);
    assert_eq!(stack[0].shortstatehash, h1);
    assert_eq!(pairs(&stack[0].full), pairs(&s1));
    let rec = c.store.get_statediff(h1).unwrap();
    assert_eq!(rec.parent, None);
}

#[test]
fn idempotent_recommit() {
    let mut c = Compressor::new(100);
    let s1 = set_of(&[(1, 1), (2, 2), (3, 3)]);
    let (h1, _, _) = commit(&mut c, &room(), &s1);
    let records_before = c.store.map.len();
    let (h1b, added, removed) = commit(&mut c, &room(), &s1);
    assert_eq!(h1b, h1);
    assert!(added.is_empty());
    assert!(removed.is_empty());
    assert_eq!(c.store.map.len(), records_before);
}

#[test]
fn same_set_same_hash_across_rooms_and_orders() {
    let mut c = Compressor::new(100);
    let (ha, _, _) = commit(&mut c, &b"!a:server".to_vec(), &set_of(&[(1, 1), (2, 2), (3, 3)]));
    let (hb, _, _) = commit(&mut c, &b"!b:server".to_vec(), &set_of(&[(3, 3), (1, 1), (2, 2)]));
    assert_eq!(ha, hb);
}

#[test]
fn small_diff_stacks_on_parent() {
    let mut c = Compressor::new(100);
    let s1 = set_of(&[(1, 1), (2, 2), (3, 3)]);
    let (h1, _, _) = commit(&mut c, &room(), &s1);
    let s2 = set_of(&[(1, 1), (2, 2), (4, 4)]);
    let (h2, added, removed) = commit(&mut c, &room(), &s2);
    assert_ne!(h2, h1);
    assert_eq!(pairs(&added), vec![(4, 4)]);
    assert_eq!(pairs(&removed), vec![(3, 3)]);
    let rec = c.store.get_statediff(h2).unwrap();
    assert_eq!(rec.parent, Some(h1));
    let stack = c.load_shortstatehash_info(h2).unwrap();
    assert_eq!(stack.len(), 2);
    assert_eq!(stack[0].shortstatehash, h1);
    assert_eq!(stack[1].shortstatehash, h2);
    assert_eq!(pairs(&stack[1].full), pairs(&s2));
}

#[test]
fn depth_cascade_keeps_chain_bounded() {
    let mut c = Compressor::new(100);
    let mut hashes: Vec<u64> = Vec::new();
    // Five snapshots, each growing the previous by one event.
    for i in 1..=5u64 {
        let mut s = StateSet::new();
        for j in 1..=i {
            s.insert(ev(j, j));
        }
        let (h, _, _) = commit(&mut c, &room(), &s);
        hashes.push(h);
    }
    // The first four stack up to a chain of four layers.
    assert_eq!(c.load_shortstatehash_info(hashes[3]).unwrap().len(), 4);
    // The fifth would be a fifth layer: the rebalance folds it down; here the
    // cascade reaches the root, so the new snapshot is stored as a new root.
    let stack = c.load_shortstatehash_info(hashes[4]).unwrap();
    assert!(stack.len() <= 4);
    assert_eq!(stack.len(), 1);
    assert_eq!(c.store.get_statediff(hashes[4]).unwrap().parent, None);
    let full = &stack[stack.len() - 1].full;
    assert_eq!(
        pairs(full),
        vec![(1, 1), (2, 2), (3, 3), (4, 4), (5, 5)]
    );
    // The earlier snapshots kept their stored states.
    for (i, &h) in hashes.iter().enumerate() {
        let st = c.load_shortstatehash_info(h).unwrap();
        assert_eq!(st[st.len() - 1].full.len(), i + 1);
    }
}

#[test]
fn size_cascade_folds_parent_into_grandparent() {
    let mut c = Compressor::new(100);
    // A root of ten events.
    let mut base: Vec<(u64, u64)> = Vec::new();
    for j in 1..=10u64 {
        base.push((j, j));
    }
    let s1 = set_of(&base);
    let (h1, _, _) = commit(&mut c, &room(), &s1);
    // A small sibling diff: drop event 10, add event 11.
    let mut v2 = base[..9].to_vec();
    v2.push((11, 11));
    let s2 = set_of(&v2);
    let (h2, _, _) = commit(&mut c, &room(), &s2);
    assert_eq!(c.store.get_statediff(h2).unwrap().parent, Some(h1));
    // A large diff: five new events at once. Its squared size beats the
    // sibling weight, so the engine folds h2's layer and attaches the new
    // snapshot one level shallower, directly under the root.
    let mut v3 = v2.clone();
    for j in 12..=16u64 {
        v3.push((j, j));
    }
    let s3 = set_of(&v3);
    let (h3, added, removed) = commit(&mut c, &room(), &s3);
    assert_eq!(pairs(&added), vec![(12, 12), (13, 13), (14, 14), (15, 15), (16, 16)]);
    assert!(removed.is_empty());
    assert_eq!(c.store.get_statediff(h3).unwrap().parent, Some(h1));
    let stack = c.load_shortstatehash_info(h3).unwrap();
    assert_eq!(stack.len(), 2);
    assert_eq!(pairs(&stack[1].full), pairs(&s3));
    // Rebalancing never rewrites what h2 resolves to.
    let stack2 = c.load_shortstatehash_info(h2).unwrap();
    assert_eq!(pairs(&stack2[stack2.len() - 1].full), pairs(&s2));
}

#[test]
fn thousand_commits_under_cache_pressure() {
    let mut c = Compressor::new(8);
    let mut hashes: Vec<u64> = Vec::new();
    let mut fulls: Vec<Vec<(u64, u64)>> = Vec::new();
    // A sliding window of five events: every commit adds one and drops one.
    for i in 0..1000u64 {
        let mut v: Vec<(u64, u64)> = Vec::new();
        for j in i..i + 5 {
            v.push((j, j));
        }
        let s = set_of(&v);
        let (h, _, _) = commit(&mut c, &room(), &s);
        hashes.push(h);
        v.sort();
        fulls.push(v);
    }
    for i in 0..1000usize {
        let stack = c.load_shortstatehash_info(hashes[i]).unwrap();
        assert!(stack.len() <= 4);
        assert_eq!(pairs(&stack[stack.len() - 1].full), fulls[i]);
    }
}

#[test]
fn cache_capacity_does_not_change_results() {
    let mut small = Compressor::new(0);
    let mut large = Compressor::new(1000);
    let mut hashes: Vec<u64> = Vec::new();
    for i in 0..50u64 {
        let mut v: Vec<(u64, u64)> = Vec::new();
        for j in i..i + 3 {
            v.push((j, j));
        }
        let s = set_of(&v);
        let (hs, _, _) = commit(&mut small, &room(), &s);
        let (hl, _, _) = commit(&mut large, &room(), &s);
        assert_eq!(hs, hl);
        hashes.push(hs);
    }
    for &h in &hashes {
        let a = small.load_shortstatehash_info(h).unwrap();
        let b = large.load_shortstatehash_info(h).unwrap();
        assert_eq!(a.len(), b.len());
        for i in 0..a.len() {
            assert_eq!(a[i].shortstatehash, b[i].shortstatehash);
            assert_eq!(pairs(&a[i].full), pairs(&b[i].full));
            assert_eq!(pairs(&a[i].added), pairs(&b[i].added));
            assert_eq!(pairs(&a[i].removed), pairs(&b[i].removed));
        }
    }
}

#[test]
fn load_unknown_hash_not_found() {
    let mut c = Compressor::new(16);
    assert!(matches!(c.load_shortstatehash_info(42), Err(CompressorError::NotFound)));
}

#[test]
fn set_room_state_unknown_hash_refused() {
    let mut c = Compressor::new(16);
    assert_eq!(c.set_room_state(&room(), 7), Err(CompressorError::NotFound));
    assert_eq!(c.get_room_shortstatehash(&room()), None);
}

#[test]
fn corrupt_parent_link_detected() {
    let mut c = Compressor::new(16);
    // Plant a record whose parent link does not point strictly below it, as
    // a corrupted backend might; the walk must refuse it rather than cycle.
    c.store.save_statediff(
        5,
        StateDiff { parent: Some(5), added: set_of(&[(1, 1)]), removed: StateSet::new() },
    );
    assert!(matches!(c.load_shortstatehash_info(5), Err(CompressorError::Corruption)));
}

#[test]
fn compress_and_parse_state_event() {
    let mut c = Compressor::new(16);
    let e1 = c.compress_state_event(7, &b"$one:server".to_vec());
    assert_eq!(e1.short_state_key, 7);
    assert_eq!(e1.short_event_id, 1);
    let e2 = c.compress_state_event(9, &b"$two:server".to_vec());
    assert_eq!(e2.short_event_id, 2);
    let again = c.compress_state_event(3, &b"$one:server".to_vec());
    assert_eq!(again.short_event_id, 1);
    let (k, eid) = c.parse_compressed_state_event(&e2).unwrap();
    assert_eq!(k, 9);
    assert_eq!(eid, b"$two:server".to_vec());
    let bogus = ev(1, 99);
    assert_eq!(c.parse_compressed_state_event(&bogus), Err(CompressorError::NotFound));
}
