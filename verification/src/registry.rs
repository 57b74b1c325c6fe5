use vstd::prelude::*;

use crate::CompressorError;

verus! {

/// The byte views of a list of stored keys.
pub open spec fn views(keys: Seq<Vec<u8>>) -> Seq<Seq<u8>> {
    keys.map_values(|v: Vec<u8>| v@)
}

/// The views of a list of stored key pairs.
pub open spec fn pair_views(keys: Seq<(Vec<u8>, Vec<u8>)>) -> Seq<(Seq<u8>, Seq<u8>)> {
    keys.map_values(|v: (Vec<u8>, Vec<u8>)| (v.0@, v.1@))
}

/// Key `k` sits at position `i`.
pub open spec fn key_at(ks: Seq<Seq<u8>>, k: Seq<u8>, i: int) -> bool {
    0 <= i < ks.len() && ks[i] == k
}

/// Key `k` was assigned some position.
pub open spec fn has_key(ks: Seq<Seq<u8>>, k: Seq<u8>) -> bool {
    exists|i: int| key_at(ks, k, i)
}

/// Pair key `k` sits at position `i`.
pub open spec fn pair_at(ks: Seq<(Seq<u8>, Seq<u8>)>, k: (Seq<u8>, Seq<u8>), i: int) -> bool {
    0 <= i < ks.len() && ks[i] == k
}

/// Pair key `k` was assigned some position.
pub open spec fn has_pair(ks: Seq<(Seq<u8>, Seq<u8>)>, k: (Seq<u8>, Seq<u8>)) -> bool {
    exists|i: int| pair_at(ks, k, i)
}

/// No key occurs twice.
pub open spec fn distinct_keys(ks: Seq<Seq<u8>>) -> bool {
    forall|i: int, j: int| 0 <= i < j < ks.len() ==> ks[i] != ks[j]
}

/// No pair key occurs twice.
pub open spec fn distinct_pairs(ks: Seq<(Seq<u8>, Seq<u8>)>) -> bool {
    forall|i: int, j: int| 0 <= i < j < ks.len() ==> ks[i] != ks[j]
}

/// The key list after one assignment: unchanged if the key is known, extended
/// by it otherwise.
pub open spec fn assign_key(ks: Seq<Seq<u8>>, k: Seq<u8>) -> Seq<Seq<u8>> {
    if has_key(ks, k) {
        ks
    } else {
        ks.push(k)
    }
}

/// Under distinctness a key has at most one position, so at most one short ID.
pub proof fn lemma_key_position_unique(ks: Seq<Seq<u8>>, k: Seq<u8>, i: int, j: int)
    requires
        distinct_keys(ks),
        key_at(ks, k, i),
        key_at(ks, k, j),
    ensures
        i == j,
{
}

/// Assigning a key a second time finds it present and changes nothing: the
/// registry is idempotent and append-only.
pub proof fn lemma_assign_idempotent(ks: Seq<Seq<u8>>, k: Seq<u8>)
    ensures
        has_key(assign_key(ks, k), k),
        assign_key(assign_key(ks, k), k) == assign_key(ks, k),
{
    if !has_key(ks, k) {
        assert(key_at(ks.push(k), k, ks.len() as int));
    }
}

/// Appending an unknown key keeps the key list duplicate-free.
proof fn lemma_push_distinct(ks: Seq<Seq<u8>>, k: Seq<u8>)
    requires
        distinct_keys(ks),
        !has_key(ks, k),
    ensures
        distinct_keys(ks.push(k)),
{
    assert forall|i: int, j: int| 0 <= i < j < ks.push(k).len() implies ks.push(k)[i] != ks.push(
        k,
    )[j] by {
        if j < ks.len() {
        } else {
            assert(!key_at(ks, k, i));
        }
    }
}

/// Appending an unknown pair keeps the pair list duplicate-free.
proof fn lemma_push_distinct_pairs(ks: Seq<(Seq<u8>, Seq<u8>)>, k: (Seq<u8>, Seq<u8>))
    requires
        distinct_pairs(ks),
        !has_pair(ks, k),
    ensures
        distinct_pairs(ks.push(k)),
{
    assert forall|i: int, j: int| 0 <= i < j < ks.push(k).len() implies ks.push(k)[i] != ks.push(
        k,
    )[j] by {
        if j < ks.len() {
        } else {
            assert(!pair_at(ks, k, i));
        }
    }
}

/// Byte-for-byte equality of two vectors.
pub fn bytes_eq(a: &Vec<u8>, b: &Vec<u8>) -> (r: bool)
    ensures
        r == (a@ == b@),
{
    if a.len() != b.len() {
        return false;
    }
    let n = a.len();
    let mut i: usize = 0;
    while i < n
        invariant
            n == a@.len(),
            n == b@.len(),
            i <= n,
            forall|j: int| 0 <= j < i ==> a@[j] == b@[j],
        decreases n - i,
    {
        if a[i] != b[i] {
            return false;
        }
        i += 1;
    }
    proof {
        assert(a@ =~= b@);
    }
    true
}

/// The bijective, append-only map between long opaque identifiers and 64-bit
/// short IDs. Position `i` of a key list carries short ID `i + 1`; ID 0 is
/// never issued, so stored parent links can use it for "none".
pub struct ShortIdRegistry {
    pub event_ids: Vec<Vec<u8>>,
    pub state_keys: Vec<(Vec<u8>, Vec<u8>)>,
    pub state_hashes: Vec<Vec<u8>>,
}

/// All three key lists are duplicate-free, so every assignment is permanent
/// and unambiguous.
pub open spec fn registry_wf(r: ShortIdRegistry) -> bool {
    &&& distinct_keys(views(r.event_ids@))
    &&& distinct_pairs(pair_views(r.state_keys@))
    &&& distinct_keys(views(r.state_hashes@))
}

/// Scan a key list for a byte key.
fn find_key(keys: &Vec<Vec<u8>>, k: &Vec<u8>) -> (r: Option<usize>)
    ensures
        match r {
            Some(i) => key_at(views(keys@), k@, i as int),
            None => !has_key(views(keys@), k@),
        },
{
    let n = keys.len();
    let mut i: usize = 0;
    while i < n
        invariant
            n == keys@.len(),
            i <= n,
            forall|j: int| 0 <= j < i ==> views(keys@)[j] != k@,
        decreases n - i,
    {
        if bytes_eq(&keys[i], k) {
            return Some(i);
        }
        i += 1;
    }
    None
}

impl ShortIdRegistry {
    /// A registry with nothing assigned.
    pub fn new() -> (r: ShortIdRegistry)
        ensures
            registry_wf(r),
            r.event_ids@ == Seq::<Vec<u8>>::empty(),
            r.state_keys@ == Seq::<(Vec<u8>, Vec<u8>)>::empty(),
            r.state_hashes@ == Seq::<Vec<u8>>::empty(),
    {
        ShortIdRegistry { event_ids: Vec::new(), state_keys: Vec::new(), state_hashes: Vec::new() }
    }

    /// Return the short ID of an event ID, assigning the next free one if the
    /// event ID is new.
    pub fn shorten_event_id(&mut self, event_id: &Vec<u8>) -> (r: u64)
        requires
            registry_wf(*old(self)),
            old(self).event_ids@.len() < u64::MAX,
        ensures
            registry_wf(*final(self)),
            views(final(self).event_ids@) == assign_key(views(old(self).event_ids@), event_id@),
            key_at(views(final(self).event_ids@), event_id@, r - 1),
            1 <= r <= final(self).event_ids@.len(),
            final(self).state_keys@ == old(self).state_keys@,
            final(self).state_hashes@ == old(self).state_hashes@,
    {
        match find_key(&self.event_ids, event_id) {
            Some(i) => (i as u64) + 1,
            None => {
                let ghost ks = views(self.event_ids@);
                self.event_ids.push(event_id.clone());
                proof {
                    assert(views(self.event_ids@) =~= ks.push(event_id@));
                    lemma_push_distinct(ks, event_id@);
                    assert(key_at(views(self.event_ids@), event_id@, ks.len() as int));
                }
                self.event_ids.len() as u64
            },
        }
    }

    /// Reverse lookup: the event ID a short ID was assigned for.
    pub fn event_id_from_short(&self, shorteventid: u64) -> (r: Result<Vec<u8>, CompressorError>)
        ensures
            match r {
                Ok(v) => 1 <= shorteventid <= self.event_ids@.len() && v@ == views(
                    self.event_ids@,
                )[shorteventid - 1],
                Err(e) => e == CompressorError::NotFound && !(1 <= shorteventid
                    <= self.event_ids@.len()),
            },
    {
        if shorteventid == 0 || shorteventid > self.event_ids.len() as u64 {
            return Err(CompressorError::NotFound);
        }
        let i = (shorteventid - 1) as usize;
        let v = self.event_ids[i].clone();
        proof {
            assert(v@ == views(self.event_ids@)[shorteventid - 1]);
        }
        Ok(v)
    }

    /// Return the short state key of an `(event_type, state_key)` tuple,
    /// assigning the next free one if the tuple is new.
    pub fn short_state_key(&mut self, event_type: &Vec<u8>, state_key: &Vec<u8>) -> (r: u64)
        requires
            registry_wf(*old(self)),
            old(self).state_keys@.len() < u64::MAX,
        ensures
            registry_wf(*final(self)),
            pair_at(pair_views(final(self).state_keys@), (event_type@, state_key@), r - 1),
            1 <= r <= final(self).state_keys@.len(),
            has_pair(pair_views(old(self).state_keys@), (event_type@, state_key@))
                ==> final(self).state_keys@ == old(self).state_keys@,
            !has_pair(pair_views(old(self).state_keys@), (event_type@, state_key@))
                ==> pair_views(final(self).state_keys@) == pair_views(old(self).state_keys@).push(
                (event_type@, state_key@),
            ),
            final(self).event_ids@ == old(self).event_ids@,
            final(self).state_hashes@ == old(self).state_hashes@,
    {
        let n = self.state_keys.len();
        let mut i: usize = 0;
        while i < n
            invariant
                *self == *old(self),
                registry_wf(*self),
                n == self.state_keys@.len(),
                i <= n,
                forall|j: int| 0 <= j < i ==> pair_views(self.state_keys@)[j] != (
                    event_type@,
                    state_key@,
                ),
            decreases n - i,
        {
            if bytes_eq(&self.state_keys[i].0, event_type) && bytes_eq(
                &self.state_keys[i].1,
                state_key,
            ) {
                proof {
                    assert(pair_at(
                        pair_views(self.state_keys@),
                        (event_type@, state_key@),
                        i as int,
                    ));
                }
                return (i as u64) + 1;
            }
            i += 1;
        }
        let ghost ks = pair_views(self.state_keys@);
        self.state_keys.push((event_type.clone(), state_key.clone()));
        proof {
            assert(pair_views(self.state_keys@) =~= ks.push((event_type@, state_key@)));
            lemma_push_distinct_pairs(ks, (event_type@, state_key@));
            assert(pair_at(pair_views(self.state_keys@), (event_type@, state_key@), n as int));
        }
        self.state_keys.len() as u64
    }

    /// Return the short state hash assigned to a canonical state key, telling
    /// the caller whether it already existed.
    pub fn shorten_state_hash(&mut self, state_hash: &Vec<u8>) -> (r: (u64, bool))
        requires
            registry_wf(*old(self)),
            old(self).state_hashes@.len() < u64::MAX,
        ensures
            registry_wf(*final(self)),
            views(final(self).state_hashes@) == assign_key(
                views(old(self).state_hashes@),
                state_hash@,
            ),
            key_at(views(final(self).state_hashes@), state_hash@, r.0 - 1),
            1 <= r.0 <= final(self).state_hashes@.len(),
            r.1 == has_key(views(old(self).state_hashes@), state_hash@),
            r.1 ==> final(self).state_hashes@ == old(self).state_hashes@,
            !r.1 ==> r.0 == old(self).state_hashes@.len() + 1,
            final(self).event_ids@ == old(self).event_ids@,
            final(self).state_keys@ == old(self).state_keys@,
    {
        match find_key(&self.state_hashes, state_hash) {
            Some(i) => ((i as u64) + 1, true),
            None => {
                let ghost ks = views(self.state_hashes@);
                self.state_hashes.push(state_hash.clone());
                proof {
                    assert(views(self.state_hashes@) =~= ks.push(state_hash@));
                    lemma_push_distinct(ks, state_hash@);
                    assert(key_at(views(self.state_hashes@), state_hash@, ks.len() as int));
                }
                (self.state_hashes.len() as u64, false)
            },
        }
    }
}

} // verus!
