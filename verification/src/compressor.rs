use vstd::prelude::*;

use crate::CompressorError;
use crate::cache::StackCache;
use crate::canon::{canon_of_set, has_sorted_rep, lemma_canon_of_set_injective, state_hash_key};
use crate::codec::CompressedStateEvent;
use crate::merge::{lemma_diff_apply, lemma_merge_preserves, merge_into_parent};
use crate::registry::{ShortIdRegistry, registry_wf, views};
use crate::sets::StateSet;
use crate::store::{
    DiffStore, LayerAbs, StackEntry, StateDiff, apply_diff, chain_len, full_of,
    lemma_fresh_insert_preserves, lemma_spec_stack_props, spec_stack, stack_abs, store_closed,
    store_wf, diff_ok,
};

verus! {

/// Every cached stack is the true stack of its key.
pub open spec fn cache_ok(c: StackCache, m: Map<u64, StateDiff>) -> bool {
    forall|h: u64|
        #[trigger] c.view_of().contains_key(h) ==> m.contains_key(h) && c.view_of()[h]
            == spec_stack(m, h)
}

/// The full state below a pending layer: what the deepest loaded layer
/// materialised, or nothing when the chain is empty.
pub open spec fn stack_base(st: Seq<StackEntry>) -> Set<CompressedStateEvent> {
    if st.len() == 0 {
        Set::empty()
    } else {
        st.last().full@
    }
}

/// A loaded parent stack is the true stack of its deepest layer's hash.
pub open spec fn stack_ok(m: Map<u64, StateDiff>, st: Seq<StackEntry>) -> bool {
    st.len() > 0 ==> m.contains_key(st.last().shortstatehash) && stack_abs(st) == spec_stack(
        m,
        st.last().shortstatehash,
    )
}

/// A pending diff respects the state it will be applied to.
pub open spec fn pending_ok(
    base: Set<CompressedStateEvent>,
    a: Set<CompressedStateEvent>,
    r: Set<CompressedStateEvent>,
) -> bool {
    a.disjoint(r) && a.disjoint(base) && r.subset_of(base)
}

/// `h` is new and above everything stored: what a freshly minted short state
/// hash looks like to the store.
pub open spec fn fresh_above(m: Map<u64, StateDiff>, h: u64) -> bool {
    !m.contains_key(h) && forall|h2: u64| #[trigger] m.contains_key(h2) ==> h2 < h
}

/// Position `i` of the registry's state-hash table agrees with the store:
/// its short ID `i + 1` is stored, and the key minted for it is the
/// canonical key of the full state stored under it.
pub open spec fn minted_at(reg: ShortIdRegistry, m: Map<u64, StateDiff>, i: int) -> bool {
    let id = (i + 1) as u64;
    &&& m.contains_key(id)
    &&& has_sorted_rep(full_of(m, id))
    &&& views(reg.state_hashes@)[i] == canon_of_set(full_of(m, id))
}

/// The registry's state-hash table and the store agree: stored hashes are
/// exactly the minted IDs `1..=n`, and the key minted for an ID is the
/// canonical key of the full state stored under it.
pub open spec fn minted_ok(reg: ShortIdRegistry, m: Map<u64, StateDiff>) -> bool {
    &&& forall|h: u64| #[trigger] m.contains_key(h) ==> 1 <= h <= reg.state_hashes@.len()
    &&& forall|i: int| 0 <= i < reg.state_hashes@.len() ==> #[trigger] minted_at(reg, m, i)
}

/// Every room's current hash is stored.
pub open spec fn rooms_ok(rooms: Seq<(Vec<u8>, u64)>, m: Map<u64, StateDiff>) -> bool {
    forall|i: int| 0 <= i < rooms.len() ==> m.contains_key(#[trigger] (rooms[i].1))
}

/// The current short state hash of a room: its most recent binding, if any.
pub open spec fn room_hash(rooms: Seq<(Vec<u8>, u64)>, room: Seq<u8>) -> Option<u64>
    decreases rooms.len(),
{
    if rooms.len() == 0 {
        None
    } else if rooms.last().0@ == room {
        Some(rooms.last().1)
    } else {
        room_hash(rooms.drop_last(), room)
    }
}

/// Reconstruction reads only the diff store: two compressors with equal
/// stores yield the same stack and the same full state for every hash,
/// whatever either cache holds and whatever its capacity is.
pub proof fn lemma_cache_immaterial(a: Compressor, b: Compressor, h: u64)
    requires
        a.store.map@ == b.store.map@,
    ensures
        spec_stack(a.store.map@, h) == spec_stack(b.store.map@, h),
        full_of(a.store.map@, h) == full_of(b.store.map@, h),
{
}

/// The state compressor: short-ID registry, layered diff store, stack cache
/// and the per-room current snapshot, wired together at construction.
pub struct Compressor {
    pub registry: ShortIdRegistry,
    pub store: DiffStore,
    pub cache: StackCache,
    pub rooms: Vec<(Vec<u8>, u64)>,
}

/// The compressor's invariant, established by `new` and kept by every
/// operation.
pub open spec fn compressor_wf(c: Compressor) -> bool {
    &&& store_wf(c.store.map@)
    &&& cache_ok(c.cache, c.store.map@)
    &&& registry_wf(c.registry)
    &&& minted_ok(c.registry, c.store.map@)
    &&& rooms_ok(c.rooms@, c.store.map@)
}

/// What popping the deepest layer of a loaded stack yields: the rest is the
/// true stack of the next layer down, the popped layer's diff obeys the
/// layer invariants against the base below it, and applying that diff to the
/// base gives back the full state the whole stack ended in.
proof fn lemma_pop_setup(m: Map<u64, StateDiff>, st0: Seq<StackEntry>)
    requires
        store_wf(m),
        stack_ok(m, st0),
        st0.len() > 0,
    ensures
        ({
            let top = st0.last();
            let t = top.shortstatehash;
            let stp = st0.drop_last();
            &&& m.contains_key(t)
            &&& stack_ok(m, stp)
            &&& stp.len() == st0.len() - 1
            &&& chain_len(m, t) == st0.len()
            &&& stack_base(st0) == full_of(m, t)
            &&& full_of(m, t) == apply_diff(stack_base(stp), top.added@, top.removed@)
            &&& pending_ok(stack_base(stp), top.added@, top.removed@)
        }),
{
    let top = st0.last();
    let t = top.shortstatehash;
    let stp = st0.drop_last();
    lemma_spec_stack_props(m, t);
    assert(stack_abs(st0).len() == st0.len());
    assert(stack_abs(st0)[st0.len() - 1] == (top.shortstatehash, top.full@, top.added@,
    top.removed@));
    assert(spec_stack(m, t).last() == (t, full_of(m, t), m[t].added@, m[t].removed@));
    assert(top.full@ == full_of(m, t));
    assert(top.added@ == m[t].added@);
    assert(top.removed@ == m[t].removed@);
    assert(diff_ok(m, t));
    match m[t].parent {
        None => {
            assert(chain_len(m, t) == 1);
            assert(st0.len() == 1);
            assert(stp.len() == 0);
            assert(stack_base(stp) == Set::<CompressedStateEvent>::empty());
            assert(m[t].removed@ == Set::<CompressedStateEvent>::empty());
            assert(full_of(m, t) == m[t].added@);
            assert(apply_diff(Set::empty(), top.added@, top.removed@) =~= full_of(m, t));
        },
        Some(p) => {
            lemma_spec_stack_props(m, p);
            assert(spec_stack(m, t) == spec_stack(m, p).push((
                t,
                full_of(m, t),
                m[t].added@,
                m[t].removed@,
            )));
            assert(spec_stack(m, p).push((t, full_of(m, t), m[t].added@, m[t].removed@)).drop_last()
                =~= spec_stack(m, p));
            assert(stack_abs(stp).len() == stp.len());
            assert forall|k: int| 0 <= k < st0.len() - 1 implies stack_abs(stp)[k] == stack_abs(
                st0,
            )[k] by {
                assert(stp[k] == st0[k]);
            }
            assert(stack_abs(stp) =~= spec_stack(m, p));
            assert(stp.len() == spec_stack(m, p).len());
            assert(stp.len() >= 1);
            assert(stack_abs(stp)[stp.len() - 1] == (stp.last().shortstatehash, stp.last().full@,
            stp.last().added@, stp.last().removed@));
            assert(spec_stack(m, p).last() == (p, full_of(m, p), m[p].added@, m[p].removed@));
            assert(stp.last().shortstatehash == p);
            assert(stp.last().full@ == full_of(m, p));
            assert(stack_base(stp) == full_of(m, p));
        },
    }
}

/// `a * b`, saturating at `u128::MAX`. Both sides of the rebalance size test
/// stay far below the saturation point for any state that fits in memory.
fn sat_mul(a: u128, b: u128) -> (r: u128)
    ensures
        a * b <= u128::MAX ==> r == a * b,
        a * b > u128::MAX ==> r == u128::MAX,
{
    if a == 0 || b == 0 {
        0
    } else {
        let q = u128::MAX / b;
        if a <= q {
            proof {
                assert((a as int) * (b as int) <= u128::MAX as int) by (nonlinear_arith)
                    requires
                        1 <= b as int,
                        a as int <= (u128::MAX as int) / (b as int),
                ;
            }
            a * b
        } else {
            proof {
                assert((a as int) * (b as int) > u128::MAX as int) by (nonlinear_arith)
                    requires
                        1 <= b as int,
                        a as int > (u128::MAX as int) / (b as int),
                ;
            }
            u128::MAX
        }
    }
}

/// A room's recorded hash points at a stored record.
proof fn lemma_room_hash_in(rooms: Seq<(Vec<u8>, u64)>, room: Seq<u8>, m: Map<u64, StateDiff>)
    requires
        rooms_ok(rooms, m),
        room_hash(rooms, room) is Some,
    ensures
        m.contains_key(room_hash(rooms, room)->Some_0),
    decreases rooms.len(),
{
    if rooms.len() > 0 {
        if rooms.last().0@ == room {
            assert(m.contains_key(rooms[rooms.len() - 1].1));
        } else {
            assert(rooms_ok(rooms.drop_last(), m)) by {
                assert forall|i: int|
                    0 <= i < rooms.drop_last().len() implies m.contains_key(
                    #[trigger] (rooms.drop_last()[i].1),
                ) by {
                    assert(rooms.drop_last()[i] == rooms[i]);
                }
            }
            lemma_room_hash_in(rooms.drop_last(), room, m);
        }
    }
}

/// Writing one fresh record whose diff respects its parent keeps the store
/// well formed, gives the new hash exactly the state its diff produces, and
/// leaves every stored snapshot's full state and stack untouched.
proof fn lemma_persist(m: Map<u64, StateDiff>, hn: u64, rec: StateDiff, base: Set<
    CompressedStateEvent,
>)
    requires
        store_wf(m),
        fresh_above(m, hn),
        rec.parent is None ==> base == Set::<CompressedStateEvent>::empty(),
        rec.parent is Some ==> {
            let t = rec.parent->Some_0;
            m.contains_key(t) && base == full_of(m, t) && chain_len(m, t) <= 3
        },
        pending_ok(base, rec.added@, rec.removed@),
    ensures
        store_wf(m.insert(hn, rec)),
        m.insert(hn, rec).remove(hn) == m,
        full_of(m.insert(hn, rec), hn) == apply_diff(base, rec.added@, rec.removed@),
        forall|h2: u64|
            #[trigger] m.contains_key(h2) ==> full_of(m.insert(hn, rec), h2) == full_of(m, h2)
                && spec_stack(m.insert(hn, rec), h2) == spec_stack(m, h2),
{
    let mi = m.insert(hn, rec);
    assert forall|h2: u64| #[trigger] m.contains_key(h2) implies full_of(mi, h2) == full_of(m, h2)
        && spec_stack(mi, h2) == spec_stack(m, h2) && chain_len(mi, h2) == chain_len(m, h2) by {
        lemma_fresh_insert_preserves(m, hn, rec, h2);
    }
    assert(mi.remove(hn) =~= m);
    assert(store_closed(mi)) by {
        assert forall|h2: u64| #[trigger] mi.contains_key(h2) implies match mi[h2].parent {
            None => true,
            Some(p) => p < h2 && mi.contains_key(p),
        } by {
            if h2 != hn {
                assert(m.contains_key(h2));
            }
        }
    }
    match rec.parent {
        None => {
            assert(rec.removed@ =~= Set::<CompressedStateEvent>::empty());
            assert(full_of(mi, hn) == rec.added@);
            assert(apply_diff(base, rec.added@, rec.removed@) =~= rec.added@);
            assert(chain_len(mi, hn) == 1);
        },
        Some(t) => {
            assert(m.contains_key(t));
            assert(t < hn);
            assert(full_of(mi, t) == full_of(m, t));
            assert(full_of(mi, hn) == apply_diff(base, rec.added@, rec.removed@));
            assert(chain_len(mi, hn) == 1 + chain_len(m, t));
        },
    }
    assert forall|h2: u64| #[trigger] mi.contains_key(h2) implies diff_ok(mi, h2) by {
        if h2 == hn {
        } else {
            assert(m.contains_key(h2));
            assert(diff_ok(m, h2));
            match m[h2].parent {
                None => {},
                Some(p2) => {
                    assert(m.contains_key(p2));
                    assert(full_of(mi, p2) == full_of(m, p2));
                },
            }
        }
    }
    assert forall|h2: u64| #[trigger] mi.contains_key(h2) implies chain_len(mi, h2) <= 4 by {
        if h2 != hn {
            assert(m.contains_key(h2));
        }
    }
}

/// An independent copy of a reconstructed stack with the same abstract form.
fn clone_stack(st: &Vec<StackEntry>) -> (r: Vec<StackEntry>)
    ensures
        stack_abs(r@) == stack_abs(st@),
{
    let n = st.len();
    let mut out: Vec<StackEntry> = Vec::new();
    let mut i: usize = 0;
    while i < n
        invariant
            n == st@.len(),
            i <= n,
            stack_abs(out@) == stack_abs(st@.take(i as int)),
        decreases n - i,
    {
        let e = StackEntry {
            shortstatehash: st[i].shortstatehash,
            full: st[i].full.duplicate(),
            added: st[i].added.duplicate(),
            removed: st[i].removed.duplicate(),
        };
        let ghost prev = out@;
        out.push(e);
        proof {
            assert(out@ == prev.push(e));
            assert(stack_abs(prev).len() == prev.len());
            assert(stack_abs(st@.take(i as int)).len() == i);
            assert(prev.len() == i);
            assert(out@.len() == i + 1);
            assert forall|k: int| 0 <= k < out@.len() implies stack_abs(out@)[k] == stack_abs(
                st@.take(i + 1),
            )[k] by {
                assert(st@.take(i + 1)[k] == st@[k]);
                if k < i {
                    assert(out@[k] == prev[k]);
                    assert(stack_abs(prev)[k] == stack_abs(st@.take(i as int))[k]);
                    assert(st@.take(i as int)[k] == st@[k]);
                } else {
                    assert(out@[k] == e);
                }
            }
            assert(stack_abs(out@) =~= stack_abs(st@.take(i + 1)));
        }
        i += 1;
    }
    proof {
        assert(st@.take(n as int) =~= st@);
    }
    out
}

/// What one commit of `new_set` for `room` promises, `pre` the compressor
/// before and `post` after, `t` the returned triple `(hash, added,
/// removed)`:
/// - the state stored under the returned hash is exactly `new_set`;
/// - a hash that already had a record writes nothing, and at most the
///   returned hash's record is ever added;
/// - every previously stored snapshot keeps its full state and stack;
/// - the returned diff is the new state against the room's previous full
///   state: empty when the state is unchanged, everything added when the
///   room was new.
pub open spec fn committed(
    pre: Compressor,
    post: Compressor,
    room: Seq<u8>,
    new_set: Set<CompressedStateEvent>,
    t: (u64, StateSet, StateSet),
) -> bool {
    let m0 = pre.store.map@;
    let m1 = post.store.map@;
    &&& m1.contains_key(t.0)
    &&& full_of(m1, t.0) == new_set
    &&& (m0.contains_key(t.0) ==> m1 == m0)
    &&& forall|h2: u64| #[trigger] m1.contains_key(h2) ==> h2 == t.0 || m0.contains_key(h2)
    &&& forall|h2: u64|
        #[trigger] m0.contains_key(h2) ==> m1.contains_key(h2) && full_of(m1, h2) == full_of(
            m0,
            h2,
        ) && spec_stack(m1, h2) == spec_stack(m0, h2)
    &&& match room_hash(pre.rooms@, room) {
        Some(p) => if t.0 == p {
            t.1@ == Set::<CompressedStateEvent>::empty() && t.2@ == Set::<
                CompressedStateEvent,
            >::empty()
        } else {
            t.1@ == new_set.difference(full_of(m0, p)) && t.2@ == full_of(m0, p).difference(
                new_set,
            )
        },
        None => t.1@ == new_set && t.2@ == Set::<CompressedStateEvent>::empty(),
    }
}

impl Compressor {
    /// A fresh compressor with nothing stored and a stack cache bounded to
    /// `state_cache_capacity` entries.
    pub fn new(state_cache_capacity: usize) -> (r: Compressor)
        ensures
            compressor_wf(r),
            r.store.map@ == Map::<u64, StateDiff>::empty(),
            r.registry.state_hashes@ == Seq::<Vec<u8>>::empty(),
            r.rooms@ == Seq::<(Vec<u8>, u64)>::empty(),
    {
        Compressor {
            registry: ShortIdRegistry::new(),
            store: DiffStore::new(),
            cache: StackCache::new(state_cache_capacity),
            rooms: Vec::new(),
        }
    }

    /// The room's current short state hash, if one was recorded.
    pub fn get_room_shortstatehash(&self, room_id: &Vec<u8>) -> (r: Option<u64>)
        ensures
            r == room_hash(self.rooms@, room_id@),
    {
        let mut i: usize = self.rooms.len();
        proof {
            assert(self.rooms@.take(i as int) =~= self.rooms@);
        }
        while i > 0
            invariant
                i <= self.rooms@.len(),
                room_hash(self.rooms@, room_id@) == room_hash(
                    self.rooms@.take(i as int),
                    room_id@,
                ),
            decreases i,
        {
            i -= 1;
            if crate::registry::bytes_eq(&self.rooms[i].0, room_id) {
                proof {
                    assert(self.rooms@.take(i + 1).last() == self.rooms@[i as int]);
                }
                return Some(self.rooms[i].1);
            }
            proof {
                assert(self.rooms@.take(i + 1).last() == self.rooms@[i as int]);
                assert(self.rooms@.take(i + 1).drop_last() =~= self.rooms@.take(i as int));
            }
        }
        None
    }

    /// Record a room's current short state hash. The hash must already be
    /// stored; an unknown one is refused.
    pub fn set_room_state(&mut self, room_id: &Vec<u8>, shortstatehash: u64) -> (r: Result<
        (),
        CompressorError,
    >)
        requires
            compressor_wf(*old(self)),
        ensures
            compressor_wf(*final(self)),
            final(self).store.map@ == old(self).store.map@,
            final(self).registry == old(self).registry,
            final(self).cache == old(self).cache,
            match r {
                Ok(_) => old(self).store.map@.contains_key(shortstatehash) && room_hash(
                    final(self).rooms@,
                    room_id@,
                ) == Some(shortstatehash) && forall|other: Seq<u8>|
                    other != room_id@ ==> room_hash(final(self).rooms@, other) == room_hash(
                        old(self).rooms@,
                        other,
                    ),
                Err(e) => e == CompressorError::NotFound && !old(self).store.map@.contains_key(
                    shortstatehash,
                ) && final(self).rooms == old(self).rooms,
            },
    {
        if !self.store.map.contains_key(&shortstatehash) {
            return Err(CompressorError::NotFound);
        }
        let ghost before = self.rooms@;
        self.rooms.push((room_id.clone(), shortstatehash));
        proof {
            assert(self.rooms@.last().0@ == room_id@);
            assert forall|other: Seq<u8>| other != room_id@ implies room_hash(
                self.rooms@,
                other,
            ) == room_hash(before, other) by {
                assert(self.rooms@.drop_last() =~= before);
            }
            assert forall|i: int| 0 <= i < self.rooms@.len() implies self.store.map@.contains_key(
                #[trigger] (self.rooms@[i].1),
            ) by {
                if i < before.len() {
                    assert(self.rooms@[i] == before[i]);
                }
            }
        }
        Ok(())
    }

    /// Mint (or look up) the short event ID for an event ID and pair it with
    /// the given short state key as one compressed state event.
    pub fn compress_state_event(&mut self, shortstatekey: u64, event_id: &Vec<u8>) -> (r:
        CompressedStateEvent)
        requires
            compressor_wf(*old(self)),
            old(self).registry.event_ids@.len() < u64::MAX,
        ensures
            compressor_wf(*final(self)),
            r.short_state_key == shortstatekey,
            crate::registry::key_at(
                views(final(self).registry.event_ids@),
                event_id@,
                r.short_event_id - 1,
            ),
            views(final(self).registry.event_ids@) == crate::registry::assign_key(
                views(old(self).registry.event_ids@),
                event_id@,
            ),
            final(self).store.map@ == old(self).store.map@,
            final(self).cache == old(self).cache,
            final(self).rooms == old(self).rooms,
            final(self).registry.state_hashes@ == old(self).registry.state_hashes@,
    {
        let short_event_id = self.registry.shorten_event_id(event_id);
        proof {
            assert(self.registry.state_hashes@ == old(self).registry.state_hashes@);
            assert forall|i: int|
                0 <= i < self.registry.state_hashes@.len() implies #[trigger] minted_at(
                self.registry,
                self.store.map@,
                i,
            ) by {
                assert(minted_at(old(self).registry, old(self).store.map@, i));
            }
        }
        CompressedStateEvent { short_state_key: shortstatekey, short_event_id }
    }

    /// Split a compressed state event back into its short state key and the
    /// event ID its short event ID was minted for.
    pub fn parse_compressed_state_event(&self, compressed_event: &CompressedStateEvent) -> (r:
        Result<(u64, Vec<u8>), CompressorError>)
        ensures
            match r {
                Ok(t) => t.0 == compressed_event.short_state_key && 1
                    <= compressed_event.short_event_id <= self.registry.event_ids@.len() && t.1@
                    == views(self.registry.event_ids@)[compressed_event.short_event_id - 1],
                Err(e) => e == CompressorError::NotFound && !(1 <= compressed_event.short_event_id
                    <= self.registry.event_ids@.len()),
            },
    {
        match self.registry.event_id_from_short(compressed_event.short_event_id) {
            Ok(event_id) => Ok((compressed_event.short_state_key, event_id)),
            Err(e) => Err(e),
        }
    }

    /// Persist a new snapshot's diff, rebalancing the layer tree as needed:
    /// when the parent chain already has four layers, or the pending diff is
    /// too large relative to its sibling weight, the pending diff is folded
    /// into the deepest parent and the attempt repeats one level shallower.
    /// Exactly one record is written, under `shortstatehash`; every
    /// already-stored snapshot keeps its full state and its stack.
    pub fn save_state_from_diff(
        &mut self,
        shortstatehash: u64,
        statediffnew: StateSet,
        statediffremoved: StateSet,
        diff_to_sibling: u128,
        parent_states: Vec<StackEntry>,
    ) -> (r: Result<(), CompressorError>)
        requires
            store_wf(old(self).store.map@),
            cache_ok(old(self).cache, old(self).store.map@),
            stack_ok(old(self).store.map@, parent_states@),
            pending_ok(stack_base(parent_states@), statediffnew@, statediffremoved@),
            fresh_above(old(self).store.map@, shortstatehash),
        ensures
            r is Ok,
            store_wf(final(self).store.map@),
            cache_ok(final(self).cache, final(self).store.map@),
            final(self).store.map@.contains_key(shortstatehash),
            final(self).store.map@.remove(shortstatehash) == old(self).store.map@,
            full_of(final(self).store.map@, shortstatehash) == apply_diff(
                stack_base(parent_states@),
                statediffnew@,
                statediffremoved@,
            ),
            forall|h2: u64|
                #[trigger] old(self).store.map@.contains_key(h2) ==> full_of(
                    final(self).store.map@,
                    h2,
                ) == full_of(old(self).store.map@, h2) && spec_stack(final(self).store.map@, h2)
                    == spec_stack(old(self).store.map@, h2),
            final(self).registry == old(self).registry,
            final(self).rooms == old(self).rooms,
            final(self).cache == old(self).cache,
        decreases parent_states@.len(),
    {
        let ghost m = self.store.map@;
        let ghost st0 = parent_states@;
        let mut parent_states = parent_states;
        let diffsum: u128 = (statediffnew.len() as u128) + (statediffremoved.len() as u128);

        if parent_states.len() > 3 {
            // Too many layers: fold the pending diff into the deepest parent
            // and place the result one level down.
            let popped = parent_states.pop().unwrap();
            proof {
                lemma_pop_setup(m, st0);
            }
            let mut parent_new = popped.added.duplicate();
            let mut parent_removed = popped.removed.duplicate();
            merge_into_parent(&mut parent_new, &mut parent_removed, &statediffnew,
                &statediffremoved);
            proof {
                lemma_merge_preserves(
                    stack_base(parent_states@),
                    st0.last().added@,
                    st0.last().removed@,
                    statediffnew@,
                    statediffremoved@,
                );
            }
            let r = self.save_state_from_diff(
                shortstatehash,
                parent_new,
                parent_removed,
                diffsum,
                parent_states,
            );
            return r;
        }
        if parent_states.len() == 0 {
            // No parent layer: the new snapshot becomes a root.
            let rec = StateDiff { parent: None, added: statediffnew, removed: statediffremoved };
            let ghost grec = rec;
            self.store.save_statediff(shortstatehash, rec);
            proof {
                lemma_persist(m, shortstatehash, grec, stack_base(st0));
                assert forall|h2: u64| #[trigger] self.cache.view_of().contains_key(h2) implies
                    self.store.map@.contains_key(h2) && self.cache.view_of()[h2] == spec_stack(
                    self.store.map@,
                    h2,
                ) by {}
            }
            return Ok(());
        }
        let popped = parent_states.pop().unwrap();
        proof {
            lemma_pop_setup(m, st0);
        }
        let parent_diff: u128 = (popped.added.len() as u128) + (popped.removed.len() as u128);
        let lhs = sat_mul(diffsum, diffsum);
        let rhs = sat_mul(sat_mul(2, diff_to_sibling), parent_diff);
        if lhs >= rhs {
            // Diff too big relative to its sibling weight: replace the layer
            // above instead of stacking a fifth sibling's worth of bytes.
            let mut parent_new = popped.added.duplicate();
            let mut parent_removed = popped.removed.duplicate();
            merge_into_parent(&mut parent_new, &mut parent_removed, &statediffnew,
                &statediffremoved);
            proof {
                lemma_merge_preserves(
                    stack_base(parent_states@),
                    st0.last().added@,
                    st0.last().removed@,
                    statediffnew@,
                    statediffremoved@,
                );
            }
            let r = self.save_state_from_diff(
                shortstatehash,
                parent_new,
                parent_removed,
                diffsum,
                parent_states,
            );
            r
        } else {
            // Diff small enough: stack it on top of the parent layer.
            let rec = StateDiff {
                parent: Some(popped.shortstatehash),
                added: statediffnew,
                removed: statediffremoved,
            };
            let ghost grec = rec;
            self.store.save_statediff(shortstatehash, rec);
            proof {
                assert(chain_len(m, grec.parent->Some_0) == st0.len());
                lemma_persist(m, shortstatehash, grec, stack_base(st0));
                assert forall|h2: u64| #[trigger] self.cache.view_of().contains_key(h2) implies
                    self.store.map@.contains_key(h2) && self.cache.view_of()[h2] == spec_stack(
                    self.store.map@,
                    h2,
                ) by {}
            }
            Ok(())
        }
    }

    /// Commit a room's new full state: mint (or find) the short state hash
    /// of its canonical key, compute the diff against the room's previous
    /// state, and persist it through the layer engine unless that hash
    /// already has a record. Returns the hash with the added and removed
    /// sets; the state stored under the returned hash is exactly the state
    /// handed in.
    pub fn save_state(
        &mut self,
        room_id: &Vec<u8>,
        new_state_ids_compressed: &StateSet,
    ) -> (r: Result<(u64, StateSet, StateSet), CompressorError>)
        requires
            compressor_wf(*old(self)),
            old(self).registry.state_hashes@.len() < u64::MAX,
        ensures
            compressor_wf(*final(self)),
            final(self).rooms == old(self).rooms,
            r is Ok,
            match r {
                Ok(t) => committed(
                    *old(self),
                    *final(self),
                    room_id@,
                    new_state_ids_compressed@,
                    t,
                ),
                Err(_) => false,
            },
    {
        let ghost m = self.store.map@;
        let ghost reg0 = self.registry;
        let previous_shortstatehash = self.get_room_shortstatehash(room_id);

        let state_hash = state_hash_key(new_state_ids_compressed);
        let (new_shortstatehash, already_existed) = self.registry.shorten_state_hash(&state_hash);
        proof {
            if already_existed {
                let i = new_shortstatehash - 1;
                assert(crate::registry::key_at(
                    views(reg0.state_hashes@),
                    state_hash@,
                    i as int,
                ));
                assert(minted_at(reg0, m, i as int));
                lemma_canon_of_set_injective(
                    full_of(m, new_shortstatehash),
                    new_state_ids_compressed@,
                );
                assert(full_of(m, new_shortstatehash) == new_state_ids_compressed@);
            } else {
                assert(new_shortstatehash == reg0.state_hashes@.len() + 1);
                assert(fresh_above(m, new_shortstatehash)) by {
                    assert forall|h2: u64| #[trigger] m.contains_key(h2) implies h2
                        < new_shortstatehash by {}
                    if m.contains_key(new_shortstatehash) {
                    }
                }
            }
        }

        match previous_shortstatehash {
            Some(p) => {
                if p == new_shortstatehash {
                    proof {
                        lemma_room_hash_in(old(self).rooms@, room_id@, m);
                        assert(m.contains_key(p));
                        assert(already_existed);
                        assert forall|i: int|
                            0 <= i < self.registry.state_hashes@.len() implies #[trigger] minted_at(
                            self.registry,
                            self.store.map@,
                            i,
                        ) by {
                            assert(minted_at(reg0, m, i));
                        }
                        assert(compressor_wf(*self));
                    }
                    return Ok((new_shortstatehash, StateSet::new(), StateSet::new()));
                }
            },
            None => {},
        }

        let states_parents = match previous_shortstatehash {
            Some(p) => {
                proof {
                    lemma_room_hash_in(old(self).rooms@, room_id@, m);
                }
                match self.load_shortstatehash_info(p) {
                    Ok(st) => {
                        proof {
                            lemma_spec_stack_props(m, p);
                            assert(stack_abs(st@).len() == st@.len());
                            assert(st@.len() >= 1);
                            assert(stack_abs(st@)[st@.len() - 1] == (
                                st@.last().shortstatehash,
                                st@.last().full@,
                                st@.last().added@,
                                st@.last().removed@,
                            ));
                            assert(spec_stack(m, p).last() == (
                                p,
                                full_of(m, p),
                                m[p].added@,
                                m[p].removed@,
                            ));
                            assert(st@.last().shortstatehash == p);
                            assert(st@.last().full@ == full_of(m, p));
                        }
                        st
                    },
                    Err(e) => {
                        proof {
                            assert(false);
                        }
                        return Err(e);
                    },
                }
            },
            None => Vec::new(),
        };
        let ghost stp = states_parents@;

        let n = states_parents.len();
        let (statediffnew, statediffremoved) = if n > 0 {
            let dn = new_state_ids_compressed.difference(&states_parents[n - 1].full);
            let dr = states_parents[n - 1].full.difference(new_state_ids_compressed);
            (dn, dr)
        } else {
            (new_state_ids_compressed.duplicate(), StateSet::new())
        };
        proof {
            lemma_diff_apply(stack_base(stp), new_state_ids_compressed@);
            assert(statediffnew@ == new_state_ids_compressed@.difference(stack_base(stp)));
            assert(statediffremoved@ == stack_base(stp).difference(new_state_ids_compressed@));
            assert(pending_ok(stack_base(stp), statediffnew@, statediffremoved@));
        }

        if !already_existed {
            let res = self.save_state_from_diff(
                new_shortstatehash,
                statediffnew.duplicate(),
                statediffremoved.duplicate(),
                2,
                states_parents,
            );
            proof {
                let m1 = self.store.map@;
                assert(res is Ok);
                assert(full_of(m1, new_shortstatehash) == apply_diff(
                    stack_base(stp),
                    statediffnew@,
                    statediffremoved@,
                ));
                assert(full_of(m1, new_shortstatehash) == new_state_ids_compressed@);
                let reg1 = self.registry;
                assert(views(reg1.state_hashes@) == views(reg0.state_hashes@).push(state_hash@));
                assert(reg1.state_hashes@.len() == reg0.state_hashes@.len() + 1);
                assert forall|h2: u64| #[trigger] m1.contains_key(h2) implies 1 <= h2
                    <= reg1.state_hashes@.len() by {
                    if h2 != new_shortstatehash {
                        assert(m.contains_key(h2));
                    }
                }
                assert forall|i: int|
                    0 <= i < reg1.state_hashes@.len() implies #[trigger] minted_at(
                    reg1,
                    m1,
                    i,
                ) by {
                    if i < reg0.state_hashes@.len() {
                        assert(minted_at(reg0, m, i));
                        let id = (i + 1) as u64;
                        assert(m.contains_key(id));
                        assert(full_of(m1, id) == full_of(m, id));
                        assert(views(reg1.state_hashes@)[i] == views(reg0.state_hashes@)[i]);
                    } else {
                        assert(views(reg1.state_hashes@)[i] == state_hash@);
                        assert((i + 1) as u64 == new_shortstatehash);
                    }
                }
                assert forall|i: int|
                    0 <= i < self.rooms@.len() implies m1.contains_key(
                    #[trigger] (self.rooms@[i].1),
                ) by {
                    assert(m.contains_key(self.rooms@[i].1));
                }
                assert(compressor_wf(*self));
            }
            Ok((new_shortstatehash, statediffnew, statediffremoved))
        } else {
            proof {
                assert(self.store.map@ == m);
                assert forall|i: int|
                    0 <= i < self.registry.state_hashes@.len() implies #[trigger] minted_at(
                    self.registry,
                    self.store.map@,
                    i,
                ) by {
                    assert(minted_at(reg0, m, i));
                }
                assert(compressor_wf(*self));
            }
            Ok((new_shortstatehash, statediffnew, statediffremoved))
        }
    }

    /// Returns a stack with one layer per link of `shortstatehash`'s parent
    /// chain, root first: the layer's hash, its materialised full state, and
    /// its stored diff. Consults the cache first and caches what it walks.
    pub fn load_shortstatehash_info(&mut self, shortstatehash: u64) -> (r: Result<
        Vec<StackEntry>,
        CompressorError,
    >)
        requires
            store_wf(old(self).store.map@),
            cache_ok(old(self).cache, old(self).store.map@),
        ensures
            cache_ok(final(self).cache, final(self).store.map@),
            final(self).store.map@ == old(self).store.map@,
            final(self).registry == old(self).registry,
            final(self).rooms == old(self).rooms,
            match r {
                Ok(st) => old(self).store.map@.contains_key(shortstatehash) && stack_abs(st@)
                    == spec_stack(old(self).store.map@, shortstatehash),
                Err(e) => e == CompressorError::NotFound && !old(self).store.map@.contains_key(
                    shortstatehash,
                ),
            },
        decreases shortstatehash,
    {
        let ghost m = self.store.map@;
        match self.cache.get(shortstatehash) {
            Some(st) => {
                proof {
                    assert(old(self).cache.view_of().contains_key(shortstatehash));
                }
                return Ok(st);
            },
            None => {},
        }
        let diff = match self.store.get_statediff(shortstatehash) {
            Ok(d) => d,
            Err(e) => {
                return Err(e);
            },
        };
        proof {
            lemma_spec_stack_props(m, shortstatehash);
        }
        match diff.parent {
            Some(parent) => {
                if parent >= shortstatehash {
                    // Unreachable while the store is well formed; kept so a
                    // corrupted backend cannot make the walk cycle.
                    return Err(CompressorError::Corruption);
                }
                let mut stack = match self.load_shortstatehash_info(parent) {
                    Ok(st) => st,
                    Err(e) => {
                        proof {
                            assert(m.contains_key(parent));
                        }
                        return Err(e);
                    },
                };
                proof {
                    lemma_spec_stack_props(m, parent);
                    assert(stack_abs(stack@).len() == stack@.len());
                    assert(stack@.len() >= 1);
                }
                let last_idx = stack.len() - 1;
                let mut full = stack[last_idx].full.duplicate();
                proof {
                    assert(stack_abs(stack@)[last_idx as int] == (
                        stack@[last_idx as int].shortstatehash,
                        stack@[last_idx as int].full@,
                        stack@[last_idx as int].added@,
                        stack@[last_idx as int].removed@,
                    ));
                    assert(stack@[last_idx as int].full@ == full_of(m, parent));
                }
                full.extend_with(&diff.added);
                full.remove_all(&diff.removed);
                proof {
                    assert(diff.added@ == m[shortstatehash].added@);
                    assert(diff.removed@ == m[shortstatehash].removed@);
                    assert(full@ == full_of(m, shortstatehash));
                }
                let entry = StackEntry {
                    shortstatehash,
                    full,
                    added: diff.added,
                    removed: diff.removed,
                };
                stack.push(entry);
                proof {
                    assert(stack_abs(stack@) =~= spec_stack(m, shortstatehash));
                }
                let copy = clone_stack(&stack);
                self.cache.insert(shortstatehash, copy);
                proof {
                    assert forall|h2: u64| #[trigger] self.cache.view_of().contains_key(
                        h2,
                    ) implies m.contains_key(h2) && self.cache.view_of()[h2] == spec_stack(
                        m,
                        h2,
                    ) by {}
                }
                Ok(stack)
            },
            None => {
                let full = diff.added.duplicate();
                let entry = StackEntry {
                    shortstatehash,
                    full,
                    added: diff.added,
                    removed: diff.removed,
                };
                let mut stack: Vec<StackEntry> = Vec::new();
                stack.push(entry);
                proof {
                    assert(diff.added@ == m[shortstatehash].added@);
                    assert(diff.removed@ == m[shortstatehash].removed@);
                    assert(stack_abs(stack@) =~= spec_stack(m, shortstatehash));
                }
                let copy = clone_stack(&stack);
                self.cache.insert(shortstatehash, copy);
                proof {
                    assert forall|h2: u64| #[trigger] self.cache.view_of().contains_key(
                        h2,
                    ) implies m.contains_key(h2) && self.cache.view_of()[h2] == spec_stack(
                        m,
                        h2,
                    ) by {}
                }
                Ok(stack)
            },
        }
    }
}

} // verus!
