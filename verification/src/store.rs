use vstd::prelude::*;

use std::collections::HashMap;

use crate::CompressorError;
use crate::codec::CompressedStateEvent;
use crate::sets::StateSet;

verus! {

/// The persisted record for one short state hash: the predecessor layer (or
/// none for a root), the events added relative to it, and the events removed
/// from it.
pub struct StateDiff {
    pub parent: Option<u64>,
    pub added: StateSet,
    pub removed: StateSet,
}

/// One reconstructed layer of a parent chain: the layer's short state hash,
/// the full state materialised at that layer, and the stored diff.
#[derive(Clone)]
pub struct StackEntry {
    pub shortstatehash: u64,
    pub full: StateSet,
    pub added: StateSet,
    pub removed: StateSet,
}

/// Abstract form of one stack layer.
pub type LayerAbs = (u64, Set<CompressedStateEvent>, Set<CompressedStateEvent>, Set<
    CompressedStateEvent,
>);

/// Abstract form of a reconstructed stack, root first.
pub open spec fn stack_abs(s: Seq<StackEntry>) -> Seq<LayerAbs> {
    s.map_values(|e: StackEntry| (e.shortstatehash, e.full@, e.added@, e.removed@))
}

/// A diff applied to a base state: add `a`, then drop `r`.
pub open spec fn apply_diff(
    base: Set<CompressedStateEvent>,
    a: Set<CompressedStateEvent>,
    r: Set<CompressedStateEvent>,
) -> Set<CompressedStateEvent> {
    base.union(a).difference(r)
}

/// The full state a short state hash denotes: its root layer's events with
/// every stored diff above applied in order. Parent links that do not point
/// strictly below their child are not followed.
pub open spec fn full_of(m: Map<u64, StateDiff>, h: u64) -> Set<CompressedStateEvent>
    decreases h,
{
    if m.contains_key(h) {
        match m[h].parent {
            None => m[h].added@,
            Some(p) => if p < h {
                apply_diff(full_of(m, p), m[h].added@, m[h].removed@)
            } else {
                Set::empty()
            },
        }
    } else {
        Set::empty()
    }
}

/// Number of layers in the parent chain of `h`, the layer itself included.
pub open spec fn chain_len(m: Map<u64, StateDiff>, h: u64) -> nat
    decreases h,
{
    if m.contains_key(h) {
        match m[h].parent {
            None => 1,
            Some(p) => if p < h {
                1 + chain_len(m, p)
            } else {
                1
            },
        }
    } else {
        0
    }
}

/// The stack of layers for `h`, root first, in abstract form.
pub open spec fn spec_stack(m: Map<u64, StateDiff>, h: u64) -> Seq<LayerAbs>
    decreases h,
{
    if m.contains_key(h) {
        match m[h].parent {
            None => seq![(h, m[h].added@, m[h].added@, m[h].removed@)],
            Some(p) => if p < h {
                spec_stack(m, p).push((h, full_of(m, h), m[h].added@, m[h].removed@))
            } else {
                Seq::empty()
            },
        }
    } else {
        Seq::empty()
    }
}

/// Every stored parent link points strictly below its child and is itself
/// stored: chains go down and never cycle.
pub open spec fn store_closed(m: Map<u64, StateDiff>) -> bool {
    forall|h: u64|
        #[trigger] m.contains_key(h) ==> match m[h].parent {
            None => true,
            Some(p) => p < h && m.contains_key(p),
        }
}

/// The stored diff of `h` respects its parent: a root removes nothing, and a
/// non-root adds nothing its parent already holds, removes nothing its parent
/// lacks, and never both adds and removes one event.
pub open spec fn diff_ok(m: Map<u64, StateDiff>, h: u64) -> bool {
    match m[h].parent {
        None => m[h].removed@ == Set::<CompressedStateEvent>::empty(),
        Some(p) => m[h].added@.disjoint(m[h].removed@) && m[h].added@.disjoint(full_of(m, p))
            && m[h].removed@.subset_of(full_of(m, p)),
    }
}

/// Well-formedness of the diff store:
/// - parent links point strictly below their child and are stored;
/// - every stored diff respects its parent (`diff_ok`);
/// - no parent chain is longer than four layers.
pub open spec fn store_wf(m: Map<u64, StateDiff>) -> bool {
    &&& store_closed(m)
    &&& forall|h: u64| #[trigger] m.contains_key(h) ==> diff_ok(m, h)
    &&& forall|h: u64| #[trigger] m.contains_key(h) ==> chain_len(m, h) <= 4
}

/// Inserting a record for a hash the store does not know leaves the full
/// state, chain length and stack of every other hash unchanged.
pub proof fn lemma_fresh_insert_preserves(m: Map<u64, StateDiff>, hn: u64, d: StateDiff, h: u64)
    requires
        store_closed(m),
        !m.contains_key(hn),
        h != hn,
    ensures
        full_of(m.insert(hn, d), h) == full_of(m, h),
        chain_len(m.insert(hn, d), h) == chain_len(m, h),
        spec_stack(m.insert(hn, d), h) == spec_stack(m, h),
    decreases h,
{
    let mi = m.insert(hn, d);
    if m.contains_key(h) {
        match m[h].parent {
            None => {},
            Some(p) => {
                if p < h {
                    assert(p != hn);
                    lemma_fresh_insert_preserves(m, hn, d, p);
                }
            },
        }
    } else {
        assert(!mi.contains_key(h));
    }
}

/// Shape of a stored hash's stack: one layer per chain link, the last layer
/// being the hash itself with its materialised full state.
pub proof fn lemma_spec_stack_props(m: Map<u64, StateDiff>, h: u64)
    requires
        store_closed(m),
        m.contains_key(h),
    ensures
        spec_stack(m, h).len() == chain_len(m, h),
        spec_stack(m, h).len() >= 1,
        spec_stack(m, h).last() == (h, full_of(m, h), m[h].added@, m[h].removed@),
    decreases h,
{
    match m[h].parent {
        None => {},
        Some(p) => {
            lemma_spec_stack_props(m, p);
        },
    }
}

/// Every stored snapshot obeys the layer invariants: its chain is at most
/// four layers; a non-root layer's full state is its parent's full state with
/// the layer's diff applied, the diff adding nothing present, removing
/// nothing absent, and never both adding and removing one event; a root layer
/// is its own full state.
pub proof fn lemma_chain_invariants(m: Map<u64, StateDiff>, h: u64)
    requires
        store_wf(m),
        m.contains_key(h),
    ensures
        chain_len(m, h) <= 4,
        m[h].parent is Some ==> {
            let p = m[h].parent->Some_0;
            &&& m.contains_key(p)
            &&& p < h
            &&& full_of(m, h) == apply_diff(full_of(m, p), m[h].added@, m[h].removed@)
            &&& m[h].added@.disjoint(m[h].removed@)
            &&& m[h].added@.disjoint(full_of(m, p))
            &&& m[h].removed@.subset_of(full_of(m, p))
        },
        m[h].parent is None ==> full_of(m, h) == m[h].added@ && m[h].removed@ == Set::<
            CompressedStateEvent,
        >::empty(),
{
    assert(diff_ok(m, h));
}

/// The in-memory ordered key-value backend holding one diff record per short
/// state hash.
pub struct DiffStore {
    pub map: HashMap<u64, StateDiff>,
}

/// Two records with the same parent link and the same stored vectors.
pub open spec fn same_diff(a: StateDiff, b: StateDiff) -> bool {
    a.parent == b.parent && a.added.elems@ == b.added.elems@ && a.removed.elems@
        == b.removed.elems@
}

impl DiffStore {
    /// An empty store.
    pub fn new() -> (r: DiffStore)
        ensures
            r.map@ == Map::<u64, StateDiff>::empty(),
    {
        DiffStore { map: HashMap::new() }
    }

    /// Fetch the stored record for `h`, as an independent copy.
    pub fn get_statediff(&self, shortstatehash: u64) -> (r: Result<StateDiff, CompressorError>)
        ensures
            match r {
                Ok(d) => self.map@.contains_key(shortstatehash) && same_diff(
                    d,
                    self.map@[shortstatehash],
                ),
                Err(e) => !self.map@.contains_key(shortstatehash) && e
                    == CompressorError::NotFound,
            },
    {
        match self.map.get(&shortstatehash) {
            Some(d) => Ok(
                StateDiff {
                    parent: d.parent,
                    added: d.added.duplicate(),
                    removed: d.removed.duplicate(),
                },
            ),
            None => Err(CompressorError::NotFound),
        }
    }

    /// Store (or replace) the record for `h`.
    pub fn save_statediff(&mut self, shortstatehash: u64, diff: StateDiff)
        ensures
            final(self).map@ == old(self).map@.insert(shortstatehash, diff),
    {
        self.map.insert(shortstatehash, diff);
    }
}

} // verus!
