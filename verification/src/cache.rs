use vstd::prelude::*;

use lru_cache::LruCache;

use crate::store::{LayerAbs, StackEntry, stack_abs};

verus! {

#[verifier::external_type_specification]
#[verifier::external_body]
#[verifier::reject_recursive_types(K)]
#[verifier::reject_recursive_types(V)]
#[verifier::reject_recursive_types(S)]
pub struct ExLruCache<K: Eq + std::hash::Hash, V, S: std::hash::BuildHasher>(
    LruCache<K, V, S>,
);

/// The concrete cache held behind the trusted wrappers.
pub type InnerCache = LruCache<u64, Vec<StackEntry>>;

/// What the cache holds: for each cached short state hash, the abstract form
/// of the stack stored under it.
pub uninterp spec fn lru_view(c: InnerCache) -> Map<u64, Seq<LayerAbs>>;

/// A cache with nothing in it.
pub open spec fn empty_stacks() -> Map<u64, Seq<LayerAbs>> {
    Map::empty()
}

/// Relies on lru_cache::LruCache::new: creates an empty cache that will hold
/// at most `capacity` entries.
#[verifier::external_body]
fn lru_new(capacity: usize) -> (r: InnerCache)
    ensures
        lru_view(r) == empty_stacks(),
{
    LruCache::new(capacity)
}

/// Relies on lru_cache::LruCache::get_mut: returns the entry stored under the
/// key if one is cached (here cloned), refreshes its recency, and never adds,
/// drops or rewrites an entry.
#[verifier::external_body]
fn lru_get(c: &mut InnerCache, k: u64) -> (r: Option<Vec<StackEntry>>)
    ensures
        lru_view(*final(c)) == lru_view(*old(c)),
        match r {
            Some(v) => lru_view(*old(c)).contains_key(k) && stack_abs(v@) == lru_view(*old(c))[k],
            None => !lru_view(*old(c)).contains_key(k),
        },
{
    c.get_mut(&k).map(|v| v.clone())
}

/// Relies on lru_cache::LruCache::insert: stores the value under the key and
/// then evicts least-recently-used entries while over capacity (on a
/// zero-capacity cache even the entry just stored), never rewriting a
/// surviving entry.
#[verifier::external_body]
fn lru_insert(c: &mut InnerCache, k: u64, v: Vec<StackEntry>)
    ensures
        forall|k2: u64| #[trigger] lru_view(*final(c)).contains_key(k2) ==> if k2 == k {
            lru_view(*final(c))[k2] == stack_abs(v@)
        } else {
            lru_view(*old(c)).contains_key(k2) && lru_view(*final(c))[k2] == lru_view(*old(c))[k2]
        },
{
    c.insert(k, v);
}

/// A bounded least-recently-used cache of reconstructed parent stacks, keyed
/// by short state hash. The cache is advisory: entries may disappear under
/// pressure, but a present entry is exactly what was stored under its key.
pub struct StackCache {
    pub inner: InnerCache,
}

impl StackCache {
    /// What the cache holds, in abstract form.
    pub open spec fn view_of(&self) -> Map<u64, Seq<LayerAbs>> {
        lru_view(self.inner)
    }

    /// An empty cache bounded to `capacity` stacks.
    pub fn new(capacity: usize) -> (r: StackCache)
        ensures
            r.view_of() == empty_stacks(),
    {
        StackCache { inner: lru_new(capacity) }
    }

    /// Look a stack up, marking it most recently used.
    pub fn get(&mut self, shortstatehash: u64) -> (r: Option<Vec<StackEntry>>)
        ensures
            final(self).view_of() == old(self).view_of(),
            match r {
                Some(v) => old(self).view_of().contains_key(shortstatehash) && stack_abs(v@)
                    == old(self).view_of()[shortstatehash],
                None => !old(self).view_of().contains_key(shortstatehash),
            },
    {
        lru_get(&mut self.inner, shortstatehash)
    }

    /// Store a stack, possibly evicting least-recently-used ones.
    pub fn insert(&mut self, shortstatehash: u64, stack: Vec<StackEntry>)
        ensures
            forall|k2: u64| #[trigger] final(self).view_of().contains_key(k2) ==> if k2
                == shortstatehash {
                final(self).view_of()[k2] == stack_abs(stack@)
            } else {
                old(self).view_of().contains_key(k2) && final(self).view_of()[k2] == old(
                    self,
                ).view_of()[k2]
            },
    {
        lru_insert(&mut self.inner, shortstatehash, stack);
    }
}

} // verus!
