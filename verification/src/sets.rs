use vstd::prelude::*;

use crate::codec::CompressedStateEvent;

verus! {

/// A set of compressed state events, stored as a vector and viewed as the
/// mathematical set of its elements. All operations keep the vector free of
/// duplicates when it already is, but their contracts hold of any contents.
#[derive(Clone)]
pub struct StateSet {
    pub elems: Vec<CompressedStateEvent>,
}

/// Taking one element more extends the set view by exactly that element.
pub proof fn lemma_take_step(s: Seq<CompressedStateEvent>, i: int)
    requires
        0 <= i < s.len(),
    ensures
        s.take(i + 1).to_set() == s.take(i).to_set().insert(s[i]),
{
    assert(s.take(i + 1) =~= s.take(i).push(s[i]));
    s.take(i).lemma_push_to_set_commute(s[i]);
    assert(s.take(i + 1).to_set() =~= s.take(i).to_set().insert(s[i]));
}

impl View for StateSet {
    type V = Set<CompressedStateEvent>;

    open spec fn view(&self) -> Set<CompressedStateEvent> {
        self.elems@.to_set()
    }
}

impl StateSet {
    /// The empty set.
    pub fn new() -> (r: StateSet)
        ensures
            r@ == Set::<CompressedStateEvent>::empty(),
            r.elems@ == Seq::<CompressedStateEvent>::empty(),
    {
        let r = StateSet { elems: Vec::new() };
        proof {
            assert(r@ =~= Set::<CompressedStateEvent>::empty());
        }
        r
    }

    /// Number of stored elements (equals the cardinality whenever the vector
    /// holds no duplicates).
    pub fn len(&self) -> (r: usize)
        ensures
            r == self.elems@.len(),
    {
        self.elems.len()
    }

    /// Whether the set is empty.
    pub fn is_empty(&self) -> (r: bool)
        ensures
            r == (self@ == Set::<CompressedStateEvent>::empty()),
    {
        proof {
            if self.elems@.len() > 0 {
                assert(self@.contains(self.elems@[0]));
            } else {
                assert(self@ =~= Set::<CompressedStateEvent>::empty());
            }
        }
        self.elems.len() == 0
    }

    /// The element at a position of the underlying vector.
    pub fn get(&self, i: usize) -> (r: CompressedStateEvent)
        requires
            i < self.elems@.len(),
        ensures
            r == self.elems@[i as int],
            self@.contains(r),
    {
        self.elems[i]
    }

    /// Membership test.
    pub fn contains(&self, ev: &CompressedStateEvent) -> (r: bool)
        ensures
            r == self@.contains(*ev),
    {
        let n = self.elems.len();
        let mut i: usize = 0;
        while i < n
            invariant
                n == self.elems@.len(),
                i <= n,
                forall|j: int| 0 <= j < i ==> self.elems@[j] != *ev,
            decreases n - i,
        {
            if self.elems[i].short_state_key == ev.short_state_key
                && self.elems[i].short_event_id == ev.short_event_id {
                proof {
                    assert(self.elems@[i as int] == *ev);
                    assert(self.elems@.contains(*ev));
                }
                return true;
            }
            i += 1;
        }
        proof {
            assert(!self.elems@.contains(*ev));
        }
        false
    }

    /// Add one element.
    pub fn insert(&mut self, ev: CompressedStateEvent)
        ensures
            final(self)@ == old(self)@.insert(ev),
            final(self).elems@.len() <= old(self).elems@.len() + 1,
            old(self).elems@.no_duplicates() ==> final(self).elems@.no_duplicates(),
    {
        if !self.contains(&ev) {
            proof {
                old(self).elems@.lemma_push_to_set_commute(ev);
                if old(self).elems@.no_duplicates() {
                    assert forall|i: int, j: int|
                        0 <= i < j < old(self).elems@.push(ev).len() implies old(
                        self,
                    ).elems@.push(ev)[i] != old(self).elems@.push(ev)[j] by {
                        if j == old(self).elems@.len() {
                            assert(!old(self).elems@.contains(ev));
                        }
                    }
                }
            }
            self.elems.push(ev);
            proof {
                assert(self@ =~= old(self)@.insert(ev));
            }
        } else {
            proof {
                assert(self@ =~= old(self)@.insert(ev));
            }
        }
    }

    /// Remove every occurrence of one element.
    pub fn remove(&mut self, ev: &CompressedStateEvent)
        ensures
            final(self)@ == old(self)@.remove(*ev),
            final(self).elems@.len() <= old(self).elems@.len(),
    {
        let n = self.elems.len();
        let mut out: Vec<CompressedStateEvent> = Vec::new();
        let mut i: usize = 0;
        while i < n
            invariant
                n == self.elems@.len(),
                i <= n,
                out@.len() <= i,
                out@.to_set() == self.elems@.take(i as int).to_set().remove(*ev),
            decreases n - i,
        {
            let x = self.elems[i];
            proof {
                lemma_take_step(self.elems@, i as int);
            }
            if !(x.short_state_key == ev.short_state_key && x.short_event_id == ev.short_event_id) {
                proof {
                    out@.lemma_push_to_set_commute(x);
                }
                out.push(x);
                proof {
                    assert(out@.to_set() =~= self.elems@.take(i + 1).to_set().remove(*ev));
                }
            } else {
                proof {
                    assert(self.elems@[i as int] == *ev);
                    assert(out@.to_set() =~= self.elems@.take(i + 1).to_set().remove(*ev));
                }
            }
            i += 1;
        }
        proof {
            assert(self.elems@.take(n as int) =~= self.elems@);
        }
        self.elems = out;
    }

    /// Add every element of `other`.
    pub fn extend_with(&mut self, other: &StateSet)
        ensures
            final(self)@ == old(self)@.union(other@),
            final(self).elems@.len() <= old(self).elems@.len() + other.elems@.len(),
    {
        let n = other.elems.len();
        let mut i: usize = 0;
        while i < n
            invariant
                n == other.elems@.len(),
                i <= n,
                self@ == old(self)@.union(other.elems@.take(i as int).to_set()),
                self.elems@.len() <= old(self).elems@.len() + i,
            decreases n - i,
        {
            let x = other.elems[i];
            self.insert(x);
            proof {
                lemma_take_step(other.elems@, i as int);
                assert(self@ =~= old(self)@.union(other.elems@.take(i + 1).to_set()));
            }
            i += 1;
        }
        proof {
            assert(other.elems@.take(n as int) =~= other.elems@);
            assert(self@ == old(self)@.union(other@));
        }
    }

    /// Remove every element of `other`.
    pub fn remove_all(&mut self, other: &StateSet)
        ensures
            final(self)@ == old(self)@.difference(other@),
            final(self).elems@.len() <= old(self).elems@.len(),
    {
        let n = other.elems.len();
        let mut i: usize = 0;
        while i < n
            invariant
                n == other.elems@.len(),
                i <= n,
                self@ == old(self)@.difference(other.elems@.take(i as int).to_set()),
                self.elems@.len() <= old(self).elems@.len(),
            decreases n - i,
        {
            let x = other.elems[i];
            self.remove(&x);
            proof {
                lemma_take_step(other.elems@, i as int);
                assert(self@ =~= old(self)@.difference(other.elems@.take(i + 1).to_set()));
            }
            i += 1;
        }
        proof {
            assert(other.elems@.take(n as int) =~= other.elems@);
            assert(self@ == old(self)@.difference(other@));
        }
    }

    /// The elements of `self` that are not in `other`, as a fresh set.
    pub fn difference(&self, other: &StateSet) -> (r: StateSet)
        ensures
            r@ == self@.difference(other@),
            r.elems@.len() <= self.elems@.len(),
    {
        let n = self.elems.len();
        let mut out = StateSet::new();
        let mut i: usize = 0;
        while i < n
            invariant
                n == self.elems@.len(),
                i <= n,
                out@ == self.elems@.take(i as int).to_set().difference(other@),
                out.elems@.len() <= i,
            decreases n - i,
        {
            let x = self.elems[i];
            proof {
                lemma_take_step(self.elems@, i as int);
            }
            if !other.contains(&x) {
                out.insert(x);
            }
            proof {
                assert(out@ =~= self.elems@.take(i + 1).to_set().difference(other@));
            }
            i += 1;
        }
        proof {
            assert(self.elems@.take(n as int) =~= self.elems@);
            assert(out@ == self@.difference(other@));
        }
        out
    }

    /// The same set with any duplicate entries dropped.
    pub fn deduped(&self) -> (r: StateSet)
        ensures
            r@ == self@,
            r.elems@.no_duplicates(),
            r.elems@.len() <= self.elems@.len(),
    {
        let n = self.elems.len();
        let mut out = StateSet::new();
        let mut i: usize = 0;
        while i < n
            invariant
                n == self.elems@.len(),
                i <= n,
                out@ == self.elems@.take(i as int).to_set(),
                out.elems@.no_duplicates(),
                out.elems@.len() <= i,
            decreases n - i,
        {
            let x = self.elems[i];
            out.insert(x);
            proof {
                lemma_take_step(self.elems@, i as int);
            }
            i += 1;
        }
        proof {
            assert(self.elems@.take(n as int) =~= self.elems@);
        }
        out
    }

    /// An independent copy with the same contents.
    pub fn duplicate(&self) -> (r: StateSet)
        ensures
            r@ == self@,
            r.elems@ == self.elems@,
    {
        let n = self.elems.len();
        let mut out: Vec<CompressedStateEvent> = Vec::new();
        let mut i: usize = 0;
        while i < n
            invariant
                n == self.elems@.len(),
                i <= n,
                out@ == self.elems@.take(i as int),
            decreases n - i,
        {
            out.push(self.elems[i]);
            proof {
                assert(out@ =~= self.elems@.take(i + 1));
            }
            i += 1;
        }
        proof {
            assert(self.elems@.take(n as int) =~= self.elems@);
        }
        StateSet { elems: out }
    }
}

} // verus!
