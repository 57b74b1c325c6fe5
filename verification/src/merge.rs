use vstd::prelude::*;

use crate::codec::CompressedStateEvent;
use crate::sets::StateSet;
use crate::store::apply_diff;

verus! {

/// The added set after a pending diff `(ac, rc)` is folded into its parent's
/// diff `(ap, rp)`: parent additions the child did not take back, plus child
/// additions that do not merely cancel a parent removal.
pub open spec fn merged_added(
    ap: Set<CompressedStateEvent>,
    rp: Set<CompressedStateEvent>,
    ac: Set<CompressedStateEvent>,
    rc: Set<CompressedStateEvent>,
) -> Set<CompressedStateEvent> {
    ap.difference(rc).union(ac.difference(rp.union(rc.difference(ap))))
}

/// The removed set after the fold: parent removals and child removals of
/// untouched events, minus removals the child's additions cancel.
pub open spec fn merged_removed(
    ap: Set<CompressedStateEvent>,
    rp: Set<CompressedStateEvent>,
    ac: Set<CompressedStateEvent>,
    rc: Set<CompressedStateEvent>,
) -> Set<CompressedStateEvent> {
    rp.union(rc.difference(ap)).difference(ac)
}

/// Fold a pending diff into the popped parent's diff, in place, exactly as
/// the layer engine's rebalance asks: first each pending removal either
/// cancels a parent addition or becomes a parent removal, then each pending
/// addition either cancels a parent removal or becomes a parent addition.
pub fn merge_into_parent(
    parent_added: &mut StateSet,
    parent_removed: &mut StateSet,
    added: &StateSet,
    removed: &StateSet,
)
    ensures
        final(parent_added)@ == merged_added(
            old(parent_added)@,
            old(parent_removed)@,
            added@,
            removed@,
        ),
        final(parent_removed)@ == merged_removed(
            old(parent_added)@,
            old(parent_removed)@,
            added@,
            removed@,
        ),
        final(parent_added).elems@.len() <= old(parent_added).elems@.len() + added.elems@.len(),
        final(parent_removed).elems@.len() <= old(parent_removed).elems@.len()
            + removed.elems@.len(),
{
    let ghost ap = parent_added@;
    let ghost rp = parent_removed@;
    let rem = removed.deduped();
    let add = added.deduped();
    let n = rem.len();
    let mut i: usize = 0;
    while i < n
        invariant
            n == rem.elems@.len(),
            i <= n,
            rem@ == removed@,
            rem.elems@.no_duplicates(),
            parent_added@ == ap.difference(rem.elems@.take(i as int).to_set()),
            parent_removed@ == rp.union(rem.elems@.take(i as int).to_set().difference(ap)),
            parent_added.elems@.len() <= old(parent_added).elems@.len(),
            parent_removed.elems@.len() <= old(parent_removed).elems@.len() + i,
        decreases n - i,
    {
        let r = rem.get(i);
        proof {
            crate::sets::lemma_take_step(rem.elems@, i as int);
            assert(!rem.elems@.take(i as int).contains(r));
            assert(!rem.elems@.take(i as int).to_set().contains(r));
        }
        if parent_added.contains(&r) {
            parent_added.remove(&r);
            proof {
                assert(parent_added@ =~= ap.difference(rem.elems@.take(i + 1).to_set()));
                assert(parent_removed@ =~= rp.union(
                    rem.elems@.take(i + 1).to_set().difference(ap),
                ));
            }
        } else {
            parent_removed.insert(r);
            proof {
                assert(parent_added@ =~= ap.difference(rem.elems@.take(i + 1).to_set()));
                assert(parent_removed@ =~= rp.union(
                    rem.elems@.take(i + 1).to_set().difference(ap),
                ));
            }
        }
        i += 1;
    }
    proof {
        assert(rem.elems@.take(n as int) =~= rem.elems@);
    }
    let ghost a1 = ap.difference(removed@);
    let ghost r1 = rp.union(removed@.difference(ap));
    proof {
        assert(parent_added@ == a1);
        assert(parent_removed@ == r1);
    }
    let m = add.len();
    let mut j: usize = 0;
    while j < m
        invariant
            m == add.elems@.len(),
            j <= m,
            add@ == added@,
            add.elems@.no_duplicates(),
            parent_added@ == a1.union(add.elems@.take(j as int).to_set().difference(r1)),
            parent_removed@ == r1.difference(add.elems@.take(j as int).to_set()),
            parent_added.elems@.len() <= old(parent_added).elems@.len() + j,
            parent_removed.elems@.len() <= old(parent_removed).elems@.len()
                + removed.elems@.len(),
        decreases m - j,
    {
        let a = add.get(j);
        proof {
            crate::sets::lemma_take_step(add.elems@, j as int);
            assert(!add.elems@.take(j as int).contains(a));
            assert(!add.elems@.take(j as int).to_set().contains(a));
        }
        if parent_removed.contains(&a) {
            parent_removed.remove(&a);
            proof {
                assert(parent_added@ =~= a1.union(
                    add.elems@.take(j + 1).to_set().difference(r1),
                ));
                assert(parent_removed@ =~= r1.difference(add.elems@.take(j + 1).to_set()));
            }
        } else {
            parent_added.insert(a);
            proof {
                assert(parent_added@ =~= a1.union(
                    add.elems@.take(j + 1).to_set().difference(r1),
                ));
                assert(parent_removed@ =~= r1.difference(add.elems@.take(j + 1).to_set()));
            }
        }
        j += 1;
    }
    proof {
        assert(add.elems@.take(m as int) =~= add.elems@);
        assert(parent_added@ =~= merged_added(ap, rp, added@, removed@));
        assert(parent_removed@ =~= merged_removed(ap, rp, added@, removed@));
    }
}

/// The fold is sound: applying the merged diff to the base below the parent
/// gives the very state the parent diff followed by the pending diff gave,
/// and the merged diff satisfies the layer invariants relative to that base.
pub proof fn lemma_merge_preserves(
    base: Set<CompressedStateEvent>,
    ap: Set<CompressedStateEvent>,
    rp: Set<CompressedStateEvent>,
    ac: Set<CompressedStateEvent>,
    rc: Set<CompressedStateEvent>,
)
    requires
        ap.disjoint(rp),
        ap.disjoint(base),
        rp.subset_of(base),
        ac.disjoint(rc),
        ac.disjoint(apply_diff(base, ap, rp)),
        rc.subset_of(apply_diff(base, ap, rp)),
    ensures
        apply_diff(base, merged_added(ap, rp, ac, rc), merged_removed(ap, rp, ac, rc))
            == apply_diff(apply_diff(base, ap, rp), ac, rc),
        merged_added(ap, rp, ac, rc).disjoint(merged_removed(ap, rp, ac, rc)),
        merged_added(ap, rp, ac, rc).disjoint(base),
        merged_removed(ap, rp, ac, rc).subset_of(base),
{
    let ma = merged_added(ap, rp, ac, rc);
    let mr = merged_removed(ap, rp, ac, rc);
    let mid = apply_diff(base, ap, rp);
    assert forall|x: CompressedStateEvent|
        apply_diff(base, ma, mr).contains(x) == apply_diff(mid, ac, rc).contains(x) by {
        if rp.contains(x) {
            assert(base.contains(x));
            assert(!ap.contains(x));
        }
        if rc.contains(x) {
            assert(mid.contains(x));
            assert(!ac.contains(x));
        }
        if ac.contains(x) {
            assert(!mid.contains(x));
        }
    }
    assert(apply_diff(base, ma, mr) =~= apply_diff(mid, ac, rc));
    assert forall|x: CompressedStateEvent| ma.contains(x) implies !mr.contains(x) && !base.contains(
        x,
    ) by {
        if ac.contains(x) {
            assert(!mid.contains(x));
            if base.contains(x) {
                if !rp.contains(x) {
                    assert(mid.contains(x));
                }
            }
        }
    }
    assert forall|x: CompressedStateEvent| mr.contains(x) implies base.contains(x) by {
        if rc.contains(x) {
            assert(mid.contains(x));
        }
    }
}

/// A state rewritten as a diff against a previous state and applied back
/// gives the state itself: the committer's diff computation is sound.
pub proof fn lemma_diff_apply(
    prev: Set<CompressedStateEvent>,
    next: Set<CompressedStateEvent>,
)
    ensures
        apply_diff(prev, next.difference(prev), prev.difference(next)) == next,
        next.difference(prev).disjoint(prev.difference(next)),
        next.difference(prev).disjoint(prev),
        prev.difference(next).subset_of(prev),
{
    assert(apply_diff(prev, next.difference(prev), prev.difference(next)) =~= next);
}

} // verus!
