use vstd::prelude::*;

use crate::codec::{CompressedStateEvent, compress, enc16, lemma_compress_injective};
use crate::sets::StateSet;

verus! {

/// Strict order on compressed events: by short state key, then short event ID.
pub open spec fn event_lt(a: CompressedStateEvent, b: CompressedStateEvent) -> bool {
    a.short_state_key < b.short_state_key || (a.short_state_key == b.short_state_key
        && a.short_event_id < b.short_event_id)
}

/// Strictly ascending, hence duplicate-free.
pub open spec fn strictly_sorted(s: Seq<CompressedStateEvent>) -> bool {
    forall|i: int, j: int| 0 <= i < j < s.len() ==> event_lt(s[i], s[j])
}

/// A set with a strictly sorted sequence form (every finite set of events has
/// one; the sorter below produces it).
pub open spec fn has_sorted_rep(s: Set<CompressedStateEvent>) -> bool {
    exists|q: Seq<CompressedStateEvent>| strictly_sorted(q) && q.to_set() == s
}

/// The canonical byte string of an event sequence: the 16-byte wire forms,
/// concatenated in order.
pub open spec fn canon(s: Seq<CompressedStateEvent>) -> Seq<u8>
    decreases s.len(),
{
    if s.len() == 0 {
        Seq::empty()
    } else {
        enc16(s[0]) + canon(s.skip(1))
    }
}

/// The canonical byte key of a state set: the concatenated wire forms of its
/// events in ascending order. Equal sets get equal keys, whatever order their
/// events arrived in.
pub open spec fn canon_of_set(s: Set<CompressedStateEvent>) -> Seq<u8> {
    canon(
        choose|q: Seq<CompressedStateEvent>| strictly_sorted(q) && q.to_set() == s,
    )
}

/// The canonical bytes of a sequence grow by one wire form per event.
pub proof fn lemma_canon_push(s: Seq<CompressedStateEvent>, e: CompressedStateEvent)
    ensures
        canon(s.push(e)) == canon(s) + enc16(e),
    decreases s.len(),
{
    if s.len() == 0 {
        assert(s.push(e)[0] == e);
        assert(s.push(e).skip(1) =~= Seq::<CompressedStateEvent>::empty());
        assert(canon(s.push(e)) == enc16(e) + canon(Seq::<CompressedStateEvent>::empty()));
        assert(canon(s.push(e)) =~= canon(s) + enc16(e));
    } else {
        assert(s.push(e).skip(1) =~= s.skip(1).push(e));
        lemma_canon_push(s.skip(1), e);
        assert(s.push(e)[0] == s[0]);
        assert(canon(s.push(e)) == enc16(s[0]) + canon(s.skip(1).push(e)));
        assert(canon(s.push(e)) == enc16(s[0]) + (canon(s.skip(1)) + enc16(e)));
        assert(canon(s) == enc16(s[0]) + canon(s.skip(1)));
        assert(canon(s.push(e)) =~= canon(s) + enc16(e));
    }
}

/// Sixteen canonical bytes per event.
pub proof fn lemma_canon_len(s: Seq<CompressedStateEvent>)
    ensures
        canon(s).len() == 16 * s.len(),
    decreases s.len(),
{
    if s.len() > 0 {
        lemma_canon_len(s.skip(1));
    }
}

/// Distinct sequences have distinct canonical bytes.
pub proof fn lemma_canon_injective(a: Seq<CompressedStateEvent>, b: Seq<CompressedStateEvent>)
    requires
        canon(a) == canon(b),
    ensures
        a == b,
    decreases a.len(),
{
    lemma_canon_len(a);
    lemma_canon_len(b);
    if a.len() == 0 {
        assert(a =~= b);
    } else {
        assert(canon(a).take(16) =~= enc16(a[0]));
        assert(canon(b).take(16) =~= enc16(b[0]));
        lemma_compress_injective(a[0], b[0]);
        assert(canon(a).skip(16) =~= canon(a.skip(1)));
        assert(canon(b).skip(16) =~= canon(b.skip(1)));
        lemma_canon_injective(a.skip(1), b.skip(1));
        assert forall|i: int| 0 <= i < a.len() implies a[i] == b[i] by {
            if i > 0 {
                assert(a.skip(1)[i - 1] == a[i]);
                assert(b.skip(1)[i - 1] == b[i]);
            }
        }
        assert(a =~= b);
    }
}

/// A strictly sorted sequence is determined by its set of elements.
pub proof fn lemma_sorted_unique(a: Seq<CompressedStateEvent>, b: Seq<CompressedStateEvent>)
    requires
        strictly_sorted(a),
        strictly_sorted(b),
        a.to_set() == b.to_set(),
    ensures
        a == b,
    decreases a.len(),
{
    if a.len() == 0 {
        if b.len() > 0 {
            assert(b.to_set().contains(b[0]));
            assert(a.to_set().contains(b[0]));
        }
        assert(a =~= b);
    } else {
        assert(a.to_set().contains(a[0]));
        assert(b.to_set().contains(a[0]));
        assert(b.len() > 0);
        assert(b.to_set().contains(b[0]));
        assert(a.to_set().contains(b[0]));
        let ia = choose|i: int| 0 <= i < a.len() && #[trigger] a[i] == b[0];
        let ib = choose|i: int| 0 <= i < b.len() && #[trigger] b[i] == a[0];
        if ia > 0 {
            assert(event_lt(a[0], a[ia]));
        }
        if ib > 0 {
            assert(event_lt(b[0], b[ib]));
        }
        assert(a[0] == b[0]);
        assert forall|y: CompressedStateEvent|
            a.skip(1).to_set().contains(y) <==> b.skip(1).to_set().contains(y) by {
            if a.skip(1).contains(y) {
                let i = choose|i: int| 0 <= i < a.len() - 1 && #[trigger] a.skip(1)[i] == y;
                assert(a[i + 1] == y);
                assert(event_lt(a[0], y));
                assert(b.to_set().contains(y));
                let j = choose|j: int| 0 <= j < b.len() && #[trigger] b[j] == y;
                assert(j != 0);
                assert(b.skip(1)[j - 1] == y);
            }
            if b.skip(1).contains(y) {
                let i = choose|i: int| 0 <= i < b.len() - 1 && #[trigger] b.skip(1)[i] == y;
                assert(b[i + 1] == y);
                assert(event_lt(b[0], y));
                assert(a.to_set().contains(y));
                let j = choose|j: int| 0 <= j < a.len() && #[trigger] a[j] == y;
                assert(j != 0);
                assert(a.skip(1)[j - 1] == y);
            }
        }
        assert(a.skip(1).to_set() =~= b.skip(1).to_set());
        assert(strictly_sorted(a.skip(1))) by {
            assert forall|i: int, j: int| 0 <= i < j < a.len() - 1 implies event_lt(
                a.skip(1)[i],
                a.skip(1)[j],
            ) by {
                assert(a[i + 1] == a.skip(1)[i]);
                assert(a[j + 1] == a.skip(1)[j]);
            }
        }
        assert(strictly_sorted(b.skip(1))) by {
            assert forall|i: int, j: int| 0 <= i < j < b.len() - 1 implies event_lt(
                b.skip(1)[i],
                b.skip(1)[j],
            ) by {
                assert(b[i + 1] == b.skip(1)[i]);
                assert(b[j + 1] == b.skip(1)[j]);
            }
        }
        lemma_sorted_unique(a.skip(1), b.skip(1));
        assert forall|i: int| 0 <= i < a.len() implies a[i] == b[i] by {
            if i > 0 {
                assert(a.skip(1)[i - 1] == a[i]);
                assert(b.skip(1)[i - 1] == b[i]);
            }
        }
        assert(a =~= b);
    }
}

/// Equal canonical keys come only from equal sets.
pub proof fn lemma_canon_of_set_injective(
    s1: Set<CompressedStateEvent>,
    s2: Set<CompressedStateEvent>,
)
    requires
        has_sorted_rep(s1),
        has_sorted_rep(s2),
        canon_of_set(s1) == canon_of_set(s2),
    ensures
        s1 == s2,
{
    let q1 = choose|q: Seq<CompressedStateEvent>| strictly_sorted(q) && q.to_set() == s1;
    let q2 = choose|q: Seq<CompressedStateEvent>| strictly_sorted(q) && q.to_set() == s2;
    assert(strictly_sorted(q1) && q1.to_set() == s1);
    assert(strictly_sorted(q2) && q2.to_set() == s2);
    lemma_canon_of_rep(q1);
    lemma_canon_of_rep(q2);
    lemma_canon_injective(q1, q2);
}

/// The canonical key computed from any strictly sorted witness is the set's.
pub proof fn lemma_canon_of_rep(q: Seq<CompressedStateEvent>)
    requires
        strictly_sorted(q),
    ensures
        has_sorted_rep(q.to_set()),
        canon_of_set(q.to_set()) == canon(q),
{
    assert(strictly_sorted(q) && q.to_set() == q.to_set());
    let qc = choose|qq: Seq<CompressedStateEvent>|
        strictly_sorted(qq) && qq.to_set() == q.to_set();
    lemma_sorted_unique(q, qc);
}

/// Whether `a` comes strictly before `b` in canonical order.
fn event_before(a: &CompressedStateEvent, b: &CompressedStateEvent) -> (r: bool)
    ensures
        r == event_lt(*a, *b),
{
    a.short_state_key < b.short_state_key || (a.short_state_key == b.short_state_key
        && a.short_event_id < b.short_event_id)
}

/// Whether position `p` of `v` comes strictly before `x` in canonical order.
fn comes_before(v: &Vec<CompressedStateEvent>, p: usize, x: &CompressedStateEvent) -> (r: bool)
    requires
        p < v@.len(),
    ensures
        r == event_lt(v@[p as int], *x),
{
    event_before(&v[p], x)
}

/// The events of a set in strictly ascending order, duplicates dropped.
pub fn sort_events(s: &StateSet) -> (r: Vec<CompressedStateEvent>)
    ensures
        strictly_sorted(r@),
        r@.to_set() == s@,
{
    let n = s.len();
    let mut out: Vec<CompressedStateEvent> = Vec::new();
    let mut i: usize = 0;
    while i < n
        invariant
            n == s.elems@.len(),
            i <= n,
            strictly_sorted(out@),
            out@.to_set() == s.elems@.take(i as int).to_set(),
            out@.len() <= i,
        decreases n - i,
    {
        let x = s.get(i);
        proof {
            crate::sets::lemma_take_step(s.elems@, i as int);
        }
        let m = out.len();
        let mut p: usize = 0;
        while p < m && comes_before(&out, p, &x)
            invariant
                m == out@.len(),
                p <= m,
                forall|q: int| 0 <= q < p ==> event_lt(out@[q], x),
            decreases m - p,
        {
            p += 1;
        }
        proof {
            if p < out@.len() {
                assert(!event_lt(out@[p as int], x));
            }
        }
        if p < out.len() && out[p].short_state_key == x.short_state_key
            && out[p].short_event_id == x.short_event_id {
            proof {
                assert(out@[p as int] == x);
                assert(out@.contains(x));
                assert(out@.to_set().contains(x));
                assert(out@.to_set() =~= s.elems@.take(i + 1).to_set());
            }
        } else {
            proof {
                if p < out@.len() {
                    assert(out@[p as int] != x);
                    assert(event_lt(x, out@[p as int]));
                }
            }
            let ghost before = out@;
            out.insert(p, x);
            proof {
                before.insert_ensures(p as int, x);
                assert forall|i2: int, j2: int| 0 <= i2 < j2 < out@.len() implies event_lt(
                    out@[i2],
                    out@[j2],
                ) by {
                    if i2 < p && j2 < p {
                    } else if i2 == p && j2 > p {
                        assert(out@[j2] == before[j2 - 1]);
                        if j2 - 1 > p {
                            assert(event_lt(before[p as int], before[j2 - 1]));
                        }
                    } else if j2 == p {
                        assert(out@[i2] == before[i2]);
                    } else if i2 < p && j2 > p {
                        assert(out@[i2] == before[i2]);
                        assert(out@[j2] == before[j2 - 1]);
                        if j2 - 1 > p {
                            assert(event_lt(before[p as int], before[j2 - 1]));
                        } else {
                            assert(j2 - 1 == p);
                        }
                    } else {
                        assert(out@[i2] == before[i2 - 1]);
                        assert(out@[j2] == before[j2 - 1]);
                    }
                }
                assert forall|y: CompressedStateEvent|
                    out@.to_set().contains(y) <==> (before.to_set().contains(y) || y == x) by {
                    if out@.contains(y) {
                        let k = choose|k: int| 0 <= k < out@.len() && #[trigger] out@[k] == y;
                        if k < p {
                            assert(before[k] == y);
                        } else if k > p {
                            assert(before[k - 1] == y);
                        }
                    }
                    if before.contains(y) {
                        let k = choose|k: int| 0 <= k < before.len() && #[trigger] before[k] == y;
                        if k < p {
                            assert(out@[k] == y);
                        } else {
                            assert(out@[k + 1] == y);
                        }
                    }
                    if y == x {
                        assert(out@[p as int] == y);
                    }
                }
                assert(out@.to_set() =~= s.elems@.take(i + 1).to_set());
            }
        }
        i += 1;
    }
    proof {
        assert(s.elems@.take(n as int) =~= s.elems@);
    }
    out
}

/// The canonical byte key of a state set, as stored in the short-ID registry.
pub fn state_hash_key(s: &StateSet) -> (r: Vec<u8>)
    ensures
        has_sorted_rep(s@),
        r@ == canon_of_set(s@),
{
    let sorted = sort_events(s);
    let n = sorted.len();
    let mut out: Vec<u8> = Vec::new();
    let mut i: usize = 0;
    while i < n
        invariant
            n == sorted@.len(),
            i <= n,
            out@ == canon(sorted@.take(i as int)),
        decreases n - i,
    {
        let bytes = compress(sorted[i]);
        let mut k: usize = 0;
        while k < 16
            invariant
                k <= 16,
                bytes@.len() == 16,
                out@ == canon(sorted@.take(i as int)) + bytes@.take(k as int),
                i < n,
                n == sorted@.len(),
                bytes@ == enc16(sorted@[i as int]),
            decreases 16 - k,
        {
            out.push(bytes[k]);
            proof {
                assert(bytes@.take(k + 1) =~= bytes@.take(k as int).push(bytes@[k as int]));
                assert(out@ =~= canon(sorted@.take(i as int)) + bytes@.take(k + 1));
            }
            k += 1;
        }
        proof {
            assert(bytes@.take(16) =~= bytes@);
            assert(sorted@.take(i + 1) =~= sorted@.take(i as int).push(sorted@[i as int]));
            lemma_canon_push(sorted@.take(i as int), sorted@[i as int]);
        }
        i += 1;
    }
    proof {
        assert(sorted@.take(n as int) =~= sorted@);
        lemma_canon_of_rep(sorted@);
    }
    out
}

} // verus!
