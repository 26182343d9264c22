//! The mathematical model: a permutation is a sequence `m` of length `N`
//! in which every index below `N` occurs exactly once, read as `i -> m[i]`.

use vstd::prelude::*;

verus! {

/// Every entry of `m` is an index of `m`.
pub open spec fn in_range(m: Seq<u32>) -> bool {
    forall|i: int| 0 <= i < m.len() ==> 0 <= #[trigger] m[i] < m.len()
}

/// No two indices of `m` share an image.
pub open spec fn injective(m: Seq<u32>) -> bool {
    forall|i: int, j: int|
        0 <= i < m.len() && 0 <= j < m.len() && #[trigger] m[i] == #[trigger] m[j] ==> i == j
}

/// Every index of `m` is the image of some index.
pub open spec fn surjective(m: Seq<u32>) -> bool {
    forall|v: int| 0 <= v < m.len() ==> has_preimage(m, v)
}

/// Some entry of `m` is `v`.
pub open spec fn has_preimage(m: Seq<u32>, v: int) -> bool {
    exists|i: int| 0 <= i < m.len() && #[trigger] m[i] == v
}

/// `m` maps `{0, .., len - 1}` onto itself, one to one.
pub open spec fn is_bijection(m: Seq<u32>) -> bool {
    &&& in_range(m)
    &&& injective(m)
    &&& surjective(m)
}

/// `labels` lists each of `1, .., len` exactly once.
pub open spec fn is_label_bijection(labels: Seq<u32>) -> bool {
    &&& forall|i: int| 0 <= i < labels.len() ==> 1 <= #[trigger] labels[i] <= labels.len()
    &&& forall|i: int, j: int|
        0 <= i < labels.len() && 0 <= j < labels.len() && #[trigger] labels[i]
            == #[trigger] labels[j] ==> i == j
    &&& forall|v: int| 1 <= v <= labels.len() ==> has_preimage(labels, v)
}

/// The mapping "first `b`, then `a`".
pub open spec fn composed(a: Seq<u32>, b: Seq<u32>) -> Seq<u32> {
    Seq::new(b.len(), |i: int| a[b[i] as int])
}

/// The index reached from `start` after following `m` for `steps` steps.
pub open spec fn iterate(m: Seq<u32>, steps: nat, start: int) -> int
    decreases steps,
{
    if steps == 0 {
        start
    } else {
        m[iterate(m, (steps - 1) as nat, start)] as int
    }
}

/// Following `m` from `start` comes back to `start` after exactly `len`
/// steps, and not before.
pub open spec fn is_cycle_length(m: Seq<u32>, start: int, len: nat) -> bool {
    &&& len >= 1
    &&& iterate(m, len, start) == start
    &&& forall|j: nat| 0 < j < len ==> #[trigger] iterate(m, j, start) != start
}

/// Following a mapping with in-range entries never leaves its index set.
pub proof fn lemma_iterate_in_range(m: Seq<u32>, steps: nat, start: int)
    requires
        in_range(m),
        0 <= start < m.len(),
    ensures
        0 <= iterate(m, steps, start) < m.len(),
    decreases steps,
{
    if steps > 0 {
        lemma_iterate_in_range(m, (steps - 1) as nat, start);
    }
}

/// The composition of two bijections on the same indices is a bijection.
pub proof fn lemma_composed_is_bijection(a: Seq<u32>, b: Seq<u32>)
    requires
        a.len() == b.len(),
        is_bijection(a),
        is_bijection(b),
    ensures
        is_bijection(composed(a, b)),
{
    let ab = composed(a, b);
    assert forall|v: int| 0 <= v < ab.len() implies has_preimage(ab, v) by {
        assert(has_preimage(a, v));
        let j = choose|j: int| 0 <= j < a.len() && #[trigger] a[j] == v;
        assert(has_preimage(b, j));
        let i = choose|i: int| 0 <= i < b.len() && #[trigger] b[i] == j;
        assert(ab[i] == v);
    }
}

/// Two steps of one walk that meet at an index are a whole number of
/// rounds apart: the walk is back at its start after their difference.
pub proof fn lemma_meeting_steps_close_a_round(m: Seq<u32>, start: int, a: nat, b: nat)
    requires
        in_range(m),
        injective(m),
        0 <= start < m.len(),
        a <= b,
        iterate(m, a, start) == iterate(m, b, start),
    ensures
        iterate(m, (b - a) as nat, start) == start,
    decreases a,
{
    if a > 0 {
        lemma_iterate_in_range(m, (a - 1) as nat, start);
        lemma_iterate_in_range(m, (b - 1) as nat, start);
        lemma_meeting_steps_close_a_round(m, start, (a - 1) as nat, (b - 1) as nat);
    }
}

/// A walk that reaches a cycle began on it: if following `m` from `other`
/// leads to a place on the cycle through `start`, then `other` is itself
/// a place on that cycle.
pub proof fn lemma_walk_into_cycle_began_on_it(
    m: Seq<u32>,
    start: int,
    len: nat,
    place: nat,
    other: int,
    steps: nat,
) -> (origin: nat)
    requires
        in_range(m),
        injective(m),
        0 <= start < m.len(),
        0 <= other < m.len(),
        len >= 1,
        iterate(m, len, start) == start,
        place < len,
        iterate(m, steps, other) == iterate(m, place, start),
    ensures
        origin < len,
        other == iterate(m, origin, start),
    decreases steps,
{
    if steps == 0 {
        place
    } else {
        let earlier: nat = if place >= 1 {
            (place - 1) as nat
        } else {
            (len - 1) as nat
        };
        lemma_iterate_in_range(m, (steps - 1) as nat, other);
        lemma_iterate_in_range(m, earlier, start);
        assert(iterate(m, earlier + 1, start) == m[iterate(m, earlier, start)]);
        lemma_walk_into_cycle_began_on_it(m, start, len, earlier, other, (steps - 1) as nat)
    }
}

} // verus!
