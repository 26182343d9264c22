//! What it means for a list of cycles to be the cycle decomposition of a
//! mapping. Cycles hold labels, which are indices plus one.

use vstd::prelude::*;
use crate::mapping::{is_cycle_length, iterate};

verus! {

/// The cycles as sequences of labels.
pub open spec fn views(cycles: Seq<Vec<u32>>) -> Seq<Seq<u32>> {
    Seq::new(cycles.len(), |c: int| cycles[c]@)
}

/// The number of labels on all the cycles together.
pub open spec fn total_len(cycles: Seq<Seq<u32>>) -> nat
    decreases cycles.len(),
{
    if cycles.len() == 0 {
        0
    } else {
        total_len(cycles.drop_last()) + cycles.last().len()
    }
}

/// `label` stands somewhere on `cycle`.
pub open spec fn on_cycle(cycle: Seq<u32>, label: int) -> bool {
    exists|j: int| 0 <= j < cycle.len() && #[trigger] cycle[j] == label
}

/// `label` stands on one of `cycles`.
pub open spec fn covered(cycles: Seq<Seq<u32>>, label: int) -> bool {
    exists|c: int| 0 <= c < cycles.len() && on_cycle(#[trigger] cycles[c], label)
}

/// `cycle` lists, from its first label on, the labels met by following `m`
/// until the first label comes round again.
pub open spec fn traces_cycle(m: Seq<u32>, cycle: Seq<u32>) -> bool {
    &&& cycle.len() >= 1
    &&& 1 <= cycle[0] <= m.len()
    &&& forall|j: int|
        0 <= j < cycle.len() ==> #[trigger] cycle[j] == iterate(m, j as nat, cycle[0] - 1) + 1
    &&& is_cycle_length(m, cycle[0] - 1, cycle.len())
}

/// The cycle at position `c` starts at the smallest label that no earlier
/// cycle holds.
pub open spec fn starts_at_least_uncovered(cycles: Seq<Seq<u32>>, c: int) -> bool {
    &&& !covered(cycles.take(c), cycles[c][0] as int)
    &&& forall|label: int| 1 <= label < cycles[c][0] ==> covered(cycles.take(c), label)
}

/// `cycles` is the cycle decomposition of `m`: each entry traces one cycle
/// of `m`, each starts at the smallest label not met before, every label
/// is met, and the cycles hold as many labels as there are.
pub open spec fn is_decomposition(m: Seq<u32>, cycles: Seq<Seq<u32>>) -> bool {
    &&& forall|c: int| 0 <= c < cycles.len() ==> traces_cycle(m, #[trigger] cycles[c])
    &&& forall|c: int| 0 <= c < cycles.len() ==> starts_at_least_uncovered(cycles, c)
    &&& forall|label: int| 1 <= label <= m.len() ==> covered(cycles, label)
    &&& total_len(cycles) == m.len()
}

/// One more cycle adds its length to the total.
pub proof fn lemma_total_len_push(cycles: Seq<Seq<u32>>, cycle: Seq<u32>)
    ensures
        total_len(cycles.push(cycle)) == total_len(cycles) + cycle.len(),
{
    assert(cycles.push(cycle).drop_last() =~= cycles);
}

/// One more cycle covers what was covered and what stands on it.
pub proof fn lemma_covered_push(cycles: Seq<Seq<u32>>, cycle: Seq<u32>, label: int)
    ensures
        covered(cycles.push(cycle), label) <==> covered(cycles, label) || on_cycle(cycle, label),
{
    let more = cycles.push(cycle);
    if covered(cycles, label) {
        let c = choose|c: int| 0 <= c < cycles.len() && on_cycle(#[trigger] cycles[c], label);
        assert(more[c] == cycles[c]);
    }
    if on_cycle(cycle, label) {
        assert(more[cycles.len() as int] == cycle);
    }
    if covered(more, label) {
        let c = choose|c: int| 0 <= c < more.len() && on_cycle(#[trigger] more[c], label);
        if c < cycles.len() {
            assert(more[c] == cycles[c]);
        }
    }
}

/// Two decompositions of one mapping agree on their first `count` cycles.
proof fn lemma_prefixes_agree(m: Seq<u32>, a: Seq<Seq<u32>>, b: Seq<Seq<u32>>, count: nat)
    requires
        is_decomposition(m, a),
        is_decomposition(m, b),
        count <= a.len(),
        count <= b.len(),
    ensures
        a.take(count as int) == b.take(count as int),
    decreases count,
{
    if count == 0 {
        assert(a.take(0) =~= b.take(0));
    } else {
        let c = count - 1;
        lemma_prefixes_agree(m, a, b, c as nat);
        let before = a.take(c);
        assert(before == b.take(c));
        assert(traces_cycle(m, a[c]));
        assert(traces_cycle(m, b[c]));
        assert(starts_at_least_uncovered(a, c));
        assert(starts_at_least_uncovered(b, c));
        // Both start at the smallest label that `before` leaves out.
        if a[c][0] < b[c][0] {
            assert(covered(before, a[c][0] as int));
        }
        if b[c][0] < a[c][0] {
            assert(covered(before, b[c][0] as int));
        }
        let start = a[c][0] - 1;
        if a[c].len() < b[c].len() {
            assert(iterate(m, a[c].len(), start) == start);
        }
        if b[c].len() < a[c].len() {
            assert(iterate(m, b[c].len(), start) == start);
        }
        assert(a[c] =~= b[c]);
        assert forall|i: int| 0 <= i < count implies a.take(count as int)[i] == b.take(
            count as int,
        )[i] by {
            if i < c {
                assert(a[i] == before[i]);
                assert(b[i] == b.take(c)[i]);
            }
        }
        assert(a.take(count as int) =~= b.take(count as int));
    }
}

/// A mapping has at most one decomposition.
pub proof fn lemma_decomposition_unique(m: Seq<u32>, a: Seq<Seq<u32>>, b: Seq<Seq<u32>>)
    requires
        is_decomposition(m, a),
        is_decomposition(m, b),
    ensures
        a == b,
{
    let short = if a.len() <= b.len() {
        a.len()
    } else {
        b.len()
    };
    lemma_prefixes_agree(m, a, b, short);
    assert(a.take(a.len() as int) =~= a);
    assert(b.take(b.len() as int) =~= b);
    if a.len() < b.len() {
        // A further cycle of `b` would start at a label that `a` holds.
        let c = a.len() as int;
        assert(traces_cycle(m, b[c]));
        assert(starts_at_least_uncovered(b, c));
        assert(covered(a, b[c][0] as int));
        assert(false);
    }
    if b.len() < a.len() {
        let c = b.len() as int;
        assert(traces_cycle(m, a[c]));
        assert(starts_at_least_uncovered(a, c));
        assert(covered(b, a[c][0] as int));
        assert(false);
    }
}

} // verus!
