//! Laws that relate the operations to one another.

use vstd::prelude::*;
use crate::cycles::{
    covered, is_decomposition, on_cycle, starts_at_least_uncovered, total_len, traces_cycle,
};
use crate::mapping::{
    composed, has_preimage, is_cycle_length, iterate,
    lemma_meeting_steps_close_a_round, lemma_walk_into_cycle_began_on_it,
};
use crate::permutation::Permutation;

verus! {

/// A permutation sends the labels `1, .., N` onto the labels `1, .., N`,
/// one to one: every image is a label, no two labels share an image, and
/// every label is the image of some label.
pub proof fn lemma_labels_map_one_to_one<const N: usize>(p: Permutation<N>)
    requires
        p.wf(),
    ensures
        forall|k: int| 1 <= k <= N ==> 1 <= #[trigger] p.image(k) <= N,
        forall|k1: int, k2: int|
            1 <= k1 <= N && 1 <= k2 <= N && #[trigger] p.image(k1) == #[trigger] p.image(k2)
                ==> k1 == k2,
        forall|v: int| 1 <= v <= N ==> p.is_image(v),
{
    assert forall|k: int| 1 <= k <= N implies 1 <= #[trigger] p.image(k) <= N by {
        assert(0 <= p@[k - 1] < N);
    }
    assert forall|k1: int, k2: int|
        1 <= k1 <= N && 1 <= k2 <= N && #[trigger] p.image(k1) == #[trigger] p.image(
            k2,
        ) implies k1 == k2 by {
        assert(p@[k1 - 1] == p@[k2 - 1]);
    }
    assert forall|v: int| 1 <= v <= N implies p.is_image(v) by {
        assert(has_preimage(p@, v - 1));
        let i = choose|i: int| 0 <= i < N && #[trigger] p@[i] == v - 1;
        assert(p.image(i + 1) == v);
    }
}

/// Composition is associative: composing `a` with `b` and the result with
/// `c` gives the mapping that composing `a` with the composition of `b`
/// and `c` gives.
pub proof fn lemma_compose_associative<const N: usize>(
    a: Permutation<N>,
    b: Permutation<N>,
    c: Permutation<N>,
)
    requires
        a.wf(),
        b.wf(),
        c.wf(),
    ensures
        composed(composed(a@, b@), c@) == composed(a@, composed(b@, c@)),
{
    assert forall|i: int| 0 <= i < N implies composed(composed(a@, b@), c@)[i] == composed(
        a@,
        composed(b@, c@),
    )[i] by {
        assert(0 <= c@[i] < N);
    }
    assert(composed(composed(a@, b@), c@) =~= composed(a@, composed(b@, c@)));
}

/// A start has at most one cycle length.
pub proof fn lemma_cycle_length_unique(m: Seq<u32>, start: int, len1: nat, len2: nat)
    requires
        is_cycle_length(m, start, len1),
        is_cycle_length(m, start, len2),
    ensures
        len1 == len2,
{
    if len1 < len2 {
        assert(iterate(m, len1, start) == start);
    } else if len2 < len1 {
        assert(iterate(m, len2, start) == start);
    }
}

/// The first cycle of a decomposition is the cycle through label `1`, and
/// its length is the cycle length of index `0`.
pub proof fn lemma_first_cycle_is_reference_cycle<const N: usize>(
    p: Permutation<N>,
    cycles: Seq<Seq<u32>>,
    len: nat,
)
    requires
        p.wf(),
        is_decomposition(p@, cycles),
        is_cycle_length(p@, 0, len),
    ensures
        cycles.len() >= 1,
        cycles[0][0] == 1,
        cycles[0].len() == len,
        1 <= len <= N,
{
    assert(covered(cycles, 1));
    assert(traces_cycle(p@, cycles[0]));
    assert(starts_at_least_uncovered(cycles, 0));
    if cycles[0][0] > 1 {
        assert(covered(cycles.take(0), 1));
        assert(false);
    }
    lemma_cycle_length_unique(p@, 0, len, cycles[0].len());
    lemma_cycle_fits(cycles, 0);
}

/// No cycle of a list is longer than the list's total.
pub proof fn lemma_cycle_fits(cycles: Seq<Seq<u32>>, c: int)
    requires
        0 <= c < cycles.len(),
    ensures
        cycles[c].len() <= total_len(cycles),
    decreases cycles.len(),
{
    if c < cycles.len() - 1 {
        lemma_cycle_fits(cycles.drop_last(), c);
    }
}

/// The lengths of the cycles of a decomposition add up to `N`, and every
/// label stands on one of the cycles.
pub proof fn lemma_cycle_lengths_sum_to_size<const N: usize>(
    p: Permutation<N>,
    cycles: Seq<Seq<u32>>,
    label: int,
)
    requires
        p.wf(),
        is_decomposition(p@, cycles),
        1 <= label <= N,
    ensures
        total_len(cycles) == N,
        exists|c: int| 0 <= c < cycles.len() && on_cycle(#[trigger] cycles[c], label),
{
    assert(covered(cycles, label));
}

/// In a decomposition no label stands at two places: two places that
/// hold the same label are the same cycle and the same position on it.
pub proof fn lemma_each_label_once<const N: usize>(
    p: Permutation<N>,
    cycles: Seq<Seq<u32>>,
    c1: int,
    j1: int,
    c2: int,
    j2: int,
)
    requires
        p.wf(),
        is_decomposition(p@, cycles),
        0 <= c1 < cycles.len(),
        0 <= j1 < cycles[c1].len(),
        0 <= c2 < cycles.len(),
        0 <= j2 < cycles[c2].len(),
        cycles[c1][j1] == cycles[c2][j2],
    ensures
        c1 == c2,
        j1 == j2,
{
    let m = p@;
    assert(traces_cycle(m, cycles[c1]));
    assert(traces_cycle(m, cycles[c2]));
    let s1 = cycles[c1][0] - 1;
    let s2 = cycles[c2][0] - 1;
    if c1 == c2 {
        if j1 != j2 {
            let (a, b) = if j1 < j2 {
                (j1 as nat, j2 as nat)
            } else {
                (j2 as nat, j1 as nat)
            };
            lemma_meeting_steps_close_a_round(m, s1, a, b);
            assert(iterate(m, (b - a) as nat, s1) == s1);
            assert(false);
        }
    } else {
        // The later of the two cycles would start on the earlier one.
        let (e, je, l, jl) = if c1 < c2 {
            (c1, j1, c2, j2)
        } else {
            (c2, j2, c1, j1)
        };
        let se = cycles[e][0] - 1;
        let sl = cycles[l][0] - 1;
        let origin = lemma_walk_into_cycle_began_on_it(
            m,
            se,
            cycles[e].len(),
            je as nat,
            sl,
            jl as nat,
        );
        assert(cycles[e][origin as int] == sl + 1);
        assert(on_cycle(cycles[e], sl + 1));
        assert(cycles.take(l)[e] == cycles[e]);
        assert(covered(cycles.take(l), sl + 1));
        assert(starts_at_least_uncovered(cycles, l));
        assert(false);
    }
}

} // verus!
