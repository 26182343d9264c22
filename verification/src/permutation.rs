//! The permutation type and its operations.

use vstd::prelude::*;
use vstd::arithmetic::div_mod::{lemma_mod_self_0, lemma_small_mod};
use crate::cycles::{
    covered, is_decomposition, lemma_covered_push, lemma_decomposition_unique,
    lemma_total_len_push, starts_at_least_uncovered, total_len, traces_cycle, views,
};
use crate::mapping::{
    composed, has_preimage, is_bijection, is_cycle_length, is_label_bijection, iterate,
    lemma_composed_is_bijection,
};
use crate::notation::{notation, notation_text};
use crate::taken::{
    count_unmarked, lemma_count_all_marked, lemma_count_none_marked, lemma_mark_lowers_count,
    Taken,
};

verus! {

/// A bijection on `N` elements, stored as the image of each index.
pub struct Permutation<const N: usize> {
    map: Box<[u32; N]>,
}

impl<const N: usize> View for Permutation<N> {
    type V = Seq<u32>;

    /// The stored mapping: `self@[i]` is the image of index `i`.
    closed spec fn view(&self) -> Seq<u32> {
        self.map@
    }
}

impl<const N: usize> Permutation<N> {
    /// The mapping has `N` entries, `N` labels fit in a `u32`, and the
    /// mapping is a bijection on its indices.
    pub open spec fn wf(&self) -> bool {
        &&& self@.len() == N
        &&& 1 <= N <= u32::MAX
        &&& is_bijection(self@)
    }

    /// The label that `label` is sent to.
    pub open spec fn image(&self, label: int) -> int {
        self@[label - 1] + 1
    }

    /// Some label is sent to `label`.
    pub open spec fn is_image(&self, label: int) -> bool {
        exists|k: int| 1 <= k <= N && #[trigger] self.image(k) == label
    }

    /// The permutation that sends label `i + 1` to `map[i]`. The labels are
    /// not validated: the caller supplies each of `1, .., N` exactly once.
    pub fn new(map: [u32; N]) -> (result: Self)
        requires
            1 <= N <= u32::MAX,
            is_label_bijection(map@),
        ensures
            result.wf(),
            forall|i: int| 0 <= i < N ==> #[trigger] result@[i] == map@[i] - 1,
            forall|k: int| 1 <= k <= N ==> #[trigger] result.image(k) == map@[k - 1],
    {
        let mut inner = Box::new(map);
        let mut index: usize = 0;
        while index < N
            invariant
                index <= N,
                inner@.len() == N,
                map@.len() == N,
                is_label_bijection(map@),
                forall|i: int| 0 <= i < index ==> #[trigger] inner@[i] == map@[i] - 1,
                forall|i: int| index <= i < N ==> #[trigger] inner@[i] == map@[i],
            decreases N - index,
        {
            inner[index] = inner[index] - 1;
            index += 1;
        }
        let result = Self { map: inner };
        proof {
            assert forall|v: int| 0 <= v < N implies has_preimage(result@, v) by {
                assert(has_preimage(map@, v + 1));
                let i = choose|i: int| 0 <= i < N && #[trigger] map@[i] == v + 1;
                assert(result@[i] == v);
            }
        }
        result
    }

    /// The permutation that leaves every label where it is.
    pub fn identity() -> (result: Self)
        requires
            1 <= N <= u32::MAX,
        ensures
            result.wf(),
            forall|i: int| 0 <= i < N ==> #[trigger] result@[i] == i,
            forall|k: int| 1 <= k <= N ==> #[trigger] result.image(k) == k,
    {
        let mut inner = Box::new([0u32; N]);
        let mut index: usize = 0;
        while index < N
            invariant
                index <= N <= u32::MAX,
                inner@.len() == N,
                forall|i: int| 0 <= i < index ==> #[trigger] inner@[i] == i,
            decreases N - index,
        {
            inner[index] = index as u32;
            index += 1;
        }
        let result = Self { map: inner };
        proof {
            assert forall|v: int| 0 <= v < N implies has_preimage(result@, v) by {
                assert(result@[v] == v);
            }
        }
        result
    }

    /// The permutation that shifts every label up by one and sends the
    /// last label to the first.
    pub fn rotation() -> (result: Self)
        requires
            1 <= N <= u32::MAX,
        ensures
            result.wf(),
            forall|i: int| 0 <= i < N ==> #[trigger] result@[i] == (i + 1) % (N as int),
            forall|k: int| 1 <= k <= N ==> #[trigger] result.image(k) == k % (N as int) + 1,
    {
        let mut inner = Box::new([0u32; N]);
        let mut index: usize = 0;
        while index < N
            invariant
                index <= N <= u32::MAX,
                inner@.len() == N,
                forall|i: int| 0 <= i < index ==> #[trigger] inner@[i] == (i + 1) % (N as int),
            decreases N - index,
        {
            let value: usize = (index + 1) % N;
            inner[index] = value as u32;
            index += 1;
        }
        let result = Self { map: inner };
        proof {
            assert forall|i: int| 0 <= i < N implies #[trigger] result@[i] == (if i + 1 == N {
                0
            } else {
                i + 1
            }) by {
                if i + 1 == N {
                    lemma_mod_self_0(N as int);
                } else {
                    lemma_small_mod((i + 1) as nat, N as nat);
                }
            }
            assert forall|v: int| 0 <= v < N implies has_preimage(result@, v) by {
                let i = if v == 0 {
                    N - 1
                } else {
                    v - 1
                };
                assert(result@[i] == v);
            }
        }
        result
    }

    /// Sends one label through the permutation.
    pub fn apply(&self, n: u32) -> (result: u32)
        requires
            self.wf(),
            1 <= n <= N,
        ensures
            result == self.image(n as int),
            1 <= result <= N,
    {
        self.map[(n - 1) as usize] + 1
    }

    /// The permutation "first `other`, then `self`".
    pub fn compose(&self, other: &Self) -> (result: Self)
        requires
            self.wf(),
            other.wf(),
        ensures
            result.wf(),
            result@ == composed(self@, other@),
            forall|k: int|
                1 <= k <= N ==> #[trigger] result.image(k) == self.image(other.image(k)),
    {
        let mut inner = Box::new([0u32; N]);
        let mut index: usize = 0;
        while index < N
            invariant
                index <= N,
                inner@.len() == N,
                self.wf(),
                other.wf(),
                forall|i: int| 0 <= i < index ==> #[trigger] inner@[i] == self@[other@[i] as int],
            decreases N - index,
        {
            let through: u32 = other.map[index];
            inner[index] = self.map[through as usize];
            index += 1;
        }
        let result = Self { map: inner };
        proof {
            assert(result@ =~= composed(self@, other@));
            lemma_composed_is_bijection(self@, other@);
        }
        result
    }

    /// The length of the cycle through the first label: the number of
    /// steps after which following the mapping from index `0` first comes
    /// back to index `0`.
    pub fn first_cycle_length(&self) -> (result: u32)
        requires
            self.wf(),
        ensures
            1 <= result <= N,
            is_cycle_length(self@, 0, result as nat),
    {
        let mut next: u32 = self.map[0];
        let mut count: u32 = 0;
        // rank[i] is the step at which index i was reached, or -1.
        let ghost mut rank: Seq<int> = Seq::new(N as nat, |i: int| -1int).update(0, 0);
        let ghost mut seen: Seq<bool> = Seq::new(N as nat, |i: int| false).update(0, true);
        proof {
            let fresh = Seq::new(N as nat, |i: int| false);
            lemma_count_none_marked(fresh);
            lemma_mark_lowers_count(fresh, 0);
            assert(iterate(self@, 0, 0) == 0);
            assert(iterate(self@, 1, 0) == self@[iterate(self@, 0, 0)]);
        }
        while next != 0
            invariant
                self.wf(),
                next < N,
                next == iterate(self@, (count + 1) as nat, 0),
                rank.len() == N,
                seen.len() == N,
                count_unmarked(seen) + count + 1 == N,
                forall|i: int| 0 <= i < N ==> (#[trigger] seen[i] <==> rank[i] >= 0),
                forall|i: int|
                    0 <= i < N && #[trigger] rank[i] >= 0 ==> rank[i] <= count && iterate(
                        self@,
                        rank[i] as nat,
                        0,
                    ) == i,
                forall|j: nat|
                    j <= count ==> 0 <= #[trigger] iterate(self@, j, 0) < N && rank[iterate(
                        self@,
                        j,
                        0,
                    )] == j,
            decreases count_unmarked(seen),
        {
            proof {
                let k = (count + 1) as nat;
                assert(iterate(self@, count as nat, 0) == iterate(self@, (k - 1) as nat, 0));
                if rank[next as int] >= 0 {
                    let j = rank[next as int] as nat;
                    // Two steps with one image are the same step.
                    let before = iterate(self@, (j - 1) as nat, 0);
                    let last = iterate(self@, count as nat, 0);
                    assert(self@[before] == self@[last]);
                    assert(false);
                }
                lemma_mark_lowers_count(seen, next as int);
                rank = rank.update(next as int, k as int);
                seen = seen.update(next as int, true);
            }
            count += 1;
            next = self.map[next as usize];
        }
        proof {
            let len = (count + 1) as nat;
            assert forall|j: nat| 0 < j < len implies #[trigger] iterate(self@, j, 0) != 0 by {
                assert(rank[iterate(self@, j, 0)] == j);
                assert(rank[iterate(self@, 0, 0)] == 0);
            }
        }
        count + 1
    }

    /// The cycle decomposition, in labels: the first cycle starts at
    /// label `1`, each later one at the smallest label not yet met, and
    /// each runs in the order in which the mapping visits its labels.
    pub fn cycles(&self) -> (result: Vec<Vec<u32>>)
        requires
            self.wf(),
        ensures
            is_decomposition(self@, views(result@)),
    {
        let mut taken = Taken::new(N);
        let mut next: u32 = 0;
        taken.take(0);
        let mut all: Vec<Vec<u32>> = Vec::new();
        // The indices on the cycles found so far.
        let ghost mut done: Seq<bool> = Seq::new(N as nat, |i: int| false);
        proof {
            lemma_count_none_marked(done);
            lemma_mark_lowers_count(done, 0);
            assert(taken@ =~= done.update(0, true));
            assert(views(all@) =~= Seq::empty());
        }
        loop
            invariant_except_break
                next < N,
                !done[next as int],
                taken@ == done.update(next as int, true),
                forall|i: int| 0 <= i < next ==> done[i],
                total_len(views(all@)) + 1 + count_unmarked(taken@) == N,
            invariant
                self.wf(),
                taken.wf(),
                taken@.len() == N,
                done.len() == N,
                forall|x: int| 0 <= x < N && #[trigger] done[self@[x] as int] ==> done[x],
                forall|label: int|
                    1 <= label <= N && done[label - 1] ==> #[trigger] covered(views(all@), label),
                forall|label: int| #[trigger]
                    covered(views(all@), label) ==> 1 <= label <= N && done[label - 1],
                forall|c: int|
                    0 <= c < all@.len() ==> traces_cycle(self@, #[trigger] views(all@)[c]),
                forall|c: int|
                    0 <= c < all@.len() ==> #[trigger] starts_at_least_uncovered(views(all@), c),
            ensures
                forall|i: int| 0 <= i < N ==> done[i],
                total_len(views(all@)) == N,
            decreases count_unmarked(taken@),
        {
            let mut cycle: Vec<u32> = Vec::new();
            let ghost start: int = next as int;
            // rank[i] is the place of index i on the current cycle, or -1.
            let ghost mut rank: Seq<int> = Seq::new(N as nat, |i: int| -1int).update(start, 0);
            proof {
                assert(iterate(self@, 0, start) == start);
            }
            loop
                invariant_except_break
                    next == iterate(self@, cycle@.len(), start),
                    total_len(views(all@)) + cycle@.len() + 1 + count_unmarked(taken@) == N,
                    forall|i: int| 0 <= i < N && #[trigger] rank[i] >= 0 ==> rank[i] <= cycle@.len(),
                    forall|j: nat|
                        j <= cycle@.len() ==> 0 <= #[trigger] iterate(self@, j, start) < N
                            && rank[iterate(self@, j, start)] == j,
                invariant
                    self.wf(),
                    taken.wf(),
                    taken@.len() == N,
                    done.len() == N,
                    rank.len() == N,
                    0 <= start < N,
                    next < N,
                    !done[start],
                    forall|x: int| 0 <= x < N && #[trigger] done[self@[x] as int] ==> done[x],
                    forall|i: int| 0 <= i < N ==> (#[trigger] taken@[i] <==> done[i] || rank[i] >= 0),
                    forall|i: int|
                        0 <= i < N && #[trigger] rank[i] >= 0 ==> !done[i] && iterate(
                            self@,
                            rank[i] as nat,
                            start,
                        ) == i,
                    forall|j: int|
                        0 <= j < cycle@.len() ==> #[trigger] cycle@[j] == iterate(
                            self@,
                            j as nat,
                            start,
                        ) + 1,
                ensures
                    cycle@.len() >= 1,
                    iterate(self@, cycle@.len(), start) == start,
                    total_len(views(all@)) + cycle@.len() + count_unmarked(taken@) == N,
                    forall|i: int| 0 <= i < N && #[trigger] rank[i] >= 0 ==> rank[i] < cycle@.len(),
                    forall|j: nat|
                        j < cycle@.len() ==> 0 <= #[trigger] iterate(self@, j, start) < N
                            && rank[iterate(self@, j, start)] == j,
                decreases count_unmarked(taken@),
            {
                let ghost at: int = next as int;
                let ghost k: nat = cycle@.len();
                cycle.push(next + 1);
                next = self.map[next as usize];
                proof {
                    assert(iterate(self@, k, start) == at);
                    assert(next == iterate(self@, k + 1, start));
                }
                if taken.is_taken(next) {
                    proof {
                        // The only marked index that the mapping can lead to
                        // is the one where the cycle began.
                        assert(rank[at] == k);
                        assert(!done[self@[at] as int]);
                        let j = rank[next as int];
                        if j >= 1 {
                            let before = iterate(self@, (j - 1) as nat, start);
                            assert(self@[before] == self@[at]);
                            assert(false);
                        }
                        assert(next == start);
                    }
                    break ;
                }
                proof {
                    lemma_mark_lowers_count(taken@, next as int);
                    rank = rank.update(next as int, (k + 1) as int);
                }
                taken.take(next);
            }
            proof {
                let len = cycle@.len();
                let found = views(all@);
                assert(cycle@[0] == start + 1);
                assert forall|j: nat| 0 < j < len implies #[trigger] iterate(self@, j, start)
                    != start by {
                    assert(rank[iterate(self@, j, start)] == j);
                    assert(rank[iterate(self@, 0, start)] == 0);
                }
                assert(traces_cycle(self@, cycle@));
                // What is marked is closed under stepping backwards.
                assert forall|x: int| 0 <= x < N && #[trigger] taken@[self@[x] as int] implies taken@[x] by {
                    let y = self@[x] as int;
                    if !done[y] {
                        let j = rank[y];
                        let from = if j >= 1 {
                            (j - 1) as nat
                        } else {
                            (len - 1) as nat
                        };
                        let before = iterate(self@, from, start);
                        assert(iterate(self@, from + 1, start) == self@[before]);
                        assert(self@[before] == self@[x]);
                        assert(rank[before] == from);
                    }
                }
                assert forall|label: int| 1 <= label <= N && taken@[label - 1] implies #[trigger]
                    covered(found.push(cycle@), label) by {
                    lemma_covered_push(found, cycle@, label);
                    if !done[label - 1] {
                        assert(cycle@[rank[label - 1]] == label);
                    }
                }
                assert forall|label: int| #[trigger]
                    covered(found.push(cycle@), label) implies 1 <= label <= N && taken@[label
                    - 1] by {
                    lemma_covered_push(found, cycle@, label);
                    if !covered(found, label) {
                        let j = choose|j: int| 0 <= j < len && #[trigger] cycle@[j] == label;
                        assert(rank[iterate(self@, j as nat, start)] == j);
                    }
                }
                assert(found.push(cycle@).take(found.len() as int) =~= found);
                assert(!covered(found, start + 1));
                assert forall|label: int| 1 <= label < start + 1 implies covered(found, label) by {
                    assert(done[label - 1]);
                }
                assert(starts_at_least_uncovered(found.push(cycle@), found.len() as int));
                assert forall|c: int| 0 <= c < found.len() implies #[trigger]
                    starts_at_least_uncovered(found.push(cycle@), c) by {
                    assert(starts_at_least_uncovered(found, c));
                    assert(found.push(cycle@).take(c) =~= found.take(c));
                }
                assert forall|c: int| 0 <= c < found.len() + 1 implies traces_cycle(
                    self@,
                    #[trigger] found.push(cycle@)[c],
                ) by {
                    if c < found.len() {
                        assert(traces_cycle(self@, found[c]));
                    }
                }
                lemma_total_len_push(found, cycle@);
                assert(views(all@.push(cycle)) =~= found.push(cycle@));
                done = taken@;
            }
            all.push(cycle);
            match taken.next() {
                Some(next_cycle) => {
                    proof {
                        lemma_mark_lowers_count(taken@, next_cycle as int);
                    }
                    next = next_cycle;
                    taken.take(next_cycle);
                },
                None => {
                    proof {
                        lemma_count_all_marked(taken@);
                    }
                    break ;
                },
            }
        }
        proof {
            assert forall|label: int| 1 <= label <= N implies covered(views(all@), label) by {
                assert(done[label - 1]);
            }
        }
        all
    }

    /// The permutation in cycle notation.
    pub fn cycle_notation(&self) -> (result: String)
        requires
            self.wf(),
        ensures
            exists|cycles: Seq<Seq<u32>>| #[trigger] is_decomposition(self@, cycles),
            forall|cycles: Seq<Seq<u32>>| #[trigger]
                is_decomposition(self@, cycles) ==> result@ == notation(cycles),
    {
        let cycles = self.cycles();
        proof {
            assert forall|other: Seq<Seq<u32>>| #[trigger]
                is_decomposition(self@, other) implies other == views(cycles@) by {
                lemma_decomposition_unique(self@, other, views(cycles@));
            }
        }
        notation_text(&cycles)
    }
}

} // verus!
