//! A record of which indices a traversal has already visited.

use vstd::prelude::*;

verus! {

/// The number of entries of `marks` that are not set.
pub open spec fn count_unmarked(marks: Seq<bool>) -> nat
    decreases marks.len(),
{
    if marks.len() == 0 {
        0
    } else {
        count_unmarked(marks.drop_last()) + if marks.last() {
            0nat
        } else {
            1nat
        }
    }
}

/// Setting an entry that was not set lowers the count by one.
pub proof fn lemma_mark_lowers_count(marks: Seq<bool>, index: int)
    requires
        0 <= index < marks.len(),
        !marks[index],
    ensures
        count_unmarked(marks.update(index, true)) + 1 == count_unmarked(marks),
    decreases marks.len(),
{
    let after = marks.update(index, true);
    if index == marks.len() - 1 {
        assert(after.drop_last() =~= marks.drop_last());
    } else {
        lemma_mark_lowers_count(marks.drop_last(), index);
        assert(after.drop_last() =~= marks.drop_last().update(index, true));
    }
}

/// With no entry set, the count is the length.
pub proof fn lemma_count_none_marked(marks: Seq<bool>)
    requires
        forall|i: int| 0 <= i < marks.len() ==> !marks[i],
    ensures
        count_unmarked(marks) == marks.len(),
    decreases marks.len(),
{
    if marks.len() > 0 {
        lemma_count_none_marked(marks.drop_last());
    }
}

/// With every entry set, the count is zero.
pub proof fn lemma_count_all_marked(marks: Seq<bool>)
    requires
        forall|i: int| 0 <= i < marks.len() ==> marks[i],
    ensures
        count_unmarked(marks) == 0,
    decreases marks.len(),
{
    if marks.len() > 0 {
        lemma_count_all_marked(marks.drop_last());
    }
}

/// One flag per index: set once the index has been visited.
pub struct Taken(Vec<bool>);

impl View for Taken {
    type V = Seq<bool>;

    /// The flags, by index.
    closed spec fn view(&self) -> Seq<bool> {
        self.0@
    }
}

impl Taken {
    /// Every index fits in a `u32`.
    pub open spec fn wf(&self) -> bool {
        self@.len() <= u32::MAX
    }

    /// A tracker for `size` indices, none of them marked.
    pub fn new(size: usize) -> (result: Self)
        requires
            size <= u32::MAX,
        ensures
            result.wf(),
            result@.len() == size,
            forall|i: int| 0 <= i < size ==> !result@[i],
    {
        Taken(vec![false; size])
    }

    /// Marks one index; marking it again changes nothing.
    pub fn take(&mut self, value: u32)
        requires
            old(self).wf(),
            value < old(self)@.len(),
        ensures
            final(self).wf(),
            final(self)@ == old(self)@.update(value as int, true),
    {
        self.0[value as usize] = true;
    }

    /// Whether the index has been marked.
    pub fn is_taken(&self, value: u32) -> (result: bool)
        requires
            value < self@.len(),
        ensures
            result == self@[value as int],
    {
        self.0[value as usize]
    }

    /// The smallest index that is not marked, if there is one.
    pub fn next(&mut self) -> (result: Option<u32>)
        requires
            old(self).wf(),
        ensures
            final(self)@ == old(self)@,
            match result {
                Some(index) => {
                    &&& index < old(self)@.len()
                    &&& !old(self)@[index as int]
                    &&& forall|i: int| 0 <= i < index ==> old(self)@[i]
                },
                None => forall|i: int| 0 <= i < old(self)@.len() ==> old(self)@[i],
            },
    {
        let mut index: usize = 0;
        while index < self.0.len()
            invariant
                self@ == old(self)@,
                self.wf(),
                index <= self@.len(),
                forall|i: int| 0 <= i < index ==> self@[i],
            decreases self@.len() - index,
        {
            if !self.0[index] {
                return Some(index as u32);
            }
            index += 1;
        }
        None
    }
}

} // verus!
