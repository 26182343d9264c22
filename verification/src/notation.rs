//! Cycle notation as text: each cycle in parentheses, its labels
//! separated by single spaces, the cycles one after another.

use vstd::prelude::*;
use crate::cycles::views;

verus! {

/// The text that `Display` writes for one label.
pub uninterp spec fn label_text(label: u32) -> Seq<char>;

/// The texts of the labels in order, with `sep` between neighbours.
pub open spec fn joined(labels: Seq<u32>, sep: Seq<char>) -> Seq<char>
    decreases labels.len(),
{
    if labels.len() == 0 {
        Seq::empty()
    } else if labels.len() == 1 {
        label_text(labels[0])
    } else {
        joined(labels.drop_last(), sep) + sep + label_text(labels.last())
    }
}

/// Calls `itertools::Itertools::join` on the labels in order. The contract
/// claims that the result is what `Display` writes for each label, in
/// order, with the separator between neighbours and nowhere else (for a
/// single label, its text alone), and that what `Display` writes for a
/// label depends on the label alone. None of this is proved here.
#[verifier::external_body]
fn join_labels(labels: &Vec<u32>, sep: &str) -> (result: String)
    ensures
        result@ == joined(labels@, sep@),
        labels@.len() == 1 ==> result@ == label_text(labels@[0]),
{
    itertools::Itertools::join(&mut labels.iter(), sep)
}

/// `inner` between an opening and a closing parenthesis.
pub open spec fn bracketed(inner: Seq<char>) -> Seq<char> {
    seq!['('] + inner + seq![')']
}

/// One cycle as text.
pub open spec fn cycle_notation(cycle: Seq<u32>) -> Seq<char> {
    bracketed(joined(cycle, seq![' ']))
}

/// The cycles as text, in order, with nothing between them.
pub open spec fn notation(cycles: Seq<Seq<u32>>) -> Seq<char>
    decreases cycles.len(),
{
    if cycles.len() == 0 {
        Seq::empty()
    } else {
        notation(cycles.drop_last()) + cycle_notation(cycles.last())
    }
}

/// Puts `inner` in parentheses.
pub fn bracket(inner: &str) -> (result: String)
    ensures
        result@ == bracketed(inner@),
{
    proof {
        reveal_strlit("(");
        reveal_strlit(")");
    }
    let mut text = String::new();
    text.append("(");
    text.append(inner);
    text.append(")");
    proof {
        assert("("@ =~= seq!['(']);
        assert(")"@ =~= seq![')']);
        assert(text@ =~= bracketed(inner@));
    }
    text
}

/// Writes one cycle: its labels with single spaces between them, in
/// parentheses.
pub fn cycle_text(cycle: &Vec<u32>) -> (result: String)
    ensures
        result@ == cycle_notation(cycle@),
{
    proof {
        reveal_strlit(" ");
        assert(" "@ =~= seq![' ']);
    }
    let inner = join_labels(cycle, " ");
    bracket(inner.as_str())
}

/// Writes the cycles one after another.
pub fn notation_text(cycles: &Vec<Vec<u32>>) -> (result: String)
    ensures
        result@ == notation(views(cycles@)),
{
    let mut text = String::new();
    let mut index: usize = 0;
    while index < cycles.len()
        invariant
            index <= cycles@.len(),
            text@ == notation(views(cycles@).take(index as int)),
        decreases cycles@.len() - index,
    {
        let piece = cycle_text(&cycles[index]);
        proof {
            let upto = views(cycles@).take(index + 1);
            assert(upto.drop_last() =~= views(cycles@).take(index as int));
            assert(upto.last() == cycles@[index as int]@);
        }
        text.append(piece.as_str());
        index += 1;
    }
    proof {
        assert(views(cycles@).take(index as int) =~= views(cycles@));
    }
    text
}

} // verus!
