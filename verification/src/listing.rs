//! Lines of text put together for printing.

use vstd::prelude::*;
use vstd::string::StringExecFns;

verus! {

/// The text of some lines: each line, in order, followed by a line feed.
pub open spec fn lines_text(lines: Seq<Seq<char>>) -> Seq<char>
    decreases lines.len(),
{
    if lines.len() == 0 {
        Seq::empty()
    } else {
        lines_text(lines.drop_last()) + lines.last() + seq!['\n']
    }
}

/// Puts lines together into one text, a line feed after each.
pub fn join_lines(lines: &Vec<String>) -> (text: String)
    ensures
        text@ == lines_text(lines.deep_view()),
{
    proof {
        reveal_strlit("\n");
    }
    let mut text = String::new();
    let mut k: usize = 0;
    while k < lines.len()
        invariant
            k <= lines.len(),
            text@ == lines_text(lines.deep_view().take(k as int)),
            "\n"@ == seq!['\n'],
        decreases lines.len() - k,
    {
        proof {
            let next = lines.deep_view().take(k + 1);
            assert(next.drop_last() =~= lines.deep_view().take(k as int));
            assert(next.last() == lines[k as int]@);
        }
        text.append(lines[k].as_str());
        text.append("\n");
        k += 1;
    }
    assert(lines.deep_view().take(k as int) =~= lines.deep_view());
    text
}

} // verus!
