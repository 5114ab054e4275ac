//! Candidates handed in by the caller as one text, a candidate on each line.

use crate::text::{split, split_text};
use vstd::prelude::*;
use vstd::string::*;

verus! {

/// The pieces that are not empty, in their order.
pub open spec fn nonempty(pieces: Seq<Seq<char>>) -> Seq<Seq<char>>
    decreases pieces.len(),
{
    if pieces.len() == 0 {
        pieces
    } else if pieces.last().len() > 0 {
        nonempty(pieces.drop_last()).push(pieces.last())
    } else {
        nonempty(pieces.drop_last())
    }
}

/// The candidates that a text holds: its lines, without the empty ones.
pub open spec fn commands_in(key: Seq<char>) -> Seq<Seq<char>> {
    nonempty(split(key, '\n'))
}

/// Adds the candidates that `key` holds to `custom_inputs`: each line that is
/// not empty, in the order of the lines.
pub fn fetch_custom_commands(custom_inputs: &mut Vec<String>, key: &str)
    ensures
        final(custom_inputs).deep_view() == old(custom_inputs).deep_view() + commands_in(key@),
{
    let lines = split_text(key, '\n');
    let ghost given = custom_inputs.deep_view();
    let ghost all = lines.deep_view();
    let mut i: usize = 0;
    proof {
        assert(all.take(0) == Seq::<Seq<char>>::empty());
        assert(given + nonempty(all.take(0)) == given);
    }
    while i < lines.len()
        invariant
            0 <= i <= lines.len(),
            all == lines.deep_view(),
            custom_inputs.deep_view() == given + nonempty(all.take(i as int)),
        decreases lines.len() - i,
    {
        let line = &lines[i];
        proof {
            assert(all.take(i + 1).drop_last() == all.take(i as int));
            assert(all.take(i + 1).last() == line@);
        }
        if !line.as_str().is_empty() {
            let ghost before = custom_inputs.deep_view();
            custom_inputs.push(line.clone());
            assert(custom_inputs.deep_view() == before.push(line@));
            assert(before.push(line@) == given + nonempty(all.take(i as int)).push(line@));
        }
        i += 1;
    }
    proof {
        assert(all.take(lines.len() as int) == all);
    }
}

} // verus!
