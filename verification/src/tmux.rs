//! What the multiplexer's answers say: the sessions it lists and the
//! session it is in.

use crate::text::{chars_of, lines_of, split_lines, starts_with, trim, trimmed};
use vstd::prelude::*;

verus! {

/// The names of the live sessions, from the answer to a request for one
/// name per line: the lines of the answer, or none where the request
/// failed.
pub fn get_sessions(succeeded: bool, output: &str) -> (r: Vec<String>)
    ensures
        r.deep_view() == if succeeded {
            split_lines(output@)
        } else {
            Seq::empty()
        },
{
    if succeeded {
        lines_of(output)
    } else {
        let none: Vec<String> = Vec::new();
        assert(none.deep_view() =~= Seq::<Seq<char>>::empty());
        none
    }
}

/// Whether a line of a listing of the sessions begins with `session_name`
/// and a colon.
pub open spec fn listed(listing: Seq<char>, session_name: Seq<char>) -> bool {
    exists|i: int|
        0 <= i < split_lines(listing).len() && session_name.push(':').is_prefix_of(
            #[trigger] split_lines(listing)[i],
        )
}

/// Whether the session `session_name` is among those of a listing of the
/// sessions, in which each line begins with a session's name and a colon.
pub fn session_exists(listing: &str, session_name: &str) -> (r: bool)
    ensures
        r == listed(listing@, session_name@),
{
    let lines = lines_of(listing);
    let mut lead = chars_of(session_name);
    lead.push(':');
    let mut i: usize = 0;
    while i < lines.len()
        invariant
            i <= lines.len(),
            lines.deep_view() == split_lines(listing@),
            lead@ == session_name@.push(':'),
            forall|j: int| 0 <= j < i ==> !lead@.is_prefix_of(#[trigger] lines.deep_view()[j]),
        decreases lines.len() - i,
    {
        let line = chars_of(lines[i].as_str());
        if starts_with(&line, &lead) {
            assert(lead@.is_prefix_of(lines.deep_view()[i as int]));
            return true;
        }
        i += 1;
    }
    false
}

/// The name of the session that the terminal is in, from the answer to a
/// request for it: the answer without the white space around it, or
/// nothing where the request failed.
pub fn get_current_session(succeeded: bool, output: &str) -> (r: Option<String>)
    ensures
        r.deep_view() == if succeeded {
            Some(trimmed(output@))
        } else {
            None
        },
{
    if succeeded {
        Some(trim(output))
    } else {
        None
    }
}

} // verus!
