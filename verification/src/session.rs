//! The decisions of a run around the pipeline: what to say when nothing is
//! shown, and when a watched file calls for a new rendering.
use vstd::prelude::*;

use crate::text::{push_str, string_of};

verus! {

/// What a watch loop does after it has read the file again.
#[derive(Debug, Clone, Copy, PartialEq, Eq, Structural)]
pub enum WatchAction {
    /// Clear the screen and render the lines anew.
    Redraw,
    /// Nothing changed; wait for the next poll.
    Wait,
}

/// The next line count to remember and the action, after a poll that found
/// `current_count` lines where `last_line_count` were seen: redraw exactly
/// when the count changed.
pub fn file_poll(last_line_count: usize, current_count: usize) -> (r: (usize, WatchAction))
    ensures
        r.0 == current_count,
        r.1 == (if current_count != last_line_count {
            WatchAction::Redraw
        } else {
            WatchAction::Wait
        }),
{
    if current_count != last_line_count {
        (current_count, WatchAction::Redraw)
    } else {
        (last_line_count, WatchAction::Wait)
    }
}

/// The ids of a list joined by a comma and a space, or "(none)" when the
/// list is empty.
pub open spec fn id_list_text(ids: Seq<Seq<char>>) -> Seq<char>
    decreases ids.len(),
{
    if ids.len() == 0 {
        "(none)"@
    } else if ids.len() == 1 {
        ids[0]
    } else {
        id_list_text(ids.drop_last()) + ", "@ + ids.last()
    }
}

/// The note a single run prints when it shows nothing: no input at all; a
/// request id asked for that no group has, with the ids the groups do have;
/// or input without matching traces.
pub open spec fn empty_run_note_text(
    no_lines: bool,
    request_id: Option<Seq<char>>,
    available: Seq<Seq<char>>,
) -> Seq<char> {
    if no_lines {
        "No log entries found."@
    } else if request_id is Some && !available.contains(request_id->0) {
        "Request ID \""@ + request_id->0 + "\" not found. Available request IDs: "@
            + id_list_text(available)
    } else {
        "No traces found matching the given filters."@
    }
}

fn push_id_list(out: &mut String, ids: &[String])
    ensures
        final(out)@ == old(out)@ + id_list_text(ids@.map_values(|i: String| i@)),
{
    let ghost v = ids@.map_values(|i: String| i@);
    if ids.len() == 0 {
        push_str(out, "(none)");
        return;
    }
    let ghost start = out@;
    push_str(out, ids[0].as_str());
    let mut i: usize = 1;
    assert(v.take(1) =~= seq![v[0]]);
    while i < ids.len()
        invariant
            1 <= i <= ids@.len(),
            v == ids@.map_values(|i: String| i@),
            out@ == start + id_list_text(v.take(i as int)),
        decreases ids@.len() - i,
    {
        assert(v.take(i + 1).drop_last() =~= v.take(i as int));
        push_str(out, ", ");
        push_str(out, ids[i].as_str());
        i = i + 1;
        assert(out@ =~= start + id_list_text(v.take(i as int)));
    }
    assert(v.take(ids@.len() as int) =~= v);
}

fn contains_id(ids: &[String], id: &str) -> (r: bool)
    ensures
        r == ids@.map_values(|i: String| i@).contains(id@),
{
    let ghost v = ids@.map_values(|i: String| i@);
    let target = string_of(id);
    let mut i: usize = 0;
    while i < ids.len()
        invariant
            0 <= i <= ids@.len(),
            v == ids@.map_values(|i: String| i@),
            target@ == id@,
            forall|j: int| 0 <= j < i ==> v[j] != id@,
        decreases ids@.len() - i,
    {
        assert(v[i as int] == ids@[i as int]@);
        if ids[i] == target {
            assert(v[i as int] == id@);
            return true;
        }
        i = i + 1;
    }
    false
}

/// The note a single run prints when it shows nothing: no input at all; the
/// request id asked for is not among the ids of the groups built from the
/// input, which it lists; or no trace passed the filters.
pub fn empty_run_note(no_lines: bool, request_id: Option<&str>, available: &[String]) -> (s: String)
    ensures
        s@ == empty_run_note_text(
            no_lines,
            match request_id {
                Some(r) => Some(r@),
                None => None,
            },
            available@.map_values(|i: String| i@),
        ),
{
    if no_lines {
        return string_of("No log entries found.");
    }
    if let Some(id) = request_id {
        if !contains_id(available, id) {
            let mut s = string_of("Request ID \"");
            push_str(&mut s, id);
            push_str(&mut s, "\" not found. Available request IDs: ");
            push_id_list(&mut s, available);
            return s;
        }
    }
    string_of("No traces found matching the given filters.")
}

/// The note a file watch shows while it has nothing to render.
pub open spec fn watch_file_note_text(no_lines: bool, path: Seq<char>) -> Seq<char> {
    if no_lines {
        "Watching "@ + path + " (Ctrl+C to exit)"@
    } else {
        "Waiting for structured log data... (Ctrl+C to exit)"@
    }
}

/// The note a file watch shows while it has nothing to render: the file is
/// empty, or it holds nothing to show yet.
pub fn watch_file_note(no_lines: bool, path: &str) -> (s: String)
    ensures
        s@ == watch_file_note_text(no_lines, path@),
{
    if no_lines {
        let mut s = string_of("Watching ");
        push_str(&mut s, path);
        push_str(&mut s, " (Ctrl+C to exit)");
        assert(s@ =~= watch_file_note_text(no_lines, path@));
        s
    } else {
        string_of("Waiting for structured log data... (Ctrl+C to exit)")
    }
}

} // verus!
