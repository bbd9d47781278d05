//! Buffer mutation: splicing a replacement into the selection, the
//! single-occurrence replace command, and the replace-all sweep.
//!
//! Every mutation keeps the selection consistent in both coordinate
//! systems: the new byte range is proved to be the byte-offset image of the
//! new character range in the new buffer.

use vstd::prelude::*;
use vstd::string::*;
use crate::editor::{CharRange, SelectionState};
use crate::position::{byte_len, lemma_encode_utf8_concat, lemma_prefix_bytes_bounds,
    lemma_prefix_bytes_full, prefix_bytes};
use crate::search::{find_forward, first_match_at_or_after, found_range, forward_result,
    lemma_first_match_none, lemma_first_match_props, match_at, matches_at, str_to_chars,
    SearchRequest};

verus! {

/// The buffer with the character span `[from, to)` replaced by `v`.
pub open spec fn spliced(t: Seq<char>, from: int, to: int, v: Seq<char>) -> Seq<char>
    recommends
        0 <= from <= to <= t.len(),
{
    t.subrange(0, from) + v + t.subrange(to, t.len() as int)
}

/// The result of the replace-all sweep from `cursor`: repeatedly splice the
/// replacement over the first match at or after the cursor, then continue
/// immediately after the inserted text, so that freshly inserted text is
/// never rescanned. Returns the final buffer and the number of
/// replacements.
pub open spec fn sweep(
    t: Seq<char>,
    needle: Seq<char>,
    repl: Seq<char>,
    cursor: int,
    match_case: bool,
) -> (Seq<char>, nat)
    decreases t.len() - cursor,
    when needle.len() > 0
    via sweep_decreases
{
    match first_match_at_or_after(t, needle, cursor, match_case) {
        None => (t, 0nat),
        Some(i) => {
            let t2 = spliced(t, i, i + needle.len() as int, repl);
            let rec = sweep(t2, needle, repl, i + repl.len() as int, match_case);
            (rec.0, (rec.1 + 1) as nat)
        },
    }
}

#[via_fn]
proof fn sweep_decreases(
    t: Seq<char>,
    needle: Seq<char>,
    repl: Seq<char>,
    cursor: int,
    match_case: bool,
) {
    lemma_first_match_props(t, needle, cursor, match_case);
}

/// The current local time and date, formatted as the editor's Time/Date
/// command shows it.
///
/// Relies on `chrono::Local::now` and `chrono::DateTime::format`: the stamp
/// depends on the clock, so nothing is promised of its contents.
#[verifier::external_body]
fn local_timestamp() -> String {
    chrono::Local::now().format("%I:%M %p %m/%d/%Y").to_string()
}

/// Replace the selected span with `value` and collapse the selection to
/// the position immediately after the inserted text, consistently in both
/// coordinate systems.
pub fn insert_text(text: &str, selection: &SelectionState, value: &str) -> (r: (
    String,
    SelectionState,
))
    requires
        selection.consistent_with(text@),
    ensures
        r.0@ == spliced(
            text@,
            selection.char_range.start as int,
            selection.char_range.end as int,
            value@,
        ),
        r.1.char_range.start == selection.char_range.start + value@.len(),
        r.1.char_range.end == r.1.char_range.start,
        r.1.byte_range.start as int == selection.byte_range.start + byte_len(value@),
        r.1.byte_range.end == r.1.byte_range.start,
        r.1.consistent_with(r.0@),
{
    let cs = selection.char_range.start;
    let ce = selection.char_range.end;
    let tlen = text.unicode_len();
    let prefix = text.substring_char(0, cs);
    let suffix = text.substring_char(ce, tlen);
    let mut new_text = prefix.to_owned();
    new_text.append(value);
    new_text.append(suffix);
    proof {
        assert(new_text@ =~= spliced(text@, cs as int, ce as int, value@));
    }
    let vchars = value.unicode_len();
    let vbytes = value.as_bytes().len();
    let nl = new_text.as_str().unicode_len();
    let totb = new_text.as_str().as_bytes().len();
    proof {
        assert(new_text@.subrange(0, cs + vchars as int) =~= text@.subrange(0, cs as int)
            + value@);
        lemma_encode_utf8_concat(text@.subrange(0, cs as int), value@);
        lemma_prefix_bytes_bounds(new_text@, cs + vchars as int, new_text@.len() as int);
        lemma_prefix_bytes_full(new_text@);
    }
    let new_cs = cs + vchars;
    let new_bs = selection.byte_range.start + vbytes;
    let sel = SelectionState {
        char_range: CharRange { start: new_cs, end: new_cs },
        byte_range: crate::editor::ByteRange { start: new_bs, end: new_bs },
    };
    (new_text, sel)
}

/// Insert the current local time and date at the selection, as the
/// editor's Time/Date command does. The stamp depends on the clock, so the
/// contract holds for whatever text the clock call produced.
pub fn insert_timestamp(text: &str, selection: &SelectionState) -> (r: (String, SelectionState))
    requires
        selection.consistent_with(text@),
    ensures
        exists|stamp: Seq<char>|
            {
                &&& r.0@ == #[trigger] spliced(
                    text@,
                    selection.char_range.start as int,
                    selection.char_range.end as int,
                    stamp,
                )
                &&& r.1.char_range.start == selection.char_range.start + stamp.len()
                &&& r.1.char_range.end == r.1.char_range.start
                &&& r.1.consistent_with(r.0@)
            },
{
    let stamp = local_timestamp();
    let r = insert_text(text, selection, stamp.as_str());
    proof {
        let s = stamp@;
        assert(r.0@ == spliced(
            text@,
            selection.char_range.start as int,
            selection.char_range.end as int,
            s,
        ));
    }
    r
}

/// Whether the selected span of the buffer is exactly the needle under the
/// case rule.
pub open spec fn selection_matches(
    t: Seq<char>,
    sel: SelectionState,
    needle: Seq<char>,
    match_case: bool,
) -> bool {
    &&& sel.char_range.end - sel.char_range.start == needle.len()
    &&& match_at(t, needle, sel.char_range.start as int, match_case)
}

/// Outcome of the single-occurrence replace command.
#[derive(Debug)]
pub enum ReplaceOnceOutcome {
    /// The selection was the needle: the buffer was spliced and the
    /// selection collapsed after the inserted text.
    Replaced { text: String, selection: SelectionState },
    /// The selection was not the needle: nothing was replaced and a
    /// forward search from the selection end was run instead.
    Searched { found: Option<CharRange> },
}

/// Replace the current selection when it is exactly the needle under the
/// case rule; otherwise replace nothing and search forward from the
/// selection end for the next candidate.
pub fn replace_once(
    text: &str,
    selection: &SelectionState,
    request: &SearchRequest,
    replacement: &str,
) -> (r: ReplaceOnceOutcome)
    requires
        selection.consistent_with(text@),
        request.needle@.len() > 0,
    ensures
        selection_matches(text@, *selection, request.needle@, request.match_case) ==> (match r {
            ReplaceOnceOutcome::Replaced { text: new_text, selection: new_sel } => {
                &&& new_text@ == spliced(
                    text@,
                    selection.char_range.start as int,
                    selection.char_range.end as int,
                    replacement@,
                )
                &&& new_sel.char_range.start == selection.char_range.start + replacement@.len()
                &&& new_sel.char_range.end == new_sel.char_range.start
                &&& new_sel.byte_range.start as int == selection.byte_range.start + byte_len(
                    replacement@,
                )
                &&& new_sel.byte_range.end == new_sel.byte_range.start
                &&& new_sel.consistent_with(new_text@)
            },
            ReplaceOnceOutcome::Searched { .. } => false,
        }),
        !selection_matches(text@, *selection, request.needle@, request.match_case) ==> (match r {
            ReplaceOnceOutcome::Replaced { .. } => false,
            ReplaceOnceOutcome::Searched { found } => found == found_range(
                forward_result(
                    text@,
                    request.needle@,
                    selection.char_range.end as int,
                    request.match_case,
                    request.wrap,
                ),
                request.needle@.len(),
            ),
        }),
{
    let cs = selection.char_range.start;
    let ce = selection.char_range.end;
    let needle = str_to_chars(request.needle.as_str());
    let selected = text.substring_char(cs, ce);
    let sel_chars = str_to_chars(selected);
    let is_match = sel_chars.len() == needle.len() && matches_at(
        sel_chars.as_slice(),
        0,
        needle.as_slice(),
        request.match_case,
    );
    proof {
        if is_match {
            assert forall|j: int| 0 <= j < request.needle@.len() implies crate::search::chars_match(
                text@[cs + j],
                #[trigger] request.needle@[j],
                request.match_case,
            ) by {
                assert(text@[cs + j] == text@.subrange(cs as int, ce as int)[j]);
            }
        } else {
            if selection_matches(text@, *selection, request.needle@, request.match_case) {
                assert forall|j: int|
                    0 <= j < request.needle@.len() implies crate::search::chars_match(
                    text@.subrange(cs as int, ce as int)[j],
                    #[trigger] request.needle@[j],
                    request.match_case,
                ) by {
                    assert(text@.subrange(cs as int, ce as int)[j] == text@[cs + j]);
                }
                assert(match_at(
                    text@.subrange(cs as int, ce as int),
                    request.needle@,
                    0,
                    request.match_case,
                ));
            }
        }
    }
    if is_match {
        let (new_text, new_sel) = insert_text(text, selection, replacement);
        ReplaceOnceOutcome::Replaced { text: new_text, selection: new_sel }
    } else {
        let found = find_forward(text, request, ce);
        ReplaceOnceOutcome::Searched { found }
    }
}

/// Replace every occurrence of the needle in a single non-wrapping
/// left-to-right sweep, never rescanning freshly inserted text, and return
/// the new buffer together with the number of replacements. An empty
/// needle, or a needle that matches nowhere, leaves the buffer unchanged
/// with a count of zero.
pub fn replace_all(text: &str, request: &SearchRequest, replacement: &str) -> (r: (String, usize))
    ensures
        request.needle@.len() == 0 ==> r.0@ == text@ && r.1 == 0,
        request.needle@.len() > 0 ==> r.0@ == sweep(
            text@,
            request.needle@,
            replacement@,
            0,
            request.match_case,
        ).0,
        request.needle@.len() > 0 ==> r.1 as nat == sweep(
            text@,
            request.needle@,
            replacement@,
            0,
            request.match_case,
        ).1,
        (forall|j: int| !match_at(text@, request.needle@, j, request.match_case)) ==> r.0@
            == text@ && r.1 == 0,
{
    let nlen = request.needle.as_str().unicode_len();
    if nlen == 0 {
        return (text.to_owned(), 0);
    }
    let req = SearchRequest {
        needle: request.needle.clone(),
        match_case: request.match_case,
        search_down: true,
        wrap: false,
    };
    let rlen = replacement.unicode_len();
    let tlen = text.unicode_len();
    let mut cur: String = text.to_owned();
    let mut cursor: usize = 0;
    let mut count: usize = 0;
    loop
        invariant_except_break
            req.needle@ == request.needle@,
            req.match_case == request.match_case,
            !req.wrap,
            request.needle@.len() == nlen,
            nlen >= 1,
            replacement@.len() == rlen,
            cursor <= cur@.len(),
            count + cur@.len() - cursor <= text@.len(),
            tlen == text@.len(),
            sweep(text@, request.needle@, replacement@, 0, request.match_case).0 == sweep(
                cur@,
                request.needle@,
                replacement@,
                cursor as int,
                request.match_case,
            ).0,
            sweep(text@, request.needle@, replacement@, 0, request.match_case).1 == sweep(
                cur@,
                request.needle@,
                replacement@,
                cursor as int,
                request.match_case,
            ).1 + count,
        ensures
            cur@ == sweep(text@, request.needle@, replacement@, 0, request.match_case).0,
            count as nat == sweep(text@, request.needle@, replacement@, 0, request.match_case).1,
        decreases cur@.len() - cursor,
    {
        let m = find_forward(cur.as_str(), &req, cursor);
        match m {
            None => {
                break ;
            },
            Some(range) => {
                proof {
                    lemma_first_match_props(
                        cur@,
                        request.needle@,
                        cursor as int,
                        request.match_case,
                    );
                }
                let clen = cur.as_str().unicode_len();
                let prefix = cur.as_str().substring_char(0, range.start);
                let suffix = cur.as_str().substring_char(range.end, clen);
                let mut next = prefix.to_owned();
                next.append(replacement);
                next.append(suffix);
                let nextlen = next.as_str().unicode_len();
                proof {
                    assert(next@ =~= spliced(
                        cur@,
                        range.start as int,
                        range.start + request.needle@.len(),
                        replacement@,
                    ));
                }
                cursor = range.start + rlen;
                cur = next;
                count = count + 1;
            },
        }
    }
    proof {
        if forall|j: int| !match_at(text@, request.needle@, j, request.match_case) {
            lemma_first_match_none(text@, request.needle@, 0, request.match_case);
        }
    }
    (cur, count)
}

} // verus!
