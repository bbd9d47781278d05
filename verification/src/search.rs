//! Search engine: forward and backward substring search over character
//! offsets, with optional ASCII-only case folding and at-most-once
//! wraparound.
//!
//! Matching compares Unicode scalar values directly when case-sensitive;
//! case-insensitive matching folds only the ASCII letters `A`-`Z`, so
//! non-ASCII letters are compared verbatim even then. That scope is part of
//! the engine's observable behaviour and is kept as is.

use vstd::prelude::*;
use vstd::string::*;
use crate::editor::{CharRange, SelectionState};
use crate::position::clamped;

verus! {

/// One search command: the needle, the case rule, the direction, and
/// whether the scan may wrap around the end of the buffer once.
#[derive(Clone, Debug)]
pub struct SearchRequest {
    pub needle: String,
    pub match_case: bool,
    pub search_down: bool,
    pub wrap: bool,
}

impl SearchRequest {
    pub fn new(needle: String, match_case: bool, search_down: bool, wrap: bool) -> (r: Self)
        ensures
            r.needle@ == needle@,
            r.match_case == match_case,
            r.search_down == search_down,
            r.wrap == wrap,
    {
        Self { needle, match_case, search_down, wrap }
    }
}

/// The scalar value of `c` after ASCII-only case folding: the letters
/// `A`-`Z` fold to their lowercase forms, every other character is left
/// as it is.
pub open spec fn fold_char(c: char) -> int {
    if 'A' as u32 <= c as u32 && c as u32 <= 'Z' as u32 {
        c as u32 + 32
    } else {
        (c as u32) as int
    }
}

/// Whether two characters match under the case rule: equal scalar values
/// when case-sensitive, equal ASCII-folded values otherwise.
pub open spec fn chars_match(a: char, b: char, match_case: bool) -> bool {
    if match_case {
        a == b
    } else {
        fold_char(a) == fold_char(b)
    }
}

/// Whether the needle matches the haystack at character position `i`.
pub open spec fn match_at(hay: Seq<char>, needle: Seq<char>, i: int, match_case: bool) -> bool {
    &&& 0 <= i
    &&& i + needle.len() <= hay.len()
    &&& forall|j: int|
        0 <= j < needle.len() ==> chars_match(hay[i + j], #[trigger] needle[j], match_case)
}

/// The lowest match position at or after `from`, if any.
pub open spec fn first_match_at_or_after(
    hay: Seq<char>,
    needle: Seq<char>,
    from: int,
    match_case: bool,
) -> Option<int>
    decreases hay.len() - from,
{
    if from + needle.len() > hay.len() {
        None
    } else if match_at(hay, needle, from, match_case) {
        Some(from)
    } else {
        first_match_at_or_after(hay, needle, from + 1, match_case)
    }
}

/// The highest match position at or before `from`, if any.
pub open spec fn last_match_at_or_before(
    hay: Seq<char>,
    needle: Seq<char>,
    from: int,
    match_case: bool,
) -> Option<int>
    decreases from + 1,
{
    if from < 0 {
        None
    } else if match_at(hay, needle, from, match_case) {
        Some(from)
    } else {
        last_match_at_or_before(hay, needle, from - 1, match_case)
    }
}

/// What a forward search returns: the first match at or after the (clamped)
/// start, else, when wrapping is allowed, the first match from the top of
/// the buffer; an empty needle matches nothing.
pub open spec fn forward_result(
    hay: Seq<char>,
    needle: Seq<char>,
    start: int,
    match_case: bool,
    wrap: bool,
) -> Option<int> {
    if needle.len() == 0 {
        None
    } else {
        let s = clamped(start, hay.len() as int);
        match first_match_at_or_after(hay, needle, s, match_case) {
            Some(i) => Some(i),
            None => if wrap {
                first_match_at_or_after(hay, needle, 0, match_case)
            } else {
                None
            },
        }
    }
}

/// What a backward search returns: the last match ending at or before the
/// (clamped) start, else, when wrapping is allowed, the last match in the
/// whole buffer; an empty needle matches nothing.
pub open spec fn backward_result(
    hay: Seq<char>,
    needle: Seq<char>,
    start: int,
    match_case: bool,
    wrap: bool,
) -> Option<int> {
    if needle.len() == 0 {
        None
    } else {
        let s = clamped(start, hay.len() as int);
        match last_match_at_or_before(hay, needle, s - needle.len(), match_case) {
            Some(i) => Some(i),
            None => if wrap {
                last_match_at_or_before(hay, needle, hay.len() - needle.len(), match_case)
            } else {
                None
            },
        }
    }
}

/// The character range covering a match of an `n`-character needle.
pub open spec fn found_range(m: Option<int>, n: nat) -> Option<CharRange> {
    match m {
        Some(i) => Some(CharRange { start: i as usize, end: (i + n) as usize }),
        None => None,
    }
}

/// Scanning from `from` finds exactly the match position `k` when `k`
/// matches and nothing before it does.
proof fn lemma_first_match_some(
    hay: Seq<char>,
    needle: Seq<char>,
    from: int,
    k: int,
    match_case: bool,
)
    requires
        from <= k,
        match_at(hay, needle, k, match_case),
        forall|j: int| from <= j < k ==> !match_at(hay, needle, j, match_case),
    ensures
        first_match_at_or_after(hay, needle, from, match_case) == Some(k),
    decreases k - from,
{
    if from < k {
        lemma_first_match_some(hay, needle, from + 1, k, match_case);
    }
}

/// Scanning from `from` finds nothing when nothing at or after `from`
/// matches.
pub proof fn lemma_first_match_none(hay: Seq<char>, needle: Seq<char>, from: int, match_case: bool)
    requires
        0 <= from <= hay.len(),
        forall|j: int| from <= j ==> !match_at(hay, needle, j, match_case),
    ensures
        first_match_at_or_after(hay, needle, from, match_case) is None,
    decreases hay.len() - from,
{
    if from + needle.len() <= hay.len() {
        assert(!match_at(hay, needle, from, match_case));
        if needle.len() == 0 {
            assert(match_at(hay, needle, from, match_case));
        } else {
            lemma_first_match_none(hay, needle, from + 1, match_case);
        }
    }
}

/// A successful scan returns a match at or after the scan start.
pub proof fn lemma_first_match_props(
    hay: Seq<char>,
    needle: Seq<char>,
    from: int,
    match_case: bool,
)
    ensures
        match first_match_at_or_after(hay, needle, from, match_case) {
            Some(i) => from <= i && match_at(hay, needle, i, match_case),
            None => true,
        },
    decreases hay.len() - from,
{
    if from + needle.len() > hay.len() {
    } else if match_at(hay, needle, from, match_case) {
    } else {
        lemma_first_match_props(hay, needle, from + 1, match_case);
    }
}

/// Scanning down from `from` finds exactly the match position `k` when `k`
/// matches and nothing between `k` and `from` does.
proof fn lemma_last_match_some(
    hay: Seq<char>,
    needle: Seq<char>,
    from: int,
    k: int,
    match_case: bool,
)
    requires
        k <= from,
        match_at(hay, needle, k, match_case),
        forall|j: int| k < j <= from ==> !match_at(hay, needle, j, match_case),
    ensures
        last_match_at_or_before(hay, needle, from, match_case) == Some(k),
    decreases from - k,
{
    if k < from {
        lemma_last_match_some(hay, needle, from - 1, k, match_case);
    }
}

/// Scanning down from `from` finds nothing when nothing at or before
/// `from` matches.
proof fn lemma_last_match_none(hay: Seq<char>, needle: Seq<char>, from: int, match_case: bool)
    requires
        forall|j: int| j <= from ==> !match_at(hay, needle, j, match_case),
    ensures
        last_match_at_or_before(hay, needle, from, match_case) is None,
    decreases from + 1,
{
    if from >= 0 {
        assert(!match_at(hay, needle, from, match_case));
        lemma_last_match_none(hay, needle, from - 1, match_case);
    }
}

/// Forward/backward symmetry: in a buffer with exactly one occurrence of
/// the needle, a forward search from any start at or before the occurrence
/// and a backward search from any start at or after its end both return
/// that occurrence, with or without wraparound.
pub proof fn lemma_forward_backward_symmetry(
    hay: Seq<char>,
    needle: Seq<char>,
    m: int,
    fs: int,
    bs: int,
    match_case: bool,
    wrap: bool,
)
    requires
        needle.len() > 0,
        match_at(hay, needle, m, match_case),
        forall|j: int| j != m ==> !match_at(hay, needle, j, match_case),
        0 <= fs <= m,
        m + needle.len() <= bs <= hay.len(),
    ensures
        forward_result(hay, needle, fs, match_case, wrap) == Some(m),
        backward_result(hay, needle, bs, match_case, wrap) == Some(m),
{
    lemma_first_match_some(hay, needle, fs, m, match_case);
    lemma_last_match_some(hay, needle, bs - needle.len(), m, match_case);
}

/// A needle that matches nowhere in the buffer is not found in either
/// direction, with or without wraparound. (The searches themselves always
/// terminate: every loop in this crate carries a proved `decreases`
/// measure, wraparound included.)
pub proof fn lemma_absent_needle_not_found(
    hay: Seq<char>,
    needle: Seq<char>,
    start: int,
    match_case: bool,
    wrap: bool,
)
    requires
        0 <= start,
        forall|j: int| !match_at(hay, needle, j, match_case),
    ensures
        forward_result(hay, needle, start, match_case, wrap) is None,
        backward_result(hay, needle, start, match_case, wrap) is None,
{
    if needle.len() > 0 {
        let s = clamped(start, hay.len() as int);
        lemma_first_match_none(hay, needle, s, match_case);
        lemma_first_match_none(hay, needle, 0, match_case);
        lemma_last_match_none(hay, needle, s - needle.len(), match_case);
        lemma_last_match_none(hay, needle, hay.len() - needle.len(), match_case);
    }
}

/// Collect the characters of a string slice.
pub fn str_to_chars(text: &str) -> (v: Vec<char>)
    ensures
        v@ == text@,
{
    let n = text.unicode_len();
    let mut v: Vec<char> = Vec::new();
    let mut i: usize = 0;
    while i < n
        invariant
            i <= n,
            n == text@.len(),
            v@ == text@.subrange(0, i as int),
        decreases n - i,
    {
        let c = text.get_char(i);
        v.push(c);
        proof {
            assert(text@.subrange(0, i as int + 1) =~= text@.subrange(0, i as int).push(
                text@[i as int],
            ));
        }
        i = i + 1;
    }
    proof {
        assert(text@.subrange(0, n as int) =~= text@);
    }
    v
}

/// Whether two characters match under the given case rule.
pub fn char_matches(a: char, b: char, match_case: bool) -> (r: bool)
    ensures
        r == chars_match(a, b, match_case),
{
    if match_case {
        a == b
    } else {
        let au = a as u32;
        let bu = b as u32;
        let fa = if au >= 'A' as u32 && au <= 'Z' as u32 {
            au + 32
        } else {
            au
        };
        let fb = if bu >= 'A' as u32 && bu <= 'Z' as u32 {
            bu + 32
        } else {
            bu
        };
        fa == fb
    }
}

/// Whether the needle matches the haystack at character position `pos`.
pub fn matches_at(haystack: &[char], pos: usize, needle: &[char], match_case: bool) -> (r: bool)
    ensures
        r == match_at(haystack@, needle@, pos as int, match_case),
{
    if pos > haystack.len() || needle.len() > haystack.len() - pos {
        return false;
    }
    let mut j: usize = 0;
    while j < needle.len()
        invariant
            pos + needle@.len() <= haystack@.len(),
            haystack@.len() <= usize::MAX,
            j <= needle@.len(),
            forall|k: int|
                0 <= k < j ==> chars_match(
                    haystack@[pos + k],
                    #[trigger] needle@[k],
                    match_case,
                ),
        decreases needle@.len() - j,
    {
        if !char_matches(haystack[pos + j], needle[j], match_case) {
            return false;
        }
        j = j + 1;
    }
    true
}

/// Find the next occurrence of the needle at or after character offset
/// `start` (clamped to the buffer), wrapping to the top of the buffer at
/// most once when the request allows it.
pub fn find_forward(text: &str, request: &SearchRequest, start: usize) -> (r: Option<CharRange>)
    ensures
        r == found_range(
            forward_result(text@, request.needle@, start as int, request.match_case, request.wrap),
            request.needle@.len(),
        ),
{
    let needle = str_to_chars(request.needle.as_str());
    let n = needle.len();
    if n == 0 {
        return None;
    }
    let chars = str_to_chars(text);
    let len = chars.len();
    let mut index = if start < len {
        start
    } else {
        len
    };
    let ghost s0 = index as int;
    while n <= len - index
        invariant
            s0 == clamped(start as int, text@.len() as int),
            s0 <= index <= len,
            len == text@.len(),
            n == request.needle@.len(),
            n >= 1,
            chars@ == text@,
            needle@ == request.needle@,
            forall|j: int|
                s0 <= j < index ==> !match_at(text@, request.needle@, j, request.match_case),
        decreases len - index,
    {
        if matches_at(chars.as_slice(), index, needle.as_slice(), request.match_case) {
            proof {
                lemma_first_match_some(
                    text@,
                    request.needle@,
                    s0,
                    index as int,
                    request.match_case,
                );
            }
            return Some(CharRange { start: index, end: index + n });
        }
        index = index + 1;
    }
    proof {
        assert forall|j: int| s0 <= j implies !match_at(
            text@,
            request.needle@,
            j,
            request.match_case,
        ) by {
            if j >= index {
                assert(j + request.needle@.len() > text@.len());
            }
        }
        lemma_first_match_none(text@, request.needle@, s0, request.match_case);
    }
    if request.wrap {
        let mut index2: usize = 0;
        while n <= len - index2
            invariant
                index2 <= len,
                len == text@.len(),
                n == request.needle@.len(),
                n >= 1,
                chars@ == text@,
                needle@ == request.needle@,
                request.wrap,
                s0 == clamped(start as int, text@.len() as int),
                first_match_at_or_after(text@, request.needle@, s0, request.match_case) is None,
                forall|j: int|
                    0 <= j < index2 ==> !match_at(text@, request.needle@, j, request.match_case),
            decreases len - index2,
        {
            if matches_at(chars.as_slice(), index2, needle.as_slice(), request.match_case) {
                proof {
                    lemma_first_match_some(
                        text@,
                        request.needle@,
                        0,
                        index2 as int,
                        request.match_case,
                    );
                }
                return Some(CharRange { start: index2, end: index2 + n });
            }
            index2 = index2 + 1;
        }
        proof {
            assert forall|j: int| 0 <= j implies !match_at(
                text@,
                request.needle@,
                j,
                request.match_case,
            ) by {
                if j >= index2 {
                    assert(j + request.needle@.len() > text@.len());
                }
            }
            lemma_first_match_none(text@, request.needle@, 0, request.match_case);
        }
    }
    None
}

/// Find the previous occurrence of the needle ending at or before character
/// offset `start` (clamped to the buffer), wrapping to the end of the
/// buffer at most once when the request allows it.
pub fn find_backward(text: &str, request: &SearchRequest, start: usize) -> (r: Option<CharRange>)
    ensures
        r == found_range(
            backward_result(text@, request.needle@, start as int, request.match_case, request.wrap),
            request.needle@.len(),
        ),
{
    let needle = str_to_chars(request.needle.as_str());
    let n = needle.len();
    if n == 0 {
        return None;
    }
    let chars = str_to_chars(text);
    let len = chars.len();
    let s = if start < len {
        start
    } else {
        len
    };
    if n <= s {
        let mut c = s - n;
        loop
            invariant_except_break
                c <= s - n,
                n <= s <= len,
                len == text@.len(),
                n == request.needle@.len(),
                n >= 1,
                s == clamped(start as int, text@.len() as int),
                chars@ == text@,
                needle@ == request.needle@,
                forall|j: int|
                    c < j <= s - n ==> !match_at(text@, request.needle@, j, request.match_case),
            ensures
                forall|j: int|
                    0 <= j <= s - n ==> !match_at(text@, request.needle@, j, request.match_case),
            decreases c,
        {
            if matches_at(chars.as_slice(), c, needle.as_slice(), request.match_case) {
                proof {
                    lemma_last_match_some(
                        text@,
                        request.needle@,
                        s - n,
                        c as int,
                        request.match_case,
                    );
                }
                return Some(CharRange { start: c, end: c + n });
            }
            if c == 0 {
                break ;
            }
            c = c - 1;
        }
    }
    proof {
        assert forall|j: int| j <= clamped(start as int, text@.len() as int)
            - request.needle@.len() implies !match_at(
            text@,
            request.needle@,
            j,
            request.match_case,
        ) by {}
        lemma_last_match_none(
            text@,
            request.needle@,
            clamped(start as int, text@.len() as int) - request.needle@.len(),
            request.match_case,
        );
    }
    if request.wrap {
        if n <= len {
            let mut c = len - n;
            loop
                invariant_except_break
                    c <= len - n,
                    n <= len,
                    len == text@.len(),
                    n == request.needle@.len(),
                    n >= 1,
                    chars@ == text@,
                    needle@ == request.needle@,
                    request.wrap,
                    last_match_at_or_before(
                        text@,
                        request.needle@,
                        clamped(start as int, text@.len() as int) - request.needle@.len(),
                        request.match_case,
                    ) is None,
                    forall|j: int|
                        c < j <= len - n ==> !match_at(
                            text@,
                            request.needle@,
                            j,
                            request.match_case,
                        ),
                ensures
                    forall|j: int|
                        0 <= j <= len - n ==> !match_at(
                            text@,
                            request.needle@,
                            j,
                            request.match_case,
                        ),
                decreases c,
            {
                if matches_at(chars.as_slice(), c, needle.as_slice(), request.match_case) {
                    proof {
                        lemma_last_match_some(
                            text@,
                            request.needle@,
                            len - n,
                            c as int,
                            request.match_case,
                        );
                    }
                    return Some(CharRange { start: c, end: c + n });
                }
                if c == 0 {
                    break ;
                }
                c = c - 1;
            }
        }
        proof {
            assert forall|j: int| j <= text@.len() - request.needle@.len() implies !match_at(
                text@,
                request.needle@,
                j,
                request.match_case,
            ) by {}
            lemma_last_match_none(
                text@,
                request.needle@,
                text@.len() - request.needle@.len(),
                request.match_case,
            );
        }
    }
    None
}

/// Run one find command as the dispatcher does: forward from the selection
/// end or backward from the selection start.
pub fn run_search(text: &str, request: &SearchRequest, selection: &SelectionState, forward: bool)
    -> (r: Option<CharRange>)
    ensures
        forward ==> r == found_range(
            forward_result(
                text@,
                request.needle@,
                selection.char_range.end as int,
                request.match_case,
                request.wrap,
            ),
            request.needle@.len(),
        ),
        !forward ==> r == found_range(
            backward_result(
                text@,
                request.needle@,
                selection.char_range.start as int,
                request.match_case,
                request.wrap,
            ),
            request.needle@.len(),
        ),
{
    if forward {
        find_forward(text, request, selection.char_range.end)
    } else {
        find_backward(text, request, selection.char_range.start)
    }
}

} // verus!
