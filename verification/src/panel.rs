//! Search panel state and the commands built from its text fields: the
//! search request taken from the query field, and the goto-line command
//! parsed from the line-number field.

use vstd::prelude::*;
use vstd::string::*;
use crate::position::{char_to_byte, lemma_newline_count_mono, newline_count, prefix_bytes};
use crate::search::SearchRequest;

verus! {

/// Which pane of the search panel is showing.
#[derive(Clone, Copy, Debug, PartialEq, Eq, Structural)]
pub enum SearchMode {
    Find,
    Replace,
    GoTo,
}

/// The text fields and switches of the search panel.
#[derive(Clone, Debug)]
pub struct SearchPanelState {
    pub query: String,
    pub replacement: String,
    pub goto_line: String,
    pub match_case: bool,
    pub search_down: bool,
    pub wrap: bool,
}

impl Default for SearchPanelState {
    /// A fresh panel: empty fields, case-insensitive, searching down,
    /// wrapping around.
    fn default() -> (d: Self)
        ensures
            d.query@.len() == 0,
            d.replacement@.len() == 0,
            d.goto_line@.len() == 0,
            !d.match_case,
            d.search_down,
            d.wrap,
    {
        Self {
            query: String::new(),
            replacement: String::new(),
            goto_line: String::new(),
            match_case: false,
            search_down: true,
            wrap: true,
        }
    }
}

/// Whether `c` has the Unicode White_Space property, written over scalar
/// values.
pub open spec fn is_space(c: char) -> bool {
    ||| (0x9 <= c as u32 && c as u32 <= 0xd)
    ||| c as u32 == 0x20
    ||| c as u32 == 0x85
    ||| c as u32 == 0xa0
    ||| c as u32 == 0x1680
    ||| (0x2000 <= c as u32 && c as u32 <= 0x200a)
    ||| c as u32 == 0x2028
    ||| c as u32 == 0x2029
    ||| c as u32 == 0x202f
    ||| c as u32 == 0x205f
    ||| c as u32 == 0x3000
}

/// `s` without its leading whitespace.
pub open spec fn drop_leading_spaces(s: Seq<char>) -> Seq<char>
    decreases s.len(),
{
    if s.len() > 0 && is_space(s[0]) {
        drop_leading_spaces(s.drop_first())
    } else {
        s
    }
}

/// `s` without its trailing whitespace.
pub open spec fn drop_trailing_spaces(s: Seq<char>) -> Seq<char>
    decreases s.len(),
{
    if s.len() > 0 && is_space(s.last()) {
        drop_trailing_spaces(s.drop_last())
    } else {
        s
    }
}

/// `s` without leading and trailing whitespace.
pub open spec fn trimmed(s: Seq<char>) -> Seq<char> {
    drop_trailing_spaces(drop_leading_spaces(s))
}

/// Dropping leading whitespace keeps exactly the suffix after the first
/// non-whitespace character.
proof fn lemma_drop_leading_at(s: Seq<char>, i: int)
    requires
        0 <= i <= s.len(),
        forall|k: int| 0 <= k < i ==> is_space(#[trigger] s[k]),
        i < s.len() ==> !is_space(s[i]),
    ensures
        drop_leading_spaces(s) == s.subrange(i, s.len() as int),
    decreases i,
{
    if i == 0 {
        assert(s.subrange(0, s.len() as int) =~= s);
    } else {
        assert(s.drop_first() =~= s.subrange(1, s.len() as int));
        lemma_drop_leading_at(s.drop_first(), i - 1);
        assert(s.drop_first().subrange(i - 1, s.drop_first().len() as int) =~= s.subrange(
            i,
            s.len() as int,
        ));
    }
}

/// Dropping trailing whitespace keeps exactly the prefix up to the last
/// non-whitespace character.
proof fn lemma_drop_trailing_at(s: Seq<char>, j: int)
    requires
        0 <= j <= s.len(),
        forall|k: int| j <= k < s.len() ==> is_space(#[trigger] s[k]),
        j > 0 ==> !is_space(s[j - 1]),
    ensures
        drop_trailing_spaces(s) == s.subrange(0, j),
    decreases s.len(),
{
    if j == s.len() {
        if s.len() > 0 {
            assert(s.subrange(0, s.len() as int) =~= s);
        }
    } else {
        assert(is_space(s.last()));
        assert(s.drop_last() =~= s.subrange(0, s.len() - 1));
        lemma_drop_trailing_at(s.drop_last(), j);
        assert(s.drop_last().subrange(0, j) =~= s.subrange(0, j));
    }
}

/// Whether `c` has the Unicode White_Space property.
pub fn is_space_char(c: char) -> (r: bool)
    ensures
        r == is_space(c),
{
    let u = c as u32;
    (u >= 0x9 && u <= 0xd) || u == 0x20 || u == 0x85 || u == 0xa0 || u == 0x1680 || (u >= 0x2000
        && u <= 0x200a) || u == 0x2028 || u == 0x2029 || u == 0x202f || u == 0x205f || u == 0x3000
}

/// `s` without leading and trailing whitespace.
pub fn trim(s: &str) -> (r: &str)
    ensures
        r@ == trimmed(s@),
{
    let n = s.unicode_len();
    let mut start: usize = 0;
    loop
        invariant_except_break
            start <= n,
            n == s@.len(),
            forall|k: int| 0 <= k < start ==> is_space(#[trigger] s@[k]),
        ensures
            start <= n,
            n == s@.len(),
            forall|k: int| 0 <= k < start ==> is_space(#[trigger] s@[k]),
            start < n ==> !is_space(s@[start as int]),
        decreases n - start,
    {
        if start >= n {
            break ;
        }
        if !is_space_char(s.get_char(start)) {
            break ;
        }
        start = start + 1;
    }
    let mut end: usize = n;
    loop
        invariant_except_break
            start <= end <= n,
            n == s@.len(),
            forall|k: int| end <= k < n ==> is_space(#[trigger] s@[k]),
            start < n ==> !is_space(s@[start as int]),
        ensures
            start <= end <= n,
            n == s@.len(),
            forall|k: int| end <= k < n ==> is_space(#[trigger] s@[k]),
            end > start ==> !is_space(s@[end - 1]),
        decreases end,
    {
        if end <= start {
            break ;
        }
        if !is_space_char(s.get_char(end - 1)) {
            break ;
        }
        end = end - 1;
    }
    proof {
        lemma_drop_leading_at(s@, start as int);
        let mid = s@.subrange(start as int, n as int);
        assert forall|k: int| (end - start) <= k < mid.len() implies is_space(
            #[trigger] mid[k],
        ) by {
            assert(mid[k] == s@[start + k]);
        }
        if end > start {
            assert(mid[end - start - 1] == s@[end - 1]);
        }
        lemma_drop_trailing_at(mid, end - start);
        assert(mid.subrange(0, end - start) =~= s@.subrange(start as int, end as int));
    }
    s.substring_char(start, end)
}

/// Build one search request from the panel fields, as every search and
/// replace command does: the needle is the trimmed query, and an empty
/// trimmed query yields no request.
pub fn panel_request(panel: &SearchPanelState) -> (r: Option<SearchRequest>)
    ensures
        trimmed(panel.query@).len() == 0 ==> r is None,
        trimmed(panel.query@).len() > 0 ==> (match r {
            Some(req) => {
                &&& req.needle@ == trimmed(panel.query@)
                &&& req.match_case == panel.match_case
                &&& req.search_down == panel.search_down
                &&& req.wrap == panel.wrap
            },
            None => false,
        }),
{
    let needle = trim(panel.query.as_str());
    if needle.is_empty() {
        None
    } else {
        Some(
            SearchRequest::new(
                needle.to_owned(),
                panel.match_case,
                panel.search_down,
                panel.wrap,
            ),
        )
    }
}

/// The request a find command runs: the panel's request when the query is
/// non-blank, else the remembered last search, either way with its
/// direction overridden by the command; no request when both are missing.
pub fn effective_request(
    panel: &SearchPanelState,
    last: &Option<SearchRequest>,
    forward: bool,
) -> (r: Option<SearchRequest>)
    ensures
        trimmed(panel.query@).len() > 0 ==> (match r {
            Some(req) => {
                &&& req.needle@ == trimmed(panel.query@)
                &&& req.match_case == panel.match_case
                &&& req.wrap == panel.wrap
                &&& req.search_down == forward
            },
            None => false,
        }),
        trimmed(panel.query@).len() == 0 ==> (match last {
            Some(l) => (match r {
                Some(req) => {
                    &&& req.needle@ == l.needle@
                    &&& req.match_case == l.match_case
                    &&& req.wrap == l.wrap
                    &&& req.search_down == forward
                },
                None => false,
            }),
            None => r is None,
        }),
{
    match panel_request(panel) {
        Some(req) => Some(
            SearchRequest::new(req.needle, req.match_case, forward, req.wrap),
        ),
        None => match last {
            Some(l) => Some(
                SearchRequest::new(l.needle.clone(), l.match_case, forward, l.wrap),
            ),
            None => None,
        },
    }
}

/// Whether `c` is an ASCII decimal digit.
pub open spec fn is_ascii_digit(c: char) -> bool {
    '0' as u32 <= c as u32 && c as u32 <= '9' as u32
}

/// The numeric value of an ASCII digit.
pub open spec fn digit_val(c: char) -> int
    recommends
        is_ascii_digit(c),
{
    c as u32 - '0' as u32
}

/// The digits of a number field: everything after an optional leading
/// plus sign.
pub open spec fn number_body(s: Seq<char>) -> Seq<char> {
    if s.len() > 0 && s[0] == '+' {
        s.drop_first()
    } else {
        s
    }
}

/// Whether every character of `s` is an ASCII digit.
pub open spec fn all_digits(s: Seq<char>) -> bool {
    forall|k: int| 0 <= k < s.len() ==> is_ascii_digit(#[trigger] s[k])
}

/// The value of a digit string, most significant digit first.
pub open spec fn digits_value(s: Seq<char>) -> int
    decreases s.len(),
{
    if s.len() == 0 {
        0
    } else {
        digits_value(s.drop_last()) * 10 + digit_val(s.last())
    }
}

/// Whether `s` is a well-formed unsigned number: an optional leading plus
/// sign, then one or more ASCII digits.
pub open spec fn parses_as_number(s: Seq<char>) -> bool {
    number_body(s).len() > 0 && all_digits(number_body(s))
}

/// A digit string's value never shrinks as digits are appended.
proof fn lemma_digits_value_mono(s: Seq<char>, i: int, j: int)
    requires
        0 <= i <= j <= s.len(),
        all_digits(s),
    ensures
        0 <= digits_value(s.subrange(0, i)) <= digits_value(s.subrange(0, j)),
    decreases j - i,
{
    if i == j {
        lemma_digits_value_nonneg(s, i);
    } else {
        lemma_digits_value_mono(s, i, j - 1);
        assert(s.subrange(0, j).drop_last() =~= s.subrange(0, j - 1));
        assert(s.subrange(0, j).last() == s[j - 1]);
    }
}

/// A digit string's value is never negative.
proof fn lemma_digits_value_nonneg(s: Seq<char>, i: int)
    requires
        0 <= i <= s.len(),
        all_digits(s),
    ensures
        digits_value(s.subrange(0, i)) >= 0,
    decreases i,
{
    if i > 0 {
        lemma_digits_value_nonneg(s, i - 1);
        assert(s.subrange(0, i).drop_last() =~= s.subrange(0, i - 1));
        assert(s.subrange(0, i).last() == s[i - 1]);
    } else {
        assert(s.subrange(0, 0) =~= Seq::<char>::empty());
    }
}

/// Parse a line-number field as the unsigned integer grammar reads it: an
/// optional leading plus sign, then one or more ASCII digits; a value that
/// does not fit the machine word fails.
pub fn parse_line_number(s: &str) -> (r: Option<usize>)
    ensures
        match r {
            Some(v) => {
                &&& parses_as_number(s@)
                &&& v as int == digits_value(number_body(s@))
            },
            None => !parses_as_number(s@) || digits_value(number_body(s@)) > usize::MAX,
        },
{
    let n = s.unicode_len();
    if n == 0 {
        return None;
    }
    let first = s.get_char(0);
    let start: usize = if first == '+' {
        1
    } else {
        0
    };
    if start == n {
        return None;
    }
    let ghost d = number_body(s@);
    proof {
        if s@[0] == '+' {
            assert(d =~= s@.subrange(1, n as int));
        } else {
            assert(d =~= s@.subrange(0, n as int));
        }
        assert(d.subrange(0, 0) =~= Seq::<char>::empty());
    }
    let mut i: usize = start;
    let mut acc: usize = 0;
    while i < n
        invariant
            start <= i <= n,
            n == s@.len(),
            start == 1 <==> (s@.len() > 0 && s@[0] == '+'),
            start <= 1,
            d == number_body(s@),
            d =~= s@.subrange(start as int, n as int),
            all_digits(d.subrange(0, i - start)),
            acc as int == digits_value(d.subrange(0, i - start)),
        decreases n - i,
    {
        let c = s.get_char(i);
        let u = c as u32;
        proof {
            assert(d[i - start] == s@[i as int]);
        }
        if u < '0' as u32 || u > '9' as u32 {
            proof {
                assert(!is_ascii_digit(d[i - start]));
            }
            return None;
        }
        let dv = (u - '0' as u32) as usize;
        if acc > (usize::MAX - dv) / 10 {
            proof {
                assert(d.subrange(0, i - start + 1).drop_last() =~= d.subrange(0, i - start));
                assert(d.subrange(0, i - start + 1).last() == d[i - start]);
                assert(acc * 10 + dv > usize::MAX) by (nonlinear_arith)
                    requires
                        acc > (usize::MAX - dv) / 10,
                        0 <= dv <= 9,
                        acc >= 0,
                ;
                if all_digits(d) {
                    lemma_digits_value_mono(d, i - start + 1, d.len() as int);
                    assert(d.subrange(0, d.len() as int) =~= d);
                }
            }
            return None;
        }
        proof {
            assert(acc * 10 + dv <= usize::MAX) by (nonlinear_arith)
                requires
                    acc <= (usize::MAX - dv) / 10,
                    0 <= dv <= 9,
                    acc >= 0,
            ;
            assert(d.subrange(0, i - start + 1).drop_last() =~= d.subrange(0, i - start));
            assert(d.subrange(0, i - start + 1).last() == d[i - start]);
        }
        acc = acc * 10 + dv;
        i = i + 1;
    }
    proof {
        assert(d.subrange(0, n - start) =~= d);
    }
    Some(acc)
}

/// Outcome of the goto-line command.
#[derive(Clone, Copy, Debug, PartialEq, Eq, Structural)]
pub enum GotoOutcome {
    /// The line-number field was empty after trimming.
    EmptyInput,
    /// The field did not parse as a positive number.
    InvalidNumber,
    /// The buffer has fewer lines than the requested number.
    LineNotFound,
    /// The byte offset of the start of the requested line.
    Jump(usize),
}

/// Character offset of the start of 1-based line `target`.
pub open spec fn line_start_char(s: Seq<char>, target: int) -> int
    decreases s.len(),
{
    if target <= 1 || s.len() == 0 {
        0
    } else if s[0] == '\n' {
        1 + line_start_char(s.drop_first(), target - 1)
    } else {
        1 + line_start_char(s.drop_first(), target)
    }
}

/// Resolve a goto-line command: trim the field, parse it as a positive
/// line number, and return the byte offset of that line's start, or the
/// reason the command cannot run.
pub fn goto_line(text: &str, input: &str) -> (r: GotoOutcome)
    ensures
        ({
            let tin = trimmed(input@);
            let target = digits_value(number_body(tin));
            &&& (tin.len() == 0 ==> r == GotoOutcome::EmptyInput)
            &&& (tin.len() > 0 && (!parses_as_number(tin) || target > usize::MAX || target == 0)
                ==> r == GotoOutcome::InvalidNumber)
            &&& (tin.len() > 0 && parses_as_number(tin) && 0 < target <= usize::MAX ==> (if target
                <= 1 + newline_count(text@) {
                match r {
                    GotoOutcome::Jump(b) => b as int == prefix_bytes(
                        text@,
                        line_start_char(text@, target),
                    ),
                    _ => false,
                }
            } else {
                r == GotoOutcome::LineNotFound
            }))
        }),
{
    let tin = trim(input);
    if tin.is_empty() {
        return GotoOutcome::EmptyInput;
    }
    let parsed = parse_line_number(tin);
    match parsed {
        None => GotoOutcome::InvalidNumber,
        Some(target) => {
            if target == 0 {
                return GotoOutcome::InvalidNumber;
            }
            let n = text.unicode_len();
            let mut i: usize = 0;
            let mut cur: usize = 1;
            proof {
                assert(text@.subrange(0, 0) =~= Seq::<char>::empty());
                assert(text@.subrange(0, n as int) =~= text@);
            }
            loop
                invariant_except_break
                    1 <= cur <= target,
                    i <= n,
                    n == text@.len(),
                    newline_count(text@.subrange(0, i as int)) == cur - 1,
                    line_start_char(text@, target as int) == i + line_start_char(
                        text@.subrange(i as int, n as int),
                        target - cur + 1,
                    ),
                ensures
                    i <= n,
                    n == text@.len(),
                    newline_count(text@.subrange(0, i as int)) == cur - 1,
                    cur <= target,
                    cur == target ==> line_start_char(text@, target as int) == i,
                    cur < target ==> i == n,
                decreases n - i,
            {
                if cur == target {
                    proof {
                        assert(line_start_char(
                            text@.subrange(i as int, n as int),
                            target - cur + 1,
                        ) == 0);
                    }
                    break ;
                }
                if i >= n {
                    break ;
                }
                let c = text.get_char(i);
                proof {
                    let rest = text@.subrange(i as int, n as int);
                    assert(rest[0] == text@[i as int]);
                    assert(rest.drop_first() =~= text@.subrange(i as int + 1, n as int));
                    assert(text@.subrange(0, i as int + 1).drop_last() =~= text@.subrange(
                        0,
                        i as int,
                    ));
                    assert(text@.subrange(0, i as int + 1).last() == text@[i as int]);
                }
                if c == '\n' {
                    cur = cur + 1;
                }
                i = i + 1;
            }
            if cur != target {
                proof {
                    assert(text@.subrange(0, n as int) =~= text@);
                }
                return GotoOutcome::LineNotFound;
            }
            proof {
                lemma_newline_count_mono(text@, i as int, n as int);
                assert(text@.subrange(0, n as int) =~= text@);
            }
            let b = char_to_byte(text, i);
            GotoOutcome::Jump(b)
        },
    }
}

} // verus!
