//! Position mapper: translation between byte offsets and character offsets
//! in a UTF-8 buffer, and 1-based line/column readouts.
//!
//! The mathematical model is `vstd::utf8`: a buffer viewed as a `Seq<char>`
//! has the byte image `encode_utf8`, and the byte offset of the character
//! offset `n` is the length of the encoding of the first `n` characters
//! ([`prefix_bytes`]). All functions clamp out-of-range offsets to the end
//! of the buffer rather than failing.

use vstd::prelude::*;
use vstd::utf8::*;
use vstd::string::*;

verus! {

/// Clamp `i` to at most `n`.
pub open spec fn clamped(i: int, n: int) -> int {
    if i <= n {
        i
    } else {
        n
    }
}

/// Length in bytes of the UTF-8 encoding of a character sequence.
pub open spec fn byte_len(s: Seq<char>) -> nat {
    encode_utf8(s).len()
}

/// Byte offset of character offset `n`: the length of the encoding of the
/// first `n` characters.
pub open spec fn prefix_bytes(s: Seq<char>, n: int) -> nat
    recommends
        0 <= n <= s.len(),
{
    encode_utf8(s.subrange(0, n)).len()
}

/// Length in bytes of the UTF-8 encoding of one character.
pub open spec fn scalar_len(c: char) -> int {
    encode_scalar(c as u32).len() as int
}

/// Number of whole characters encoded in the first `b` bytes of the
/// encoding of `s`; clamps to the character count when `b` runs past the
/// end of the encoding.
pub open spec fn char_index_of(s: Seq<char>, b: int) -> nat
    decreases s.len(),
{
    if s.len() == 0 || b < scalar_len(s[0]) {
        0
    } else {
        1 + char_index_of(s.drop_first(), b - scalar_len(s[0]))
    }
}

/// Number of newline characters in `s`.
pub open spec fn newline_count(s: Seq<char>) -> nat
    decreases s.len(),
{
    if s.len() == 0 {
        0
    } else {
        newline_count(s.drop_last()) + if s.last() == '\n' {
            1nat
        } else {
            0nat
        }
    }
}

/// Number of characters in `s` after the last newline (all of `s` when it
/// has none).
pub open spec fn column_count(s: Seq<char>) -> nat
    decreases s.len(),
{
    if s.len() == 0 {
        0
    } else if s.last() == '\n' {
        0
    } else {
        1 + column_count(s.drop_last())
    }
}

/// The UTF-8 encoding of a concatenation is the concatenation of the
/// encodings.
pub proof fn lemma_encode_utf8_concat(a: Seq<char>, b: Seq<char>)
    ensures
        encode_utf8(a + b) == encode_utf8(a) + encode_utf8(b),
    decreases a.len(),
{
    if a.len() == 0 {
        assert(a + b =~= b);
        assert(encode_utf8(a) + encode_utf8(b) =~= encode_utf8(b));
    } else {
        assert((a + b).drop_first() =~= a.drop_first() + b);
        lemma_encode_utf8_concat(a.drop_first(), b);
        assert((a + b)[0] == a[0]);
        assert(encode_scalar(a[0] as u32) + (encode_utf8(a.drop_first()) + encode_utf8(b)) =~= (
        encode_scalar(a[0] as u32) + encode_utf8(a.drop_first())) + encode_utf8(b));
    }
}

/// The encoding of a single character is the encoding of its scalar value.
pub proof fn lemma_encode_utf8_singleton(c: char)
    ensures
        encode_utf8(seq![c]) == encode_scalar(c as u32),
{
    assert(seq![c].drop_first() =~= Seq::<char>::empty());
    assert(encode_scalar(c as u32) + encode_utf8(Seq::<char>::empty()) =~= encode_scalar(
        c as u32,
    ));
}

/// A character encodes to between 1 and 4 bytes.
pub proof fn lemma_scalar_len_bounds(c: char)
    ensures
        1 <= scalar_len(c) <= 4,
{
}

/// No character has started yet at byte offset 0.
pub proof fn lemma_prefix_bytes_zero(s: Seq<char>)
    ensures
        prefix_bytes(s, 0) == 0,
{
    assert(s.subrange(0, 0) =~= Seq::<char>::empty());
}

/// Extending a character prefix by one character extends its byte image by
/// that character's encoded length.
pub proof fn lemma_prefix_bytes_succ(s: Seq<char>, n: int)
    requires
        0 <= n < s.len(),
    ensures
        prefix_bytes(s, n + 1) == prefix_bytes(s, n) + scalar_len(s[n]),
{
    assert(s.subrange(0, n + 1) =~= s.subrange(0, n) + seq![s[n]]);
    lemma_encode_utf8_concat(s.subrange(0, n), seq![s[n]]);
    lemma_encode_utf8_singleton(s[n]);
}

/// Removing the first character shifts every prefix byte offset down by its
/// encoded length.
pub proof fn lemma_prefix_bytes_drop_first(s: Seq<char>, n: int)
    requires
        1 <= n <= s.len(),
    ensures
        prefix_bytes(s, n) == scalar_len(s[0]) + prefix_bytes(s.drop_first(), n - 1),
{
    assert(s.subrange(0, n) =~= seq![s[0]] + s.drop_first().subrange(0, n - 1));
    lemma_encode_utf8_concat(seq![s[0]], s.drop_first().subrange(0, n - 1));
    lemma_encode_utf8_singleton(s[0]);
}

/// Byte offsets grow strictly with character offsets, by between 1 and 4
/// bytes per character.
pub proof fn lemma_prefix_bytes_bounds(s: Seq<char>, n: int, m: int)
    requires
        0 <= n <= m <= s.len(),
    ensures
        prefix_bytes(s, n) + (m - n) <= prefix_bytes(s, m),
        prefix_bytes(s, m) <= prefix_bytes(s, n) + 4 * (m - n),
    decreases m - n,
{
    if m > n {
        lemma_prefix_bytes_bounds(s, n, m - 1);
        lemma_prefix_bytes_succ(s, m - 1);
        lemma_scalar_len_bounds(s[m - 1]);
    }
}

/// The byte offset of the final character offset is the whole encoding.
pub proof fn lemma_prefix_bytes_full(s: Seq<char>)
    ensures
        prefix_bytes(s, s.len() as int) == byte_len(s),
{
    assert(s.subrange(0, s.len() as int) =~= s);
}

/// The bytes of a character's encoding past the first are continuation
/// bytes.
proof fn lemma_encode_scalar_continuation(c: char, k: int)
    requires
        1 <= k < scalar_len(c),
    ensures
        is_continuation_byte(encode_scalar(c as u32)[k]),
{
    let u = c as u32;
    char_is_scalar(c);
    lemma_continuation_byte_form(u);
    lemma_continuation_byte_form(u >> 6);
    lemma_continuation_byte_form(u >> 12);
}

/// A byte of the form `0x80 | (x & 0x3f)` is a continuation byte.
proof fn lemma_continuation_byte_form(x: u32)
    by (bit_vector)
    ensures
        0x80 <= (0x80 | ((x & 0x3f) as u8)) <= 0xbf,
{
}

/// A byte offset strictly inside one character's encoding is not a
/// character boundary.
pub proof fn lemma_no_boundary_inside_scalar(s: Seq<char>, n: int, t: int)
    requires
        0 <= n < s.len(),
        prefix_bytes(s, n) < t < prefix_bytes(s, n + 1),
    ensures
        !is_char_boundary(encode_utf8(s), t),
{
    let bytes = encode_utf8(s);
    encode_utf8_valid_utf8(s);
    lemma_prefix_bytes_succ(s, n);
    lemma_prefix_bytes_bounds(s, n + 1, s.len() as int);
    lemma_prefix_bytes_full(s);
    assert(s =~= s.subrange(0, n) + seq![s[n]] + s.subrange(n + 1, s.len() as int));
    lemma_encode_utf8_concat(s.subrange(0, n) + seq![s[n]], s.subrange(n + 1, s.len() as int));
    lemma_encode_utf8_concat(s.subrange(0, n), seq![s[n]]);
    lemma_encode_utf8_singleton(s[n]);
    let k = t - prefix_bytes(s, n);
    assert(bytes[t] == encode_scalar(s[n] as u32)[k]);
    lemma_encode_scalar_continuation(s[n], k);
    is_char_boundary_iff_not_is_continuation_byte(bytes, t);
}

/// Every whole-character byte offset is a character boundary.
pub proof fn lemma_prefix_is_boundary(s: Seq<char>, n: int)
    requires
        0 <= n <= s.len(),
    ensures
        is_char_boundary(encode_utf8(s), prefix_bytes(s, n) as int),
    decreases n,
{
    encode_utf8_valid_utf8(s);
    if n == 0 {
        lemma_prefix_bytes_zero(s);
    } else {
        let bytes = encode_utf8(s);
        let b = prefix_bytes(s, n) as int;
        lemma_prefix_bytes_bounds(s, 0, n);
        lemma_prefix_bytes_zero(s);
        encode_utf8_first_scalar(s);
        assert(pop_first_scalar(bytes) =~= encode_utf8(s.drop_first()));
        lemma_prefix_bytes_drop_first(s, n);
        lemma_prefix_is_boundary(s.drop_first(), n - 1);
        lemma_prefix_bytes_bounds(s.drop_first(), n - 1, s.drop_first().len() as int);
        lemma_prefix_bytes_full(s.drop_first());
    }
}

/// Round-trip: a byte offset on a character boundary, converted to the
/// character offset of its prefix and back to a byte offset, returns the
/// same offset.
pub proof fn lemma_char_byte_round_trip(s: Seq<char>, b: int)
    requires
        0 <= b <= byte_len(s),
        is_char_boundary(encode_utf8(s), b),
    ensures
        char_index_of(s, b) <= s.len(),
        prefix_bytes(s, char_index_of(s, b) as int) == b,
    decreases s.len(),
{
    encode_utf8_valid_utf8(s);
    let bytes = encode_utf8(s);
    if b == 0 {
        lemma_prefix_bytes_zero(s);
        if s.len() > 0 {
            lemma_scalar_len_bounds(s[0]);
        }
    } else {
        assert(s.len() > 0);
        encode_utf8_first_scalar(s);
        assert(pop_first_scalar(bytes) =~= encode_utf8(s.drop_first()));
        let sl = scalar_len(s[0]);
        if b < sl {
            // boundary recursion would reach a negative index
            reveal_with_fuel(is_char_boundary, 2);
            assert(!is_char_boundary(bytes, b));
        } else {
            assert(is_char_boundary(encode_utf8(s.drop_first()), b - sl));
            lemma_char_byte_round_trip(s.drop_first(), b - sl);
            lemma_prefix_bytes_drop_first(s, char_index_of(s, b) as int);
        }
    }
}

/// A byte offset at or past the end of the encoding covers every character.
pub proof fn lemma_char_index_of_clamp(s: Seq<char>, b: int)
    requires
        b >= byte_len(s),
    ensures
        char_index_of(s, b) == s.len(),
    decreases s.len(),
{
    if s.len() > 0 {
        lemma_char_index_of_clamp(s.drop_first(), b - scalar_len(s[0]));
    }
}

/// The character offset of a whole-character byte prefix is the number of
/// characters in it.
pub proof fn lemma_char_index_of_prefix(s: Seq<char>, n: int)
    requires
        0 <= n <= s.len(),
    ensures
        char_index_of(s, prefix_bytes(s, n) as int) == n,
    decreases n,
{
    if n == 0 {
        lemma_prefix_bytes_zero(s);
        if s.len() > 0 {
            lemma_scalar_len_bounds(s[0]);
        }
    } else {
        lemma_prefix_bytes_drop_first(s, n);
        lemma_prefix_bytes_bounds(s.drop_first(), 0, n - 1);
        lemma_prefix_bytes_zero(s.drop_first());
        lemma_char_index_of_prefix(s.drop_first(), n - 1);
    }
}

/// A longer prefix never holds fewer newlines.
pub proof fn lemma_newline_count_mono(s: Seq<char>, i: int, j: int)
    requires
        0 <= i <= j <= s.len(),
    ensures
        newline_count(s.subrange(0, i)) <= newline_count(s.subrange(0, j)),
    decreases j - i,
{
    if j > i {
        lemma_newline_count_mono(s, i, j - 1);
        assert(s.subrange(0, j).drop_last() =~= s.subrange(0, j - 1));
    }
}

/// Number of bytes in the UTF-8 encoding of one character.
pub fn char_len_utf8(c: char) -> (n: usize)
    ensures
        n as int == scalar_len(c),
{
    let u = c as u32;
    proof {
        char_is_scalar(c);
    }
    if u < 0x80 {
        1
    } else if u < 0x800 {
        2
    } else if u < 0x10000 {
        3
    } else {
        4
    }
}

/// Byte offset of the character offset `char_index`, clamped to the end of
/// the buffer when `char_index` exceeds the character count.
pub fn char_to_byte(text: &str, char_index: usize) -> (b: usize)
    ensures
        b as int == prefix_bytes(text@, clamped(char_index as int, text@.len() as int)),
        char_index >= text@.len() ==> b as int == byte_len(text@),
{
    let nchars = text.unicode_len();
    let target = if char_index < nchars {
        char_index
    } else {
        nchars
    };
    let total = text.as_bytes().len();
    proof {
        lemma_prefix_bytes_full(text@);
        lemma_prefix_bytes_zero(text@);
    }
    let mut i: usize = 0;
    let mut b: usize = 0;
    while i < target
        invariant
            i <= target <= text@.len(),
            target as int == clamped(char_index as int, text@.len() as int),
            b as int == prefix_bytes(text@, i as int),
            total as int == byte_len(text@),
        decreases target - i,
    {
        let c = text.get_char(i);
        let cl = char_len_utf8(c);
        proof {
            lemma_prefix_bytes_succ(text@, i as int);
            lemma_prefix_bytes_bounds(text@, i as int + 1, text@.len() as int);
            lemma_prefix_bytes_full(text@);
        }
        b = b + cl;
        i = i + 1;
    }
    b
}

/// Number of characters in the byte prefix of length `byte_index`, clamped
/// to the byte length of the buffer. An in-range `byte_index` must lie on a
/// character boundary.
pub fn count_chars(text: &str, byte_index: usize) -> (r: usize)
    requires
        (byte_index as int) < byte_len(text@) ==> is_char_boundary(
            encode_utf8(text@),
            byte_index as int,
        ),
    ensures
        r <= text@.len(),
        r as nat == char_index_of(text@, byte_index as int),
        prefix_bytes(text@, r as int) == clamped(byte_index as int, byte_len(text@) as int),
        byte_index as int >= byte_len(text@) ==> r as int == text@.len(),
{
    let total = text.as_bytes().len();
    let target = if byte_index < total {
        byte_index
    } else {
        total
    };
    proof {
        lemma_prefix_bytes_full(text@);
        lemma_prefix_bytes_zero(text@);
    }
    let mut i: usize = 0;
    let mut b: usize = 0;
    while b < target
        invariant
            i <= text@.len(),
            i <= b,
            b as int == prefix_bytes(text@, i as int),
            b <= target <= total,
            total as int == byte_len(text@),
            target as int == clamped(byte_index as int, total as int),
            (target as int) < byte_len(text@) ==> is_char_boundary(
                encode_utf8(text@),
                target as int,
            ),
        decreases target - b,
    {
        proof {
            lemma_prefix_bytes_full(text@);
            if i as int == text@.len() {
                assert(b as int == byte_len(text@));
            }
        }
        let c = text.get_char(i);
        let cl = char_len_utf8(c);
        proof {
            lemma_prefix_bytes_succ(text@, i as int);
            lemma_prefix_bytes_bounds(text@, i as int + 1, text@.len() as int);
            lemma_prefix_bytes_full(text@);
            lemma_scalar_len_bounds(text@[i as int]);
            if b + cl > target {
                lemma_no_boundary_inside_scalar(text@, i as int, target as int);
            }
        }
        b = b + cl;
        i = i + 1;
    }
    proof {
        lemma_char_index_of_prefix(text@, i as int);
        if byte_index as int >= byte_len(text@) {
            lemma_char_index_of_clamp(text@, byte_index as int);
            lemma_prefix_bytes_bounds(text@, i as int, text@.len() as int);
            lemma_prefix_bytes_full(text@);
        }
    }
    i
}

/// 1-based line number at a byte offset: one more than the number of
/// newlines strictly before the (clamped) offset.
pub fn line_from_bytes(text: &str, byte_index: usize) -> (line: usize)
    requires
        text@.len() < usize::MAX,
        (byte_index as int) < byte_len(text@) ==> is_char_boundary(
            encode_utf8(text@),
            byte_index as int,
        ),
    ensures
        line as int == 1 + newline_count(
            text@.subrange(0, char_index_of(text@, byte_index as int) as int),
        ),
{
    let n = count_chars(text, byte_index);
    let mut i: usize = 0;
    let mut cnt: usize = 0;
    proof {
        assert(text@.subrange(0, 0) =~= Seq::<char>::empty());
    }
    while i < n
        invariant
            i <= n <= text@.len(),
            cnt <= i,
            cnt as nat == newline_count(text@.subrange(0, i as int)),
        decreases n - i,
    {
        let c = text.get_char(i);
        proof {
            assert(text@.subrange(0, i as int + 1).drop_last() =~= text@.subrange(0, i as int));
            assert(text@.subrange(0, i as int + 1).last() == text@[i as int]);
        }
        if c == '\n' {
            cnt = cnt + 1;
        }
        i = i + 1;
    }
    cnt + 1
}

/// 1-based column number at a byte offset: one more than the number of
/// characters since the last newline before the (clamped) offset.
pub fn column_from_bytes(text: &str, byte_index: usize) -> (col: usize)
    requires
        text@.len() < usize::MAX,
        (byte_index as int) < byte_len(text@) ==> is_char_boundary(
            encode_utf8(text@),
            byte_index as int,
        ),
    ensures
        col as int == 1 + column_count(
            text@.subrange(0, char_index_of(text@, byte_index as int) as int),
        ),
{
    let n = count_chars(text, byte_index);
    let mut i: usize = 0;
    let mut cnt: usize = 0;
    proof {
        assert(text@.subrange(0, 0) =~= Seq::<char>::empty());
    }
    while i < n
        invariant
            i <= n <= text@.len(),
            cnt <= i,
            cnt as nat == column_count(text@.subrange(0, i as int)),
        decreases n - i,
    {
        let c = text.get_char(i);
        proof {
            assert(text@.subrange(0, i as int + 1).drop_last() =~= text@.subrange(0, i as int));
            assert(text@.subrange(0, i as int + 1).last() == text@[i as int]);
        }
        if c == '\n' {
            cnt = 0;
        } else {
            cnt = cnt + 1;
        }
        i = i + 1;
    }
    cnt + 1
}

} // verus!
