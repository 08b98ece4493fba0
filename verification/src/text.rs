//! Character-level handling of fixed-column text: cutting a column range out
//! of a line, trimming white space, and expanding the compact sign notation,
//! in which a sign inside a number marks its exponent.

use vstd::prelude::*;
use vstd::string::StringSliceAdditionalSpecFns;
use vstd::utf8::*;

verus! {

/// True for the characters that are removed when a field is trimmed: the
/// Unicode `White_Space` code points.
pub open spec fn is_whitespace(c: char) -> bool {
    ||| c == ' '
    ||| ('\t' <= c && c <= '\r')
    ||| c == '\u{85}'
    ||| c == '\u{a0}'
    ||| c == '\u{1680}'
    ||| ('\u{2000}' <= c && c <= '\u{200a}')
    ||| c == '\u{2028}'
    ||| c == '\u{2029}'
    ||| c == '\u{202f}'
    ||| c == '\u{205f}'
    ||| c == '\u{3000}'
}

/// Index of the first character at or after `from` that is not white space,
/// or the length of `s` if there is none.
pub open spec fn skip_whitespace(s: Seq<char>, from: int) -> int
    decreases s.len() - from,
{
    if 0 <= from < s.len() && is_whitespace(s[from]) {
        skip_whitespace(s, from + 1)
    } else {
        from
    }
}

/// Index just past the last character before `to` that is not white space,
/// never going below `floor`.
pub open spec fn skip_whitespace_back(s: Seq<char>, floor: int, to: int) -> int
    decreases to - floor,
{
    if floor < to <= s.len() && 0 <= to - 1 && is_whitespace(s[to - 1]) {
        skip_whitespace_back(s, floor, to - 1)
    } else {
        to
    }
}

/// Where the trimmed text begins in `s`.
pub open spec fn trim_start(s: Seq<char>) -> int {
    skip_whitespace(s, 0)
}

/// Where the trimmed text ends in `s`.
pub open spec fn trim_end(s: Seq<char>) -> int {
    skip_whitespace_back(s, trim_start(s), s.len() as int)
}

/// `s` without its leading and trailing white space.
pub open spec fn trimmed(s: Seq<char>) -> Seq<char> {
    s.subrange(trim_start(s), trim_end(s))
}

/// What one character becomes when the compact sign notation is expanded: a
/// sign gets an exponent marker in front of it, anything else stays.
pub open spec fn expand_sign(c: char) -> Seq<char> {
    if c == '-' {
        seq!['e', '-']
    } else if c == '+' {
        seq!['e', '+']
    } else {
        seq![c]
    }
}

/// `s` with every `-` replaced by `e-` and every `+` by `e+`.
pub open spec fn expand_signs(s: Seq<char>) -> Seq<char>
    decreases s.len(),
{
    if s.len() == 0 {
        Seq::empty()
    } else {
        expand_signs(s.drop_last()) + expand_sign(s.last())
    }
}

/// `s` in the usual notation: a sign that begins the text is the sign of the
/// number and stays as it is; every sign after it marks an exponent and gets
/// the marker in front of it.
pub open spec fn expand_inner_signs(s: Seq<char>) -> Seq<char> {
    if s.len() == 0 {
        s
    } else {
        seq![s[0]] + expand_signs(s.drop_first())
    }
}

/// The characters that the bytes `start - 1 .. start - 1 + len` of the UTF-8
/// form of `line` spell, with columns counted from 1. There is no such text
/// when the range begins before column 1, runs past the end of the line or
/// cuts a character in two.
pub open spec fn column_text(line: Seq<char>, start: int, len: int) -> Option<Seq<char>> {
    let bytes = encode_utf8(line);
    let from = start - 1;
    let to = start - 1 + len;
    if 0 <= from <= to <= bytes.len() && is_char_boundary(bytes, from) && is_char_boundary(
        bytes,
        to,
    ) {
        Some(decode_utf8(bytes.subrange(from, to)))
    } else {
        None
    }
}

/// Where a run of white space that starts at `from` ends: every character
/// before the end is white space, and the run cannot be extended.
pub proof fn lemma_skip_whitespace(s: Seq<char>, from: int)
    requires
        0 <= from <= s.len(),
    ensures
        from <= skip_whitespace(s, from) <= s.len(),
        forall|k: int| from <= k < skip_whitespace(s, from) ==> is_whitespace(#[trigger] s[k]),
        skip_whitespace(s, from) < s.len() ==> !is_whitespace(s[skip_whitespace(s, from)]),
    decreases s.len() - from,
{
    if from < s.len() && is_whitespace(s[from]) {
        lemma_skip_whitespace(s, from + 1);
    }
}

/// The backward counterpart of `lemma_skip_whitespace`.
pub proof fn lemma_skip_whitespace_back(s: Seq<char>, floor: int, to: int)
    requires
        0 <= floor <= to <= s.len(),
    ensures
        floor <= skip_whitespace_back(s, floor, to) <= to,
        forall|k: int|
            skip_whitespace_back(s, floor, to) <= k < to ==> is_whitespace(#[trigger] s[k]),
        floor < skip_whitespace_back(s, floor, to) ==> !is_whitespace(
            s[skip_whitespace_back(s, floor, to) - 1],
        ),
    decreases to - floor,
{
    if floor < to && is_whitespace(s[to - 1]) {
        lemma_skip_whitespace_back(s, floor, to - 1);
    }
}

/// Trimming keeps a contiguous part of the text, drops white space only, and
/// leaves no white space at either end of what it keeps.
pub proof fn lemma_trimmed(s: Seq<char>)
    ensures
        0 <= trim_start(s) <= trim_end(s) <= s.len(),
        forall|k: int| 0 <= k < trim_start(s) ==> is_whitespace(#[trigger] s[k]),
        forall|k: int| trim_end(s) <= k < s.len() ==> is_whitespace(#[trigger] s[k]),
        trimmed(s).len() > 0 ==> !is_whitespace(trimmed(s).first()) && !is_whitespace(
            trimmed(s).last(),
        ),
{
    lemma_skip_whitespace(s, 0);
    lemma_skip_whitespace_back(s, trim_start(s), s.len() as int);
}

/// Expanding the signs of a text that is extended by one character.
pub proof fn lemma_expand_signs_push(s: Seq<char>, c: char)
    ensures
        expand_signs(s.push(c)) == expand_signs(s) + expand_sign(c),
{
    assert(s.push(c).drop_last() =~= s);
}

/// On a line of ASCII characters a column is a character: the range is
/// there whenever the line is long enough, and it is that part of the line.
pub proof fn lemma_column_text_ascii(line: Seq<char>, start: int, len: int)
    requires
        is_ascii_chars(line),
        1 <= start,
        0 <= len,
    ensures
        column_text(line, start, len) == if start - 1 + len <= line.len() {
            Some(line.subrange(start - 1, start - 1 + len))
        } else {
            None::<Seq<char>>
        },
{
    let bytes = encode_utf8(line);
    let from = start - 1;
    let to = start - 1 + len;
    is_ascii_chars_encode_utf8(line);
    encode_utf8_valid_utf8(line);
    if to <= line.len() {
        is_char_boundary_start_end_of_seq(bytes);
        if from < bytes.len() {
            is_char_boundary_iff_not_is_continuation_byte(bytes, from);
        }
        if to < bytes.len() {
            is_char_boundary_iff_not_is_continuation_byte(bytes, to);
        }
        let part = line.subrange(from, to);
        is_ascii_chars_encode_utf8(part);
        assert(encode_utf8(part) =~= bytes.subrange(from, to));
        encode_utf8_decode_utf8(part);
    }
}

/// A character boundary of a text is also one of each prefix that reaches
/// at least as far and itself ends on a boundary.
proof fn lemma_boundary_in_prefix(bytes: Seq<u8>, from: int, to: int)
    requires
        valid_utf8(bytes),
        0 <= from <= to <= bytes.len(),
        is_char_boundary(bytes, from),
        is_char_boundary(bytes, to),
    ensures
        valid_utf8(bytes.subrange(0, to)),
        is_char_boundary(bytes.subrange(0, to), from),
{
    valid_utf8_split(bytes, to);
    let head = bytes.subrange(0, to);
    if from == to {
        is_char_boundary_start_end_of_seq(head);
    } else {
        is_char_boundary_iff_not_is_continuation_byte(bytes, from);
        is_char_boundary_iff_not_is_continuation_byte(head, from);
    }
}

/// A text has no more characters than its UTF-8 form has bytes.
pub proof fn lemma_chars_at_most_bytes(chars: Seq<char>)
    ensures
        chars.len() <= encode_utf8(chars).len(),
    decreases chars.len(),
{
    if chars.len() > 0 {
        lemma_chars_at_most_bytes(chars.drop_first());
    }
}

/// The text in a column range is no longer than the range.
pub proof fn lemma_column_text_len(line: Seq<char>, start: int, len: int)
    requires
        column_text(line, start, len) is Some,
    ensures
        column_text(line, start, len)->0.len() <= len,
{
    let bytes = encode_utf8(line);
    let from = start - 1;
    let to = start - 1 + len;
    let part = bytes.subrange(from, to);
    encode_utf8_valid_utf8(line);
    lemma_boundary_in_prefix(bytes, from, to);
    valid_utf8_split(bytes.subrange(0, to), from);
    assert(bytes.subrange(0, to).subrange(from, to) =~= part);
    decode_utf8_encode_utf8(part);
    lemma_chars_at_most_bytes(decode_utf8(part));
}

/// Decides whether `c` is white space.
pub fn whitespace(c: char) -> (r: bool)
    ensures
        r == is_whitespace(c),
{
    c == ' ' || ('\t' <= c && c <= '\r') || c == '\u{85}' || c == '\u{a0}' || c == '\u{1680}' || (
    '\u{2000}' <= c && c <= '\u{200a}') || c == '\u{2028}' || c == '\u{2029}' || c == '\u{202f}'
        || c == '\u{205f}' || c == '\u{3000}'
}

/// The characters of `s`, one by one.
pub fn chars_of(s: &str) -> (r: Vec<char>)
    ensures
        r@ == s@,
{
    let mut out: Vec<char> = Vec::new();
    for c in it: s.chars()
        invariant
            out@ == it.seq().take(it.index()),
            it.seq() == s@,
    {
        out.push(c);
    }
    out
}

/// Removes leading and trailing white space.
pub fn trim(text: &[char]) -> (r: Vec<char>)
    ensures
        r@ == trimmed(text@),
{
    let n: usize = text.len();
    let mut first: usize = 0;
    while first < n && whitespace(text[first])
        invariant
            n == text@.len(),
            0 <= first <= n,
            skip_whitespace(text@, first as int) == trim_start(text@),
        decreases n - first,
    {
        first += 1;
    }
    let mut last: usize = n;
    while last > first && whitespace(text[last - 1])
        invariant
            n == text@.len(),
            first == trim_start(text@),
            first <= last <= n,
            skip_whitespace_back(text@, first as int, last as int) == trim_end(text@),
        decreases last - first,
    {
        last -= 1;
    }
    let mut out: Vec<char> = Vec::new();
    let mut i: usize = first;
    while i < last
        invariant
            first <= i <= last <= text@.len(),
            out@ == text@.subrange(first as int, i as int),
        decreases last - i,
    {
        out.push(text[i]);
        i += 1;
    }
    out
}

/// Expands the compact sign notation: a `-` or `+` inside the text becomes
/// `e-` or `e+`; one that begins the text stays as it is.
pub fn rewrite_signs(text: &[char]) -> (r: Vec<char>)
    ensures
        r@ == expand_inner_signs(text@),
{
    let n: usize = text.len();
    let mut out: Vec<char> = Vec::new();
    if n == 0 {
        return out;
    }
    out.push(text[0]);
    let ghost rest = text@.drop_first();
    let mut i: usize = 1;
    proof {
        assert(rest.take(0) =~= Seq::<char>::empty());
        assert(expand_signs(rest.take(0)) =~= Seq::<char>::empty());
    }
    while i < n
        invariant
            n == text@.len(),
            1 <= i <= n,
            rest == text@.drop_first(),
            out@ == seq![text@[0]] + expand_signs(rest.take(i - 1)),
        decreases n - i,
    {
        let c = text[i];
        proof {
            lemma_expand_signs_push(rest.take(i - 1), c);
            assert(rest.take(i - 1).push(c) =~= rest.take(i as int));
        }
        if c == '-' || c == '+' {
            out.push('e');
        }
        out.push(c);
        i += 1;
    }
    proof {
        assert(rest.take(n - 1) =~= rest);
    }
    out
}

/// Cuts the columns `start .. start + len` out of `line`, counted from 1 in
/// bytes, if the line holds them and they begin and end between characters.
pub fn cut_columns<'a>(line: &'a str, start: usize, len: usize) -> (r: Option<&'a str>)
    ensures
        r is Some <==> column_text(line@, start as int, len as int) is Some,
        r matches Some(t) ==> Some(t@) == column_text(line@, start as int, len as int),
{
    let size: usize = line.as_bytes().len();
    if start == 0 || len > size || start - 1 > size - len {
        return None;
    }
    let from: usize = start - 1;
    let to: usize = from + len;
    proof {
        encode_utf8_valid_utf8(line@);
    }
    if line.is_char_boundary(from) && line.is_char_boundary(to) {
        proof {
            lemma_boundary_in_prefix(line.spec_bytes(), from as int, to as int);
        }
        let (head, _) = line.split_at(to);
        let (_, field) = head.split_at(from);
        proof {
            assert(field.spec_bytes() =~= line.spec_bytes().subrange(from as int, to as int));
            encode_utf8_decode_utf8(field@);
        }
        Some(field)
    } else {
        None
    }
}

} // verus!
