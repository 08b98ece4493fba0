//! Numeric fields in fixed columns: from a column range of a line to the
//! number written there.
//!
//! A field is cut out of its line and trimmed. A sign that begins it is the
//! sign of its number; a sign inside it marks an exponent and is expanded
//! (`12345-3` becomes `12345e-3`, `-4` stays `-4`). What results is read as
//! a numeral.

use crate::decimal::{Decimal, MAX_NUMERAL_LEN};
use crate::numeral::{
    all_digits, count_signs, digits_end, is_digit, is_sign, lemma_count_signs_concat, lemma_numeral_bounds,
    lemma_numeral_of_complete, lemma_numeral_of_sound, lemma_numeral_signs,
    lemma_short_numeral_bounds, numeral_of, sign_at, sign_text, Numeral,
};
use crate::text::{
    chars_of, column_text, cut_columns, expand_inner_signs, expand_sign, expand_signs,
    lemma_column_text_len, lemma_skip_whitespace, lemma_skip_whitespace_back, lemma_trimmed,
    rewrite_signs, trim, trimmed,
};
use vstd::prelude::*;

verus! {

/// The widest field that is read. What a field of this width spells after
/// its signs were expanded is no longer than `MAX_NUMERAL_LEN` if it is a
/// numeral at all.
pub const MAX_FIELD_WIDTH: usize = 18;

/// The numeral that a field's text spells in the compact notation: the text
/// is trimmed and the signs inside it are expanded first.
pub open spec fn compact_numeral(text: Seq<char>) -> Option<Numeral> {
    numeral_of(expand_inner_signs(trimmed(text)))
}

/// The numeral in the columns `start .. start + len` of `line`, counted from
/// 1; `None` where the line does not hold the columns, column 0 among them,
/// or they hold no numeral.
pub open spec fn field_numeral(line: Seq<char>, start: int, len: int) -> Option<Numeral> {
    match column_text(line, start, len) {
        Some(text) => compact_numeral(text),
        None => None,
    }
}

/// The number that a field contributes: that of its numeral, and zero where
/// it has none.
pub open spec fn is_field_value(d: Decimal, numeral: Option<Numeral>) -> bool {
    match numeral {
        Some(n) => d.is_value_of(n),
        None => d == Decimal::spec_zero(),
    }
}

/// Expanding the signs adds one character for each sign and no sign.
pub proof fn lemma_expand_signs_len(s: Seq<char>)
    ensures
        expand_signs(s).len() == s.len() + count_signs(s),
        count_signs(expand_signs(s)) == count_signs(s),
    decreases s.len(),
{
    if s.len() > 0 {
        lemma_expand_signs_len(s.drop_last());
        lemma_count_signs_concat(expand_signs(s.drop_last()), expand_sign(s.last()));
        reveal_with_fuel(count_signs, 3);
        let c = s.last();
        if is_sign(c) {
            assert(expand_sign(c).drop_last() =~= seq!['e']);
            assert(seq!['e'].drop_last() =~= Seq::<char>::empty());
        } else {
            assert(expand_sign(c).drop_last() =~= Seq::<char>::empty());
        }
    }
}

/// A field with two signs or more inside it spells nothing: where the
/// expanded text is a numeral, at most one sign stood behind the first
/// character, that of the exponent, so that the text grew by one character at
/// most.
pub proof fn lemma_expanded_numeral(s: Seq<char>)
    requires
        numeral_of(expand_inner_signs(s)) is Some,
    ensures
        s.len() > 0,
        count_signs(s.drop_first()) <= 1,
        expand_inner_signs(s).len() <= s.len() + 1,
{
    let expanded = expand_inner_signs(s);
    let n = numeral_of(expanded)->0;
    if s.len() > 0 {
        let head = seq![s[0]];
        let rest = s.drop_first();
        lemma_expand_signs_len(rest);
        lemma_count_signs_concat(head, expand_signs(rest));
        assert(count_signs(head) == sign_text(sign_at(expanded, 0)).len()) by {
            reveal_with_fuel(count_signs, 2);
            assert(head.drop_last() =~= Seq::<char>::empty());
            assert(expanded[0] == s[0]);
        }
        lemma_numeral_of_sound(expanded);
        lemma_numeral_signs(n);
    }
}

/// What holds of every numeral that is read from a field of at most
/// `MAX_FIELD_WIDTH` columns: its mantissa and scale are in the range of a
/// `Decimal`.
pub proof fn lemma_field_numeral(line: Seq<char>, start: int, len: int)
    requires
        len <= MAX_FIELD_WIDTH,
        field_numeral(line, start, len) is Some,
    ensures
        field_numeral(line, start, len)->0.mantissa() < 10000000000000000000,
        -1000000000000000000 < field_numeral(line, start, len)->0.scale() < 1000000000000000000,
{
    let text = column_text(line, start, len)->0;
    lemma_column_text_len(line, start, len);
    lemma_trimmed(text);
    lemma_expanded_numeral(trimmed(text));
    lemma_numeral_bounds(expand_inner_signs(trimmed(text)));
}

/// In a text of two characters or fewer there is no room for an exponent, so
/// that it is read as it stands, with no sign expanded.
pub proof fn lemma_compact_numeral_of_two(text: Seq<char>)
    requires
        trimmed(text).len() <= 2,
    ensures
        compact_numeral(text) == numeral_of(trimmed(text)),
{
    let kept = trimmed(text);
    reveal_with_fuel(expand_signs, 3);
    reveal_with_fuel(digits_end, 4);
    if kept.len() == 2 {
        let rest = kept.drop_first();
        assert(rest.drop_last() =~= Seq::<char>::empty());
        assert(expand_signs(rest) =~= expand_sign(kept[1]));
        if is_sign(kept[1]) {
            let expanded = expand_inner_signs(kept);
            assert(expanded =~= seq![kept[0], 'e', kept[1]]);
            assert(numeral_of(expanded) is None);
            assert(numeral_of(kept) is None);
        } else {
            assert(expand_inner_signs(kept) =~= kept);
        }
    } else if kept.len() == 1 {
        assert(kept.drop_first() =~= Seq::<char>::empty());
        assert(expand_inner_signs(kept) =~= kept);
    }
}

/// A field of two columns, such as the power of ten of the drag term, is
/// read as a signed number: what its columns hold is trimmed and read as it
/// stands.
pub proof fn lemma_two_column_field(line: Seq<char>, start: int)
    ensures
        field_numeral(line, start, 2) == match column_text(line, start, 2) {
            Some(text) => numeral_of(trimmed(text)),
            None => None,
        },
{
    if column_text(line, start, 2) is Some {
        let text = column_text(line, start, 2)->0;
        lemma_column_text_len(line, start, 2);
        lemma_trimmed(text);
        lemma_compact_numeral_of_two(text);
    }
}

/// What holds of every numeral that is read from a field of two columns: its
/// mantissa is below 1000 and its scale between -12 and 9.
pub proof fn lemma_narrow_field_numeral(line: Seq<char>, start: int, len: int)
    requires
        len <= 2,
        field_numeral(line, start, len) is Some,
    ensures
        field_numeral(line, start, len)->0.mantissa() < 1000,
        -12 <= field_numeral(line, start, len)->0.scale() <= 9,
{
    let text = column_text(line, start, len)->0;
    lemma_column_text_len(line, start, len);
    lemma_trimmed(text);
    lemma_expanded_numeral(trimmed(text));
    lemma_short_numeral_bounds(expand_inner_signs(trimmed(text)));
}

/// A field that holds digits only spells the whole number that they are.
pub proof fn lemma_compact_numeral_of_digits(text: Seq<char>)
    requires
        text.len() > 0,
        all_digits(text),
    ensures
        compact_numeral(text) == Some(
            Numeral { sign: None, integer: text, fraction: None, exponent: None },
        ),
{
    assert(trimmed(text) =~= text) by {
        assert(is_digit(text[0]));
        assert(is_digit(text[text.len() - 1]));
        lemma_skip_whitespace(text, 0);
        lemma_skip_whitespace_back(text, 0, text.len() as int);
    }
    lemma_expand_signs_of_digits(text.drop_first());
    assert(expand_inner_signs(text) =~= text);
    let n = Numeral { sign: None, integer: text, fraction: None, exponent: None };
    assert(n.text() =~= text);
    lemma_numeral_of_complete(n);
}

/// Digits are left as they are when signs are expanded.
proof fn lemma_expand_signs_of_digits(s: Seq<char>)
    requires
        all_digits(s),
    ensures
        expand_signs(s) == s,
    decreases s.len(),
{
    if s.len() > 0 {
        assert(is_digit(s[s.len() - 1]));
        assert forall|i: int| 0 <= i < s.drop_last().len() implies is_digit(
            #[trigger] s.drop_last()[i],
        ) by {
            assert(s.drop_last()[i] == s[i]);
        }
        lemma_expand_signs_of_digits(s.drop_last());
        assert(s.drop_last() + seq![s.last()] =~= s);
    } else {
        assert(expand_signs(s) =~= s);
    }
}

/// Reads the number that `text` spells in the compact notation. The result
/// is `None` exactly where `text` spells none.
pub fn read_number(text: &[char]) -> (r: Option<Decimal>)
    requires
        text@.len() <= MAX_FIELD_WIDTH,
    ensures
        r is Some <==> compact_numeral(text@) is Some,
        r matches Some(d) ==> d.is_value_of(compact_numeral(text@)->0),
{
    let kept = trim(text);
    let expanded = rewrite_signs(kept.as_slice());
    proof {
        lemma_trimmed(text@);
        if numeral_of(expanded@) is Some {
            lemma_expanded_numeral(kept@);
        }
    }
    if expanded.len() > MAX_NUMERAL_LEN {
        return None;
    }
    Decimal::parse(expanded.as_slice())
}

/// Reads the number in the columns `start .. start + len` of `line`,
/// counted from 1. The result is `None` exactly where the line does not hold
/// the columns or they hold no numeral.
pub fn read_field(line: &str, start: usize, len: usize) -> (r: Option<Decimal>)
    requires
        len <= MAX_FIELD_WIDTH,
    ensures
        r is Some <==> field_numeral(line@, start as int, len as int) is Some,
        r matches Some(d) ==> d.is_value_of(field_numeral(line@, start as int, len as int)->0),
{
    match cut_columns(line, start, len) {
        Some(part) => {
            let text = chars_of(part);
            proof {
                lemma_column_text_len(line@, start as int, len as int);
            }
            read_number(text.as_slice())
        },
        None => None,
    }
}

/// Reads the number in the columns `start .. start + len` of `line`,
/// counted from 1, and takes a field that is not there, or holds no number,
/// for zero.
pub fn parse_real(line: &str, start: usize, len: usize) -> (r: Decimal)
    requires
        len <= MAX_FIELD_WIDTH,
    ensures
        is_field_value(r, field_numeral(line@, start as int, len as int)),
{
    match read_field(line, start, len) {
        Some(d) => d,
        None => Decimal::zero(),
    }
}

} // verus!
