//! The grammar of decimal numerals with an optional exponent, and the
//! numeral that a text spells.
//!
//! ```text
//! Numeral  ::= Sign? ( Digit+ | Digit+ '.' Digit* | Digit* '.' Digit+ ) Exponent?
//! Exponent ::= ( 'e' | 'E' ) Sign? Digit+
//! Sign     ::= '+' | '-'
//! Digit    ::= '0' ... '9'
//! ```

use vstd::prelude::*;

verus! {

/// `c` is one of the ten digits.
pub open spec fn is_digit(c: char) -> bool {
    '0' <= c && c <= '9'
}

/// `c` is a plus or a minus sign.
pub open spec fn is_sign(c: char) -> bool {
    c == '+' || c == '-'
}

/// `c` is the letter that begins an exponent.
pub open spec fn is_exponent_marker(c: char) -> bool {
    c == 'e' || c == 'E'
}

/// The number that a digit stands for; 0 for any other character.
pub open spec fn digit_value(c: char) -> nat {
    if is_digit(c) {
        (c as int - '0' as int) as nat
    } else {
        0
    }
}

/// `s` holds digits only.
pub open spec fn all_digits(s: Seq<char>) -> bool {
    forall|i: int| 0 <= i < s.len() ==> is_digit(#[trigger] s[i])
}

/// The number that a string of digits spells in base ten; the empty string
/// spells 0.
pub open spec fn digits_value(s: Seq<char>) -> nat
    decreases s.len(),
{
    if s.len() == 0 {
        0
    } else {
        10 * digits_value(s.drop_last()) + digit_value(s.last())
    }
}

/// Ten to the power `k`.
pub open spec fn pow10(k: nat) -> nat
    decreases k,
{
    if k == 0 {
        1
    } else {
        10 * pow10((k - 1) as nat)
    }
}

/// The text of an optional sign.
pub open spec fn sign_text(sign: Option<char>) -> Seq<char> {
    match sign {
        Some(c) => seq![c],
        None => Seq::empty(),
    }
}

/// The exponent part of a numeral.
pub struct Exponent {
    pub marker: char,
    pub sign: Option<char>,
    pub digits: Seq<char>,
}

/// A numeral, taken apart as the grammar reads it.
pub struct Numeral {
    pub sign: Option<char>,
    /// The digits before the point.
    pub integer: Seq<char>,
    /// The digits after the point, where there is a point.
    pub fraction: Option<Seq<char>>,
    pub exponent: Option<Exponent>,
}

impl Exponent {
    /// The grammar: a marker, at most a sign, and at least one digit.
    pub open spec fn well_formed(self) -> bool {
        &&& is_exponent_marker(self.marker)
        &&& (self.sign matches Some(c) ==> is_sign(c))
        &&& self.digits.len() > 0
        &&& all_digits(self.digits)
    }

    /// The text that spells this exponent.
    pub open spec fn text(self) -> Seq<char> {
        seq![self.marker] + sign_text(self.sign) + self.digits
    }

    /// The whole number that the exponent states.
    pub open spec fn value(self) -> int {
        if self.sign == Some('-') {
            -(digits_value(self.digits) as int)
        } else {
            digits_value(self.digits) as int
        }
    }
}

impl Numeral {
    /// The digits after the point; none where there is no point.
    pub open spec fn fraction_digits(self) -> Seq<char> {
        match self.fraction {
            Some(f) => f,
            None => Seq::empty(),
        }
    }

    /// The grammar: digits only where digits belong, at least one digit in
    /// front of the exponent, at least one in it.
    pub open spec fn well_formed(self) -> bool {
        &&& (self.sign matches Some(c) ==> is_sign(c))
        &&& all_digits(self.integer)
        &&& all_digits(self.fraction_digits())
        &&& self.integer.len() + self.fraction_digits().len() > 0
        &&& (self.exponent matches Some(x) ==> x.well_formed())
    }

    /// The point and the digits after it, as they are written.
    pub open spec fn fraction_text(self) -> Seq<char> {
        match self.fraction {
            Some(f) => seq!['.'] + f,
            None => Seq::empty(),
        }
    }

    /// The exponent as it is written; nothing where there is none.
    pub open spec fn exponent_text(self) -> Seq<char> {
        match self.exponent {
            Some(x) => x.text(),
            None => Seq::empty(),
        }
    }

    /// The text that spells this numeral.
    pub open spec fn text(self) -> Seq<char> {
        sign_text(self.sign) + self.integer + self.fraction_text() + self.exponent_text()
    }

    /// The numeral has a minus sign.
    pub open spec fn negative(self) -> bool {
        self.sign == Some('-')
    }

    /// All the digits in front of the exponent, read as one whole number.
    pub open spec fn mantissa(self) -> nat {
        digits_value(self.integer + self.fraction_digits())
    }

    /// The power of ten that scales the mantissa: the written exponent,
    /// less one for each digit after the point. The numeral stands for
    /// `mantissa() * 10 ^ scale()`, negated where `negative()`.
    pub open spec fn scale(self) -> int {
        (match self.exponent {
            Some(x) => x.value(),
            None => 0,
        }) - self.fraction_digits().len()
    }
}

/// End of the longest run of digits in `s` that starts at `from`.
pub open spec fn digits_end(s: Seq<char>, from: int) -> int
    decreases s.len() - from,
{
    if 0 <= from < s.len() && is_digit(s[from]) {
        digits_end(s, from + 1)
    } else {
        from
    }
}

/// The sign at position `at` of `s`, if there is one.
pub open spec fn sign_at(s: Seq<char>, at: int) -> Option<char> {
    if 0 <= at < s.len() && is_sign(s[at]) {
        Some(s[at])
    } else {
        None
    }
}

/// The exponent that begins at position `at` of `s` and runs to its end.
pub open spec fn exponent_of(s: Seq<char>, at: int) -> Option<Exponent> {
    let sign = sign_at(s, at + 1);
    let from = at + 1 + sign_text(sign).len();
    let to = digits_end(s, from);
    if 0 <= at < s.len() && is_exponent_marker(s[at]) && from < to && to == s.len() {
        Some(Exponent { marker: s[at], sign, digits: s.subrange(from, to) })
    } else {
        None
    }
}

/// The numeral that `s` spells, read from left to right; `None` where `s`
/// is not a numeral.
pub open spec fn numeral_of(s: Seq<char>) -> Option<Numeral> {
    let sign = sign_at(s, 0);
    let int_from = sign_text(sign).len() as int;
    let int_to = digits_end(s, int_from);
    let point = int_to < s.len() && s[int_to] == '.';
    let frac_from = if point {
        int_to + 1
    } else {
        int_to
    };
    let frac_to = digits_end(s, frac_from);
    let integer = s.subrange(int_from, int_to);
    let fraction = if point {
        Some(s.subrange(frac_from, frac_to))
    } else {
        None
    };
    if (int_to - int_from) + (frac_to - frac_from) == 0 {
        None
    } else if frac_to == s.len() {
        Some(Numeral { sign, integer, fraction, exponent: None })
    } else {
        match exponent_of(s, frac_to) {
            Some(x) => Some(Numeral { sign, integer, fraction, exponent: Some(x) }),
            None => None,
        }
    }
}

/// How many characters of `s` are signs.
pub open spec fn count_signs(s: Seq<char>) -> nat
    decreases s.len(),
{
    if s.len() == 0 {
        0
    } else {
        count_signs(s.drop_last()) + if is_sign(s.last()) {
            1nat
        } else {
            0nat
        }
    }
}

/// A power of ten is at least 1.
pub proof fn lemma_pow10_positive(k: nat)
    ensures
        pow10(k) >= 1,
    decreases k,
{
    if k > 0 {
        lemma_pow10_positive((k - 1) as nat);
    }
}

/// Powers of ten multiply by adding their exponents.
pub proof fn lemma_pow10_add(a: nat, b: nat)
    ensures
        pow10(a + b) == pow10(a) * pow10(b),
    decreases b,
{
    if b == 0 {
        assert(pow10(a) * 1 == pow10(a));
    } else {
        lemma_pow10_add(a, (b - 1) as nat);
        assert(pow10(a + b) == 10 * pow10((a + b - 1) as nat));
        assert(10 * (pow10(a) * pow10((b - 1) as nat)) == pow10(a) * (10 * pow10((b - 1) as nat)))
            by (nonlinear_arith);
    }
}

/// A higher power of ten is not smaller.
pub proof fn lemma_pow10_monotonic(a: nat, b: nat)
    requires
        a <= b,
    ensures
        pow10(a) <= pow10(b),
    decreases b,
{
    if a < b {
        lemma_pow10_monotonic(a, (b - 1) as nat);
    }
}

/// A run of digits ends inside the text, holds digits only, and cannot be
/// extended.
pub proof fn lemma_digits_end(s: Seq<char>, from: int)
    requires
        0 <= from <= s.len(),
    ensures
        from <= digits_end(s, from) <= s.len(),
        all_digits(s.subrange(from, digits_end(s, from))),
        digits_end(s, from) < s.len() ==> !is_digit(s[digits_end(s, from)]),
    decreases s.len() - from,
{
    if from < s.len() && is_digit(s[from]) {
        lemma_digits_end(s, from + 1);
        let to = digits_end(s, from);
        assert forall|i: int| 0 <= i < to - from implies is_digit(
            #[trigger] s.subrange(from, to)[i],
        ) by {
            if i > 0 {
                assert(s.subrange(from + 1, to)[i - 1] == s[from + i]);
            }
        }
    }
}

/// A run of digits is fixed by what it holds and by what follows it.
pub proof fn lemma_digits_end_unique(s: Seq<char>, from: int, to: int)
    requires
        0 <= from <= to <= s.len(),
        all_digits(s.subrange(from, to)),
        to < s.len() ==> !is_digit(s[to]),
    ensures
        digits_end(s, from) == to,
    decreases to - from,
{
    if from < to {
        assert(s.subrange(from, to)[0] == s[from]);
        assert forall|i: int| 0 <= i < to - (from + 1) implies is_digit(
            #[trigger] s.subrange(from + 1, to)[i],
        ) by {
            assert(s.subrange(from, to)[i + 1] == s[from + 1 + i]);
        }
        lemma_digits_end_unique(s, from + 1, to);
    }
}

/// A string of `n` digits spells a number below `10 ^ n`.
pub proof fn lemma_digits_value_bound(s: Seq<char>)
    ensures
        digits_value(s) < pow10(s.len()),
    decreases s.len(),
{
    if s.len() > 0 {
        lemma_digits_value_bound(s.drop_last());
    }
}

/// The signs of two texts written one after the other.
pub proof fn lemma_count_signs_concat(a: Seq<char>, b: Seq<char>)
    ensures
        count_signs(a + b) == count_signs(a) + count_signs(b),
    decreases b.len(),
{
    if b.len() == 0 {
        assert(a + b =~= a);
    } else {
        lemma_count_signs_concat(a, b.drop_last());
        assert((a + b).drop_last() =~= a + b.drop_last());
    }
}

/// Digits are no signs.
pub proof fn lemma_count_signs_digits(s: Seq<char>)
    requires
        all_digits(s),
    ensures
        count_signs(s) == 0,
    decreases s.len(),
{
    if s.len() > 0 {
        assert(is_digit(s[s.len() - 1]));
        assert forall|i: int| 0 <= i < s.drop_last().len() implies is_digit(
            #[trigger] s.drop_last()[i],
        ) by {
            assert(s.drop_last()[i] == s[i]);
        }
        lemma_count_signs_digits(s.drop_last());
    }
}

/// What `numeral_of` reads out of a text is a numeral of the grammar, and
/// it spells that text.
pub proof fn lemma_numeral_of_sound(s: Seq<char>)
    requires
        numeral_of(s) is Some,
    ensures
        numeral_of(s)->0.well_formed(),
        numeral_of(s)->0.text() == s,
{
    let n = numeral_of(s)->0;
    let int_from = sign_text(sign_at(s, 0)).len() as int;
    lemma_digits_end(s, int_from);
    let int_to = digits_end(s, int_from);
    let frac_from = if int_to < s.len() && s[int_to] == '.' {
        int_to + 1
    } else {
        int_to
    };
    lemma_digits_end(s, frac_from);
    let frac_to = digits_end(s, frac_from);
    if frac_to == s.len() {
        assert(n.text() =~= s);
    } else {
        let x_from = frac_to + 1 + sign_text(sign_at(s, frac_to + 1)).len();
        lemma_digits_end(s, x_from);
        assert(n.exponent->0.text() =~= s.subrange(frac_to, s.len() as int));
        assert(n.text() =~= s);
    }
}

/// Every numeral of the grammar is read back from its own text, so a text
/// spells at most one numeral.
pub proof fn lemma_numeral_of_complete(n: Numeral)
    requires
        n.well_formed(),
    ensures
        numeral_of(n.text()) == Some(n),
{
    let s = n.text();
    let sign_len = sign_text(n.sign).len() as int;
    let int_to = sign_len + n.integer.len();
    let frac_from = int_to + if n.fraction is Some {
        1int
    } else {
        0int
    };
    let frac_to = frac_from + n.fraction_digits().len();
    assert(s.len() == frac_to + n.exponent_text().len());
    if n.integer.len() > 0 {
        assert(s[sign_len] == n.integer[0]);
    }
    if n.fraction is Some {
        assert(s[int_to] == '.');
    }
    if n.exponent is Some {
        assert(s[frac_to] == n.exponent->0.text()[0]);
    }
    assert(sign_at(s, 0) == n.sign);
    assert(s.subrange(sign_len, int_to) =~= n.integer);
    lemma_digits_end_unique(s, sign_len, int_to);
    assert(s.subrange(frac_from, frac_to) =~= n.fraction_digits());
    lemma_digits_end_unique(s, frac_from, frac_to);
    match n.exponent {
        None => {
            assert(numeral_of(s)->0.fraction =~= n.fraction);
        },
        Some(x) => {
            let x_from = frac_to + 1 + sign_text(x.sign).len();
            assert(s.len() == x_from + x.digits.len());
            assert(s[x_from] == x.digits[0]);
            if x.sign is Some {
                assert(s[frac_to + 1] == x.sign->0);
            }
            assert(sign_at(s, frac_to + 1) == x.sign);
            assert(s.subrange(x_from, s.len() as int) =~= x.digits);
            lemma_digits_end_unique(s, x_from, s.len() as int);
            assert(exponent_of(s, frac_to) == Some(x));
            assert(numeral_of(s)->0.fraction =~= n.fraction);
        },
    }
}

/// A numeral holds no signs but its own and that of its exponent.
pub proof fn lemma_numeral_signs(n: Numeral)
    requires
        n.well_formed(),
    ensures
        count_signs(n.text()) == sign_text(n.sign).len() + match n.exponent {
            Some(x) => sign_text(x.sign).len(),
            None => 0,
        },
{
    let head = sign_text(n.sign) + n.integer;
    lemma_count_signs_concat(sign_text(n.sign), n.integer);
    lemma_count_signs_concat(head, n.fraction_text());
    lemma_count_signs_concat(head + n.fraction_text(), n.exponent_text());
    lemma_count_signs_digits(n.integer);
    lemma_count_signs_digits(n.fraction_digits());
    lemma_count_signs_single(n.sign);
    match n.fraction {
        Some(f) => {
            lemma_count_signs_concat(seq!['.'], f);
            reveal_with_fuel(count_signs, 2);
            assert(seq!['.'].drop_last() =~= Seq::<char>::empty());
        },
        None => {},
    }
    match n.exponent {
        Some(x) => {
            lemma_count_signs_concat(seq![x.marker], sign_text(x.sign));
            lemma_count_signs_concat(seq![x.marker] + sign_text(x.sign), x.digits);
            lemma_count_signs_digits(x.digits);
            lemma_count_signs_single(x.sign);
            reveal_with_fuel(count_signs, 2);
            assert(seq![x.marker].drop_last() =~= Seq::<char>::empty());
        },
        None => {},
    }
}

/// The text of a sign holds that sign and nothing else.
proof fn lemma_count_signs_single(sign: Option<char>)
    requires
        sign matches Some(c) ==> is_sign(c),
    ensures
        count_signs(sign_text(sign)) == sign_text(sign).len(),
{
    reveal_with_fuel(count_signs, 2);
    match sign {
        Some(c) => {
            assert(seq![c].drop_last() =~= Seq::<char>::empty());
        },
        None => {},
    }
}

/// The first powers of ten past the 64-bit range, written out.
pub proof fn lemma_pow10_values()
    ensures
        pow10(1) == 10,
        pow10(3) == 1000,
        pow10(7) == 10000000,
        pow10(9) == 1000000000,
        pow10(17) == 100000000000000000,
        pow10(18) == 1000000000000000000,
        pow10(19) == 10000000000000000000,
        pow10(20) == 100000000000000000000,
{
    reveal_with_fuel(pow10, 21);
}

/// A numeral of at most 19 characters has a mantissa below `10 ^ 19` and a
/// scale between `-10 ^ 18` and `10 ^ 18`.
pub proof fn lemma_numeral_bounds(s: Seq<char>)
    requires
        s.len() <= 19,
        numeral_of(s) is Some,
    ensures
        numeral_of(s)->0.mantissa() < 10000000000000000000,
        -1000000000000000000 < numeral_of(s)->0.scale() < 1000000000000000000,
{
    let n = numeral_of(s)->0;
    lemma_numeral_of_sound(s);
    lemma_pow10_values();
    let digits = n.integer + n.fraction_digits();
    lemma_digits_value_bound(digits);
    lemma_pow10_monotonic(digits.len(), 19);
    match n.exponent {
        Some(x) => {
            lemma_digits_value_bound(x.digits);
            lemma_pow10_monotonic(x.digits.len(), 17);
        },
        None => {},
    }
}

/// A numeral of at most three characters has a mantissa below 1000, at
/// most three digits after the point, and an exponent of one digit at most.
pub proof fn lemma_short_numeral_bounds(s: Seq<char>)
    requires
        s.len() <= 3,
        numeral_of(s) is Some,
    ensures
        numeral_of(s)->0.mantissa() < 1000,
        -12 <= numeral_of(s)->0.scale() <= 9,
{
    let n = numeral_of(s)->0;
    lemma_numeral_of_sound(s);
    lemma_pow10_values();
    let digits = n.integer + n.fraction_digits();
    lemma_digits_value_bound(digits);
    lemma_pow10_monotonic(digits.len(), 3);
    match n.exponent {
        Some(x) => {
            lemma_digits_value_bound(x.digits);
            lemma_pow10_monotonic(x.digits.len(), 1);
        },
        None => {},
    }
}

} // verus!
