//! Exact decimal numbers: a whole mantissa scaled by a power of ten.

use crate::numeral::{
    digit_value, digits_end, digits_value, exponent_of, is_digit, lemma_digits_end,
    lemma_digits_value_bound, lemma_pow10_add, lemma_pow10_monotonic, lemma_pow10_positive,
    lemma_pow10_values, numeral_of, pow10, Numeral,
};
use vstd::arithmetic::div_mod::{lemma_fundamental_div_mod, lemma_fundamental_div_mod_converse};
use vstd::prelude::*;

verus! {

/// The longest text that `Decimal::parse` reads: every numeral of this
/// length has a mantissa and a scale that fit the fields of a `Decimal`.
pub const MAX_NUMERAL_LEN: usize = 19;

/// The number `mantissa * 10 ^ exponent`, negated where `negative`.
///
/// Two decimals are `==` when their fields are the same. One number has many
/// such forms (`5 * 10 ^ 1` and `50 * 10 ^ 0`); `compare_int` goes by the
/// number.
#[derive(Clone, Copy, Debug, PartialEq, Eq, Structural)]
pub struct Decimal {
    pub negative: bool,
    pub mantissa: u64,
    pub exponent: i64,
}

/// How a number stands to another.
#[derive(Clone, Copy, Debug, PartialEq, Eq, Structural)]
pub enum Comparison {
    Less,
    Equal,
    Greater,
}

impl Decimal {
    /// The mantissa with the sign on it.
    pub open spec fn signed_mantissa(self) -> int {
        if self.negative {
            -(self.mantissa as int)
        } else {
            self.mantissa as int
        }
    }

    /// The number is `numerator() / denominator()`.
    pub open spec fn numerator(self) -> int {
        if self.exponent >= 0 {
            self.signed_mantissa() * pow10(self.exponent as nat)
        } else {
            self.signed_mantissa()
        }
    }

    /// A power of ten, at least 1.
    pub open spec fn denominator(self) -> int {
        if self.exponent >= 0 {
            1
        } else {
            pow10((-self.exponent) as nat) as int
        }
    }

    /// The number is below the whole number `k`.
    pub open spec fn lt_int(self, k: int) -> bool {
        self.numerator() < k * self.denominator()
    }

    /// The number is the whole number `k`.
    pub open spec fn eq_int(self, k: int) -> bool {
        self.numerator() == k * self.denominator()
    }

    /// The number is above the whole number `k`.
    pub open spec fn gt_int(self, k: int) -> bool {
        self.numerator() > k * self.denominator()
    }

    /// The whole number that this number is; `None` where it is none.
    pub open spec fn spec_whole(self) -> Option<int> {
        if self.numerator() % self.denominator() == 0 {
            Some(self.numerator() / self.denominator())
        } else {
            None
        }
    }

    /// The fields are those that the numeral `n` stands for.
    pub open spec fn is_value_of(self, n: Numeral) -> bool {
        &&& self.negative == n.negative()
        &&& self.mantissa == n.mantissa()
        &&& self.exponent == n.scale()
    }

    /// The number `10 ^ shift` times this one.
    pub open spec fn shifted(self, shift: int) -> Decimal
        recommends
            i64::MIN <= self.exponent + shift <= i64::MAX,
    {
        Decimal {
            negative: self.negative,
            mantissa: self.mantissa,
            exponent: (self.exponent + shift) as i64,
        }
    }

    /// Zero, in the form `0 * 10 ^ 0`.
    pub open spec fn spec_zero() -> Decimal {
        Decimal { negative: false, mantissa: 0, exponent: 0 }
    }

    /// Zero, in the form `0 * 10 ^ 0`.
    #[verifier::when_used_as_spec(spec_zero)]
    pub fn zero() -> (r: Decimal)
        ensures
            r == Decimal::spec_zero(),
    {
        Decimal { negative: false, mantissa: 0, exponent: 0 }
    }

    /// Multiplies by `10 ^ shift`, exactly.
    pub fn shift(&self, shift: i64) -> (r: Decimal)
        requires
            i64::MIN <= self.exponent + shift <= i64::MAX,
        ensures
            r == self.shifted(shift as int),
    {
        Decimal {
            negative: self.negative,
            mantissa: self.mantissa,
            exponent: self.exponent + shift,
        }
    }

    /// Reads a numeral. The result is `None` exactly where `text` is not a
    /// numeral of the grammar.
    pub fn parse(text: &[char]) -> (r: Option<Decimal>)
        requires
            text@.len() <= MAX_NUMERAL_LEN,
        ensures
            r is Some <==> numeral_of(text@) is Some,
            r matches Some(d) ==> d.is_value_of(numeral_of(text@)->0),
    {
        let n: usize = text.len();
        let signed: bool = n > 0 && (text[0] == '+' || text[0] == '-');
        let negative: bool = n > 0 && text[0] == '-';
        let int_from: usize = if signed {
            1
        } else {
            0
        };
        let (int_to, whole) = read_digits(text, int_from, 0, Ghost(Seq::empty()));
        proof {
            lemma_digits_end(text@, int_from as int);
        }
        let ghost integer = text@.subrange(int_from as int, int_to as int);
        let point: bool = int_to < n && text[int_to] == '.';
        let frac_from: usize = if point {
            int_to + 1
        } else {
            int_to
        };
        proof {
            assert(Seq::<char>::empty() + integer =~= integer);
        }
        let (frac_to, mantissa) = read_digits(text, frac_from, whole, Ghost(integer));
        proof {
            lemma_digits_end(text@, frac_from as int);
        }
        if (int_to - int_from) + (frac_to - frac_from) == 0 {
            return None;
        }
        let places: i64 = (frac_to - frac_from) as i64;
        if frac_to == n {
            return Some(Decimal { negative, mantissa, exponent: -places });
        }
        proof {
            lemma_pow10_values();
        }
        match read_exponent(text, frac_to) {
            Some(written) => Some(Decimal { negative, mantissa, exponent: written - places }),
            None => None,
        }
    }

    /// The whole number that this number is, where it is one and an `i64`
    /// holds it.
    pub fn whole(&self) -> (r: Option<i64>)
        ensures
            r == match self.spec_whole() {
                Some(k) => if i64::MIN <= k <= i64::MAX {
                    Some(k as i64)
                } else {
                    None::<i64>
                },
                None => None::<i64>,
            },
    {
        let ghost den = self.denominator();
        let ghost num = self.numerator();
        let ghost m = self.mantissa as int;
        proof {
            lemma_pow10_values();
            if self.exponent >= 0 {
                lemma_pow10_positive(self.exponent as nat);
            } else {
                lemma_pow10_positive((-self.exponent) as nat);
            }
            lemma_signed_quotient(m, den, self.negative);
        }
        if self.mantissa == 0 {
            proof {
                assert(num == 0) by {
                    if self.exponent >= 0 {
                        assert(0 * pow10(self.exponent as nat) == 0) by (nonlinear_arith);
                    }
                }
            }
            return Some(0);
        }
        let magnitude: u128 = if self.exponent >= 0 {
            let ghost p = pow10(self.exponent as nat) as int;
            proof {
                assert((-m) * p == -(m * p)) by (nonlinear_arith);
                lemma_signed_quotient(m * p, 1, self.negative);
            }
            if self.exponent >= 19 {
                proof {
                    lemma_pow10_monotonic(19, self.exponent as nat);
                    lemma_scale_up(m, 1, p);
                }
                return None;
            }
            let scale: u128 = power_of_ten(self.exponent as u32);
            proof {
                lemma_pow10_monotonic(self.exponent as nat, 19);
                assert(m * scale as int <= 0xffff_ffff_ffff_ffff * 10000000000000000000)
                    by (nonlinear_arith)
                    requires
                        0 <= m <= 0xffff_ffff_ffff_ffff,
                        0 <= scale as int <= 10000000000000000000,
                ;
            }
            (self.mantissa as u128) * scale
        } else {
            if self.exponent <= -20 {
                proof {
                    lemma_pow10_monotonic(20, (-self.exponent) as nat);
                    lemma_fundamental_div_mod_converse(m, den, 0, m);
                }
                return None;
            }
            let scale: u128 = power_of_ten((-self.exponent) as u32);
            if (self.mantissa as u128) % scale != 0 {
                return None;
            }
            (self.mantissa as u128) / scale
        };
        if self.negative {
            if magnitude <= 9223372036854775808 {
                Some((-(magnitude as i128)) as i64)
            } else {
                None
            }
        } else if magnitude <= 9223372036854775807 {
            Some(magnitude as i64)
        } else {
            None
        }
    }

    /// Compares the number with the whole number `k`.
    pub fn compare_int(&self, k: u64) -> (r: Comparison)
        ensures
            r == Comparison::Less <==> self.lt_int(k as int),
            r == Comparison::Equal <==> self.eq_int(k as int),
            r == Comparison::Greater <==> self.gt_int(k as int),
    {
        let ghost den = self.denominator();
        let ghost num = self.numerator();
        proof {
            lemma_pow10_values();
            if self.exponent >= 0 {
                lemma_pow10_positive(self.exponent as nat);
                assert(k * den == k);
            } else {
                lemma_pow10_positive((-self.exponent) as nat);
                lemma_scale_up(k as int, 0, den);
            }
        }
        if self.mantissa == 0 {
            proof {
                assert(num == 0) by {
                    if self.exponent >= 0 {
                        assert(0 * pow10(self.exponent as nat) == 0) by (nonlinear_arith);
                    }
                }
                if k > 0 {
                    lemma_scale_up(k as int, 1, den);
                }
            }
            if k == 0 {
                Comparison::Equal
            } else {
                Comparison::Less
            }
        } else if self.negative {
            proof {
                assert(num < 0) by {
                    if self.exponent >= 0 {
                        let p = pow10(self.exponent as nat) as int;
                        lemma_scale_up(self.mantissa as int, 1, p);
                        assert((-(self.mantissa as int)) * p == -(self.mantissa as int * p))
                            by (nonlinear_arith);
                    }
                }
            }
            Comparison::Less
        } else if self.exponent >= 0 {
            if self.exponent >= 20 {
                proof {
                    let p = pow10(self.exponent as nat) as int;
                    lemma_pow10_monotonic(20, self.exponent as nat);
                    lemma_scale_up(self.mantissa as int, 1, p);
                    assert(num >= p);
                }
                Comparison::Greater
            } else {
                let scale: u128 = power_of_ten(self.exponent as u32);
                proof {
                    lemma_pow10_monotonic(self.exponent as nat, 19);
                    assert(self.mantissa as int * scale as int <= 0xffff_ffff_ffff_ffff
                        * 10000000000000000000) by (nonlinear_arith)
                        requires
                            0 <= self.mantissa as int <= 0xffff_ffff_ffff_ffff,
                            0 <= scale as int <= 10000000000000000000,
                    ;
                }
                let value: u128 = (self.mantissa as u128) * scale;
                order(value, k as u128)
            }
        } else if k == 0 {
            Comparison::Greater
        } else if self.exponent <= -20 {
            proof {
                lemma_pow10_monotonic(20, (-self.exponent) as nat);
                lemma_scale_up(k as int, 1, den);
                assert(k * den >= den);
            }
            Comparison::Less
        } else {
            let scale: u128 = power_of_ten((-self.exponent) as u32);
            proof {
                lemma_pow10_monotonic((-self.exponent) as nat, 19);
                assert(k as int * scale as int <= 0xffff_ffff_ffff_ffff * 10000000000000000000)
                    by (nonlinear_arith)
                    requires
                        0 <= k as int <= 0xffff_ffff_ffff_ffff,
                        0 <= scale as int <= 10000000000000000000,
                ;
            }
            let bound: u128 = (k as u128) * scale;
            order(self.mantissa as u128, bound)
        }
    }
}

/// Shifting multiplies by a power of ten: `d.shifted(shift)` is `10 ^ shift`
/// times `d`. Written without division, and with `up` for the places of a
/// shift to the left and `down` for those of a shift to the right:
/// `shifted / 10 ^ up == d / 10 ^ down`.
pub proof fn lemma_shifted_value(d: Decimal, shift: int)
    requires
        i64::MIN <= d.exponent + shift <= i64::MAX,
    ensures
        ({
            let up = if shift >= 0 {
                shift as nat
            } else {
                0nat
            };
            let down = if shift < 0 {
                (-shift) as nat
            } else {
                0nat
            };
            d.shifted(shift).numerator() * d.denominator() * pow10(down) == d.numerator()
                * d.shifted(shift).denominator() * pow10(up)
        }),
{
    let moved = d.shifted(shift);
    let up = if shift >= 0 {
        shift as nat
    } else {
        0nat
    };
    let down = if shift < 0 {
        (-shift) as nat
    } else {
        0nat
    };
    let s = d.signed_mantissa();
    let e_up = if d.exponent >= 0 {
        d.exponent as nat
    } else {
        0nat
    };
    let e_down = if d.exponent < 0 {
        (-d.exponent) as nat
    } else {
        0nat
    };
    let f_up = if moved.exponent >= 0 {
        moved.exponent as nat
    } else {
        0nat
    };
    let f_down = if moved.exponent < 0 {
        (-moved.exponent) as nat
    } else {
        0nat
    };
    assert(pow10(0) == 1);
    assert(s * 1 == s);
    assert(moved.numerator() == s * pow10(f_up));
    assert(d.numerator() == s * pow10(e_up));
    assert(moved.denominator() == pow10(f_down));
    assert(d.denominator() == pow10(e_down));
    lemma_pow10_add(f_up, e_down);
    lemma_pow10_add(f_up + e_down, down);
    lemma_pow10_add(e_up, f_down);
    lemma_pow10_add(e_up + f_down, up);
    assert(f_up + e_down + down == e_up + f_down + up);
    let total = pow10(f_up + e_down + down) as int;
    assert(s * pow10(f_up) * pow10(e_down) * pow10(down) == s * total) by (nonlinear_arith)
        requires
            total == pow10(f_up) * pow10(e_down) * pow10(down),
    ;
    assert(s * pow10(e_up) * pow10(f_down) * pow10(up) == s * total) by (nonlinear_arith)
        requires
            total == pow10(e_up) * pow10(f_down) * pow10(up),
    ;
}

/// A whole number is no larger than the mantissa scaled up by the exponent:
/// with a mantissa below `bound` and an exponent of `places` at most, it
/// lies strictly between `-bound * 10 ^ places` and `bound * 10 ^ places`.
pub proof fn lemma_whole_bound(d: Decimal, bound: int, places: nat)
    requires
        d.mantissa < bound,
        d.exponent <= places,
        d.spec_whole() is Some,
    ensures
        -bound * pow10(places) < d.spec_whole()->0 < bound * pow10(places),
{
    let m = d.mantissa as int;
    let k = d.spec_whole()->0;
    let top = pow10(places) as int;
    lemma_pow10_positive(places);
    assert(m < bound * top && -(bound * top) < -m && -bound * top == -(bound * top))
        by (nonlinear_arith)
        requires
            0 <= m < bound,
            1 <= top,
    ;
    if d.exponent >= 0 {
        let p = pow10(d.exponent as nat) as int;
        lemma_pow10_positive(d.exponent as nat);
        lemma_pow10_monotonic(d.exponent as nat, places);
        assert(m * p < bound * top && (-m) * p == -(m * p)) by (nonlinear_arith)
            requires
                0 <= m < bound,
                1 <= p <= top,
        ;
    } else {
        let p = d.denominator();
        lemma_pow10_positive((-d.exponent) as nat);
        lemma_fundamental_div_mod(d.numerator(), p);
        assert(-m <= k <= m) by (nonlinear_arith)
            requires
                d.numerator() == p * k,
                -m <= d.numerator() <= m,
                1 <= p,
                0 <= m,
        ;
    }
}

/// A number without a minus sign is not below zero.
pub proof fn lemma_unsigned_not_below_zero(d: Decimal)
    requires
        !d.negative,
    ensures
        !d.lt_int(0),
{
    if d.exponent >= 0 {
        lemma_pow10_positive(d.exponent as nat);
        lemma_scale_up(d.mantissa as int, 0, pow10(d.exponent as nat) as int);
    } else {
        assert(0 * d.denominator() == 0) by (nonlinear_arith);
    }
}

/// Whether a number divides without a rest does not hang on its sign, and
/// the quotient of the negated number is the negated quotient.
proof fn lemma_signed_quotient(m: int, p: int, negative: bool)
    requires
        0 <= m,
        1 <= p,
    ensures
        ({
            let x = if negative {
                -m
            } else {
                m
            };
            &&& (x % p == 0) == (m % p == 0)
            &&& m % p == 0 ==> x / p == if negative {
                -(m / p)
            } else {
                m / p
            }
        }),
{
    lemma_fundamental_div_mod(m, p);
    let q = m / p;
    let r = m % p;
    if negative {
        if r == 0 {
            assert(-m == (-q) * p + 0) by (nonlinear_arith)
                requires
                    m == p * q + r,
                    r == 0,
            ;
            lemma_fundamental_div_mod_converse(-m, p, -q, 0);
        } else {
            assert(-m == (-q - 1) * p + (p - r)) by (nonlinear_arith)
                requires
                    m == p * q + r,
            ;
            lemma_fundamental_div_mod_converse(-m, p, -q - 1, p - r);
        }
    }
}

/// Scaling by a positive number keeps a lower bound in place.
proof fn lemma_scale_up(x: int, low: int, p: int)
    by (nonlinear_arith)
    requires
        low <= x,
        0 <= low,
        1 <= p,
    ensures
        low * p <= x * p,
        low <= x * p,
        low == 0 ==> 0 * p == 0,
{
}

/// How `a` stands to `b`.
fn order(a: u128, b: u128) -> (r: Comparison)
    ensures
        r == Comparison::Less <==> a < b,
        r == Comparison::Equal <==> a == b,
        r == Comparison::Greater <==> a > b,
{
    if a < b {
        Comparison::Less
    } else if a == b {
        Comparison::Equal
    } else {
        Comparison::Greater
    }
}

/// Ten to the power `k`.
fn power_of_ten(k: u32) -> (r: u128)
    requires
        k <= 19,
    ensures
        r == pow10(k as nat),
{
    let mut r: u128 = 1;
    let mut i: u32 = 0;
    while i < k
        invariant
            i <= k <= 19,
            r == pow10(i as nat),
        decreases k - i,
    {
        proof {
            lemma_pow10_monotonic((i + 1) as nat, 19);
            lemma_pow10_values();
        }
        r = r * 10;
        i += 1;
    }
    r
}

/// Decides whether `c` is a digit.
fn digit(c: char) -> (r: bool)
    ensures
        r == is_digit(c),
{
    '0' <= c && c <= '9'
}

/// Reads the run of digits at `from`, as further digits of the number
/// `acc`, which the digits `seen` spell.
fn read_digits(text: &[char], from: usize, acc: u64, Ghost(seen): Ghost<Seq<char>>) -> (r: (
    usize,
    u64,
))
    requires
        from <= text@.len(),
        seen.len() + text@.len() - from <= MAX_NUMERAL_LEN,
        acc == digits_value(seen),
    ensures
        r.0 == digits_end(text@, from as int),
        r.1 == digits_value(seen + text@.subrange(from as int, r.0 as int)),
{
    let n: usize = text.len();
    let mut i: usize = from;
    let mut value: u64 = acc;
    proof {
        assert(seen + text@.subrange(from as int, from as int) =~= seen);
    }
    while i < n && digit(text[i])
        invariant
            from <= i <= n,
            n == text@.len(),
            seen.len() + n - from <= MAX_NUMERAL_LEN,
            digits_end(text@, i as int) == digits_end(text@, from as int),
            value == digits_value(seen + text@.subrange(from as int, i as int)),
        decreases n - i,
    {
        let c: char = text[i];
        let d: u64 = (c as u32 - '0' as u32) as u64;
        proof {
            let read = seen + text@.subrange(from as int, i as int);
            let next = seen + text@.subrange(from as int, i + 1);
            assert(next.drop_last() =~= read);
            assert(next.last() == c);
            lemma_digits_value_bound(next);
            lemma_pow10_monotonic(next.len(), 19);
            lemma_pow10_values();
        }
        value = value * 10 + d;
        i += 1;
    }
    (i, value)
}

/// Reads the exponent that begins at `at` and runs to the end of `text`.
fn read_exponent(text: &[char], at: usize) -> (r: Option<i64>)
    requires
        at < text@.len() <= MAX_NUMERAL_LEN,
    ensures
        r is Some <==> exponent_of(text@, at as int) is Some,
        r matches Some(v) ==> v == exponent_of(text@, at as int)->0.value(),
        r matches Some(v) ==> -pow10(18) < v < pow10(18),
{
    let n: usize = text.len();
    if !(text[at] == 'e' || text[at] == 'E') {
        return None;
    }
    let signed: bool = at + 1 < n && (text[at + 1] == '+' || text[at + 1] == '-');
    let negative: bool = signed && text[at + 1] == '-';
    let from: usize = if signed {
        at + 2
    } else {
        at + 1
    };
    let (to, magnitude) = read_digits(text, from, 0, Ghost(Seq::empty()));
    if to == from || to != n {
        return None;
    }
    proof {
        let digits = text@.subrange(from as int, to as int);
        assert(Seq::<char>::empty() + digits =~= digits);
        lemma_digits_value_bound(digits);
        lemma_pow10_monotonic(digits.len(), 18);
        lemma_pow10_values();
    }
    if negative {
        Some(-(magnitude as i64))
    } else {
        Some(magnitude as i64)
    }
}

} // verus!
