//! The arithmetic that cells and consolidation weights are made of.
//!
//! The engine adds, multiplies and divides amounts but never looks inside one,
//! so everything else is written over [`Number`] and holds of every arithmetic
//! whose operations depend on nothing but their operands. [`Whole`] is the
//! arithmetic of whole numbers.

use crate::text::{chars_of, decimal, decimal_text};
use vstd::prelude::*;

verus! {

/// The amounts that a cube holds and the weights by which its members
/// consolidate. Each operation is a function of its operands: `x_spec` is what
/// `x` returns.
pub trait Number: Copy {
    closed spec fn zero_spec() -> Self {
        arbitrary()
    }

    closed spec fn one_spec() -> Self {
        arbitrary()
    }

    closed spec fn plus_spec(self, other: Self) -> Self {
        arbitrary()
    }

    closed spec fn times_spec(self, other: Self) -> Self {
        arbitrary()
    }

    closed spec fn over_spec(self, other: Self) -> Self {
        arbitrary()
    }

    closed spec fn is_zero_spec(self) -> bool {
        arbitrary()
    }

    closed spec fn is_unit_spec(self) -> bool {
        arbitrary()
    }

    closed spec fn read_spec(text: Seq<char>) -> Option<Self> {
        arbitrary()
    }

    closed spec fn shown_spec(self) -> Seq<char> {
        arbitrary()
    }

    /// Nought: what an empty sum is.
    fn zero() -> (r: Self)
        ensures
            r == Self::zero_spec(),
    ;

    /// One: the weight of a member in itself.
    fn one() -> (r: Self)
        ensures
            r == Self::one_spec(),
    ;

    fn plus(self, other: Self) -> (r: Self)
        ensures
            r == self.plus_spec(other),
    ;

    fn times(self, other: Self) -> (r: Self)
        ensures
            r == self.times_spec(other),
    ;

    fn over(self, other: Self) -> (r: Self)
        requires
            !other.is_zero_spec(),
        ensures
            r == self.over_spec(other),
    ;

    /// True when the amount equals nought.
    fn is_zero(self) -> (r: bool)
        ensures
            r == self.is_zero_spec(),
    ;

    /// True when the amount, as a weight, is so close to one that it need not
    /// be shown.
    fn is_unit(self) -> (r: bool)
        ensures
            r == self.is_unit_spec(),
    ;

    /// The amount that `text` writes, if it writes one.
    fn read(text: &str) -> (r: Option<Self>)
        ensures
            r == Self::read_spec(text@),
    ;

    /// The amount in writing.
    fn shown(self) -> (r: String)
        ensures
            r@ == self.shown_spec(),
    ;
}

/// Whole numbers of 64 bits, wrapping around at the ends of their range.
#[derive(Clone, Copy, PartialEq, Eq, Debug, Structural)]
pub struct Whole(pub i64);

/// The value of a string of decimal digits; none where another character
/// stands in it.
pub open spec fn digits_value(text: Seq<char>) -> Option<nat>
    decreases text.len(),
{
    if text.len() == 0 {
        Some(0)
    } else {
        let c = text.last();
        match digits_value(text.drop_last()) {
            Some(n) => if '0' <= c && c <= '9' {
                Some((n * 10 + (c as u32 - 48)) as nat)
            } else {
                None
            },
            None => None,
        }
    }
}

/// More digits make no smaller number, and a number of digits only.
pub proof fn digits_value_grows(text: Seq<char>, n: int)
    requires
        0 <= n <= text.len(),
    ensures
        digits_value(text) matches Some(whole) ==> (digits_value(text.take(n)) matches Some(part)
            && part <= whole),
    decreases text.len() - n,
{
    if n < text.len() {
        digits_value_grows(text, n + 1);
        assert(text.take(n + 1).drop_last() =~= text.take(n));
    } else {
        assert(text.take(n) =~= text);
    }
}

/// The absolute value.
pub open spec fn absolute(n: int) -> int {
    if n < 0 {
        -n
    } else {
        n
    }
}

/// The quotient rounded towards nought.
pub open spec fn quotient(a: int, b: int) -> int {
    if (a < 0) == (b < 0) {
        absolute(a) / absolute(b)
    } else {
        -(absolute(a) / absolute(b))
    }
}

impl Whole {
    /// `n` brought back into the range of 64 bits.
    pub open spec fn wrapped(n: int) -> Whole {
        if n > i64::MAX {
            Whole((n - 0x1_0000_0000_0000_0000) as i64)
        } else {
            Whole(n as i64)
        }
    }
}

impl Number for Whole {
    open spec fn zero_spec() -> Self {
        Whole(0)
    }

    open spec fn one_spec() -> Self {
        Whole(1)
    }

    open spec fn plus_spec(self, other: Self) -> Self {
        Whole(self.0.wrapping_add(other.0))
    }

    open spec fn times_spec(self, other: Self) -> Self {
        Whole(self.0.wrapping_mul(other.0))
    }

    open spec fn over_spec(self, other: Self) -> Self {
        Whole::wrapped(quotient(self.0 as int, other.0 as int))
    }

    open spec fn is_zero_spec(self) -> bool {
        self.0 == 0
    }

    open spec fn is_unit_spec(self) -> bool {
        self.0 == 1
    }

    open spec fn read_spec(text: Seq<char>) -> Option<Self> {
        let negative = text.len() > 0 && text[0] == '-';
        let digits = if negative {
            text.skip(1)
        } else {
            text
        };
        match digits_value(digits) {
            Some(n) => if digits.len() == 0 {
                None
            } else if negative && -n >= i64::MIN {
                Some(Whole((-n) as i64))
            } else if !negative && n <= i64::MAX {
                Some(Whole(n as i64))
            } else {
                None
            },
            None => None,
        }
    }

    open spec fn shown_spec(self) -> Seq<char> {
        if self.0 < 0 {
            seq!['-'] + decimal((-self.0) as nat)
        } else {
            decimal(self.0 as nat)
        }
    }

    fn zero() -> (r: Self) {
        Whole(0)
    }

    fn one() -> (r: Self) {
        Whole(1)
    }

    fn plus(self, other: Self) -> (r: Self) {
        Whole(self.0.wrapping_add(other.0))
    }

    fn times(self, other: Self) -> (r: Self) {
        Whole(self.0.wrapping_mul(other.0))
    }

    fn over(self, other: Self) -> (r: Self) {
        let a: i128 = self.0 as i128;
        let b: i128 = other.0 as i128;
        let top: i128 = if a < 0 {
            -a
        } else {
            a
        };
        let bottom: i128 = if b < 0 {
            -b
        } else {
            b
        };
        let q: i128 = top / bottom;
        proof {
            assert(0 <= top / bottom <= top) by (nonlinear_arith)
                requires
                    0 <= top,
                    bottom >= 1,
            ;
        }
        if (a < 0) == (b < 0) {
            if q > 0x7fff_ffff_ffff_ffff {
                Whole(i64::MIN)
            } else {
                Whole(q as i64)
            }
        } else {
            Whole((-q) as i64)
        }
    }

    fn is_zero(self) -> (r: bool) {
        self.0 == 0
    }

    fn is_unit(self) -> (r: bool) {
        self.0 == 1
    }

    fn read(text: &str) -> (r: Option<Self>) {
        let t = chars_of(text);
        let negative = t.len() > 0 && t[0] == '-';
        let start: usize = if negative {
            1
        } else {
            0
        };
        let ghost digits = if negative {
            text@.skip(1)
        } else {
            text@
        };
        if start == t.len() {
            return None;
        }
        let mut value: i128 = 0;
        let mut i: usize = start;
        while i < t.len()
            invariant
                t@ == text@,
                start <= i <= t@.len(),
                digits == t@.skip(start as int),
                negative == (text@.len() > 0 && text@[0] == '-'),
                digits == (if negative {
                    text@.skip(1)
                } else {
                    text@
                }),
                digits_value(digits.take(i - start)) == Some(value as nat),
                0 <= value <= 0x8000_0000_0000_0000,
            decreases t@.len() - i,
        {
            let c = t[i];
            assert(digits.take(i + 1 - start).drop_last() =~= digits.take(i - start));
            assert(digits.take(i + 1 - start).last() == c);
            proof {
                digits_value_grows(digits, i + 1 - start);
            }
            if !('0' <= c && c <= '9') {
                return None;
            }
            value = value * 10 + (c as u32 - 48) as i128;
            if value > 0x8000_0000_0000_0000 {
                return None;
            }
            i += 1;
        }
        assert(digits.take(i - start) =~= digits);
        if negative {
            Some(Whole((-value) as i64))
        } else if value <= 0x7fff_ffff_ffff_ffff {
            Some(Whole(value as i64))
        } else {
            None
        }
    }

    fn shown(self) -> (r: String) {
        if self.0 < 0 {
            let size: u64 = (-(self.0 as i128)) as u64;
            let digits = decimal_text(size as u128);
            proof {
                reveal_strlit("-");
                assert("-"@ =~= seq!['-']);
            }
            crate::text::cat2("-", digits.as_str())
        } else {
            decimal_text(self.0 as u128)
        }
    }
}

// ---------------------------------------------------------------------------
// Laws
// ---------------------------------------------------------------------------

/// A number in decimal is read back.
proof fn decimal_is_read_back(n: nat)
    ensures
        decimal(n).len() > 0,
        decimal(n)[0] != '-',
        digits_value(decimal(n)) == Some(n),
    decreases n,
{
    if n < 10 {
        assert(decimal(n).drop_last() =~= Seq::<char>::empty());
        assert(digits_value(Seq::<char>::empty()) == Some(0nat));
    } else {
        decimal_is_read_back(n / 10);
        assert(decimal(n).drop_last() =~= decimal(n / 10));
        assert(decimal(n)[0] == decimal(n / 10)[0]);
    }
}

/// What is written of a number is read back as that number.
pub proof fn numbers_are_read_back(n: Whole)
    ensures
        Whole::read_spec(n.shown_spec()) == Some(n),
{
    let size: nat = if n.0 < 0 {
        (-n.0) as nat
    } else {
        n.0 as nat
    };
    decimal_is_read_back(size);
    if n.0 < 0 {
        assert(n.shown_spec().skip(1) =~= decimal(size));
    }
}

/// A quotient times the divisor is the dividend but for a rest that is smaller than the
/// divisor and on the dividend's side of nought.
pub proof fn quotients_leave_a_small_rest(a: int, b: int)
    requires
        b != 0,
    ensures
        ({
            let rest = a - quotient(a, b) * b;
            absolute(rest) < absolute(b) && (rest == 0 || (rest < 0) == (a < 0))
        }),
{
    let (top, bottom) = (absolute(a), absolute(b));
    let q = top / bottom;
    assert(0 <= top - q * bottom < bottom) by (nonlinear_arith)
        requires
            bottom > 0,
            q == top / bottom,
    ;
    assert((-q) * b == -(q * b)) by (nonlinear_arith);
    assert(q * (-b) == -(q * b)) by (nonlinear_arith);
}

/// Sums and products that are in range are those of the whole numbers, and so are
/// quotients by any but nought.
pub proof fn arithmetic_is_that_of_whole_numbers(a: Whole, b: Whole)
    ensures
        i64::MIN <= a.0 + b.0 <= i64::MAX ==> a.plus_spec(b).0 == a.0 + b.0,
        i64::MIN <= a.0 * b.0 <= i64::MAX ==> a.times_spec(b).0 == a.0 * b.0,
        b.0 != 0 && quotient(a.0 as int, b.0 as int) <= i64::MAX ==> a.over_spec(b).0 == quotient(
            a.0 as int,
            b.0 as int,
        ),
{
    if b.0 != 0 {
        let (top, bottom) = (absolute(a.0 as int), absolute(b.0 as int));
        assert(0 <= top / bottom <= top) by (nonlinear_arith)
            requires
                0 <= top,
                bottom >= 1,
        ;
    }
}

} // verus!
