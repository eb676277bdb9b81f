//! Exact decimal numbers for monetary amounts.
//!
//! A [`Decimal`] is a pair of an integer mantissa and a decimal scale and
//! denotes `mantissa / 10^scale`.  The representation keeps whatever scale
//! the input was written with (`1000.00` stays at scale 2), so reading a
//! stored balance back returns it digit for digit; value equality across
//! scales is decided by [`Decimal::same_value`].  All arithmetic is checked:
//! an operation whose aligned mantissas or result do not fit in `i128`
//! reports failure instead of wrapping or rounding.

use vstd::prelude::*;
use vstd::arithmetic::mul::*;

verus! {

/// Mathematical reading of a decimal: the number `mantissa / 10^scale`.
pub ghost struct DecModel {
    pub mantissa: int,
    pub scale: nat,
}

pub open spec fn pow10(n: nat) -> int
    decreases n,
{
    if n == 0 {
        1
    } else {
        10 * pow10((n - 1) as nat)
    }
}

/// `d` read as an integer count of units of `10^-s`.
/// Meaningful when `s >= d.scale`.
pub open spec fn val_at(d: DecModel, s: nat) -> int {
    d.mantissa * pow10((s - d.scale) as nat)
}

/// The two representations denote the same number.
pub open spec fn dec_eq(a: DecModel, b: DecModel) -> bool {
    a.mantissa * pow10(b.scale) == b.mantissa * pow10(a.scale)
}

pub open spec fn dec_zero() -> DecModel {
    DecModel { mantissa: 0, scale: 0 }
}

/// Exact sum: align the smaller scale, then add mantissas.
pub open spec fn dec_add(a: DecModel, b: DecModel) -> DecModel {
    if a.scale >= b.scale {
        DecModel {
            mantissa: a.mantissa + b.mantissa * pow10((a.scale - b.scale) as nat),
            scale: a.scale,
        }
    } else {
        DecModel {
            mantissa: a.mantissa * pow10((b.scale - a.scale) as nat) + b.mantissa,
            scale: b.scale,
        }
    }
}

pub open spec fn dec_neg(a: DecModel) -> DecModel {
    DecModel { mantissa: -a.mantissa, scale: a.scale }
}

pub open spec fn dec_sub(a: DecModel, b: DecModel) -> DecModel {
    dec_add(a, dec_neg(b))
}

pub proof fn lemma_pow10_pos(n: nat)
    ensures
        pow10(n) >= 1,
    decreases n,
{
    if n > 0 {
        lemma_pow10_pos((n - 1) as nat);
    }
}

pub proof fn lemma_pow10_add(a: nat, b: nat)
    ensures
        pow10(a + b) == pow10(a) * pow10(b),
    decreases a,
{
    if a == 0 {
    } else {
        lemma_pow10_add((a - 1) as nat, b);
        lemma_mul_is_associative(10, pow10((a - 1) as nat), pow10(b));
    }
}

/// Addition commutes with reading both operands at a common scale.
pub proof fn lemma_val_at_add(a: DecModel, b: DecModel, s: nat)
    requires
        a.scale <= s,
        b.scale <= s,
    ensures
        dec_add(a, b).scale <= s,
        val_at(dec_add(a, b), s) == val_at(a, s) + val_at(b, s),
{
    if a.scale >= b.scale {
        let d = (a.scale - b.scale) as nat;
        let r = (s - a.scale) as nat;
        lemma_mul_is_distributive_add_other_way(
            pow10(r),
            a.mantissa,
            b.mantissa * pow10(d),
        );
        lemma_mul_is_associative(b.mantissa, pow10(d), pow10(r));
        lemma_pow10_add(d, r);
    } else {
        let d = (b.scale - a.scale) as nat;
        let r = (s - b.scale) as nat;
        lemma_mul_is_distributive_add_other_way(
            pow10(r),
            a.mantissa * pow10(d),
            b.mantissa,
        );
        lemma_mul_is_associative(a.mantissa, pow10(d), pow10(r));
        lemma_pow10_add(d, r);
    }
}

/// Denoting the same number is the same as agreeing at any common scale.
pub proof fn lemma_dec_eq_val(a: DecModel, b: DecModel, s: nat)
    requires
        a.scale <= s,
        b.scale <= s,
    ensures
        dec_eq(a, b) <==> val_at(a, s) == val_at(b, s),
{
    let pa = pow10(a.scale);
    let pb = pow10(b.scale);
    let ra = pow10((s - a.scale) as nat);
    let rb = pow10((s - b.scale) as nat);
    let ps = pow10(s);
    lemma_pow10_add(a.scale, (s - a.scale) as nat);
    lemma_pow10_add(b.scale, (s - b.scale) as nat);
    lemma_pow10_pos(s);
    assert(pa * ra == ps);
    assert(pb * rb == ps);
    if a.mantissa * pb == b.mantissa * pa {
        assert((a.mantissa * ra) * ps == (b.mantissa * rb) * ps) by (nonlinear_arith)
            requires
                a.mantissa * pb == b.mantissa * pa,
                pa * ra == ps,
                pb * rb == ps,
        {}
        lemma_mul_is_commutative(a.mantissa * ra, ps);
        lemma_mul_is_commutative(b.mantissa * rb, ps);
        lemma_mul_equality_converse(ps, a.mantissa * ra, b.mantissa * rb);
    }
    if a.mantissa * ra == b.mantissa * rb {
        assert((a.mantissa * pb) * ps == (b.mantissa * pa) * ps) by (nonlinear_arith)
            requires
                a.mantissa * ra == b.mantissa * rb,
                pa * ra == ps,
                pb * rb == ps,
        {}
        lemma_mul_is_commutative(a.mantissa * pb, ps);
        lemma_mul_is_commutative(b.mantissa * pa, ps);
        lemma_mul_equality_converse(ps, a.mantissa * pb, b.mantissa * pa);
    }
}


/// Replacing one addend by an equal-valued representation keeps the sum's
/// value.
pub proof fn lemma_dec_add_congruent(a: DecModel, a2: DecModel, b: DecModel)
    requires
        dec_eq(a, a2),
    ensures
        dec_eq(dec_add(a, b), dec_add(a2, b)),
{
    let s = if a.scale >= a2.scale {
        if a.scale >= b.scale {
            a.scale
        } else {
            b.scale
        }
    } else {
        if a2.scale >= b.scale {
            a2.scale
        } else {
            b.scale
        }
    };
    lemma_dec_eq_val(a, a2, s);
    lemma_val_at_add(a, b, s);
    lemma_val_at_add(a2, b, s);
    lemma_dec_eq_val(dec_add(a, b), dec_add(a2, b), s);
}

/// An exact decimal amount.
#[derive(Clone, Copy, Debug, PartialEq, Eq, Structural)]
pub struct Decimal {
    pub mantissa: i128,
    pub scale: u32,
}

impl View for Decimal {
    type V = DecModel;

    open spec fn view(&self) -> DecModel {
        DecModel { mantissa: self.mantissa as int, scale: self.scale as nat }
    }
}

pub open spec fn in_i128(x: int) -> bool {
    i128::MIN <= x <= i128::MAX
}

/// The checked sum succeeds exactly when both operands read at the common
/// scale, and their sum, fit in `i128`.
pub open spec fn add_fits(a: DecModel, b: DecModel) -> bool {
    let hi = if a.scale >= b.scale { a.scale } else { b.scale };
    in_i128(val_at(a, hi)) && in_i128(val_at(b, hi)) && in_i128(
        val_at(a, hi) + val_at(b, hi),
    )
}

/// The checked difference succeeds exactly when both operands read at the
/// common scale, and their difference, fit in `i128`.
pub open spec fn sub_fits(a: DecModel, b: DecModel) -> bool {
    let hi = if a.scale >= b.scale { a.scale } else { b.scale };
    in_i128(val_at(a, hi)) && in_i128(val_at(b, hi)) && in_i128(
        val_at(a, hi) - val_at(b, hi),
    )
}


/// Multiplying a partially aligned mantissa once more out of range puts the
/// fully aligned mantissa out of range too.
proof fn lemma_align_overflow(m: int, acc: int, k: nat, d: nat)
    requires
        k < d,
        acc == m * pow10(k),
        !in_i128(acc * 10),
    ensures
        !in_i128(m * pow10(d)),
{
    let x = acc * 10;
    let q = pow10((d - k - 1) as nat);
    lemma_pow10_pos((d - k - 1) as nat);
    lemma_pow10_add((k + 1) as nat, (d - k - 1) as nat);
    assert(pow10((k + 1) as nat) == 10 * pow10(k));
    assert(m * pow10(d) == x * q) by (nonlinear_arith)
        requires
            acc == m * pow10(k),
            pow10(d) == pow10((k + 1) as nat) * pow10((d - k - 1) as nat),
            pow10((k + 1) as nat) == 10 * pow10(k),
            x == acc * 10,
            q == pow10((d - k - 1) as nat),
    {}
    if x > i128::MAX {
        assert(x * q >= x) by (nonlinear_arith)
            requires
                x >= 1,
                q >= 1,
        {}
    } else {
        assert(x * q <= x) by (nonlinear_arith)
            requires
                x <= -1,
                q >= 1,
        {}
    }
}

/// `m * 10^d` as an `i128`; `None` only with the product strictly out of
/// range.
fn align_mantissa(m: i128, d: u32) -> (r: Option<i128>)
    ensures
        r matches Some(v) ==> v as int == m as int * pow10(d as nat),
        r is None ==> !in_i128(m as int * pow10(d as nat)),
{
    let mut acc: i128 = m;
    let mut k: u32 = 0;
    proof {
        lemma_mul_basics(m as int);
    }
    while k < d
        invariant
            k <= d,
            acc as int == m as int * pow10(k as nat),
        decreases d - k,
    {
        match acc.checked_mul(10) {
            None => {
                proof {
                    lemma_align_overflow(m as int, acc as int, k as nat, d as nat);
                }
                return None;
            },
            Some(a2) => {
                proof {
                    lemma_mul_is_associative(m as int, pow10(k as nat), 10);
                    lemma_mul_is_commutative(pow10(k as nat), 10);
                    assert(pow10((k + 1) as nat) == 10 * pow10(k as nat));
                }
                acc = a2;
                k = k + 1;
            },
        }
    }
    Some(acc)
}

impl Decimal {
    /// The number zero, at scale zero.
    pub fn zero() -> (r: Decimal)
        ensures
            r@ == dec_zero(),
    {
        Decimal { mantissa: 0, scale: 0 }
    }

    /// Exact addition; `None` exactly when an operand or the result does not
    /// fit in `i128` at the common scale.
    pub fn checked_add(&self, other: &Decimal) -> (r: Option<Decimal>)
        ensures
            r is Some <==> add_fits(self@, other@),
            r matches Some(v) ==> v@ == dec_add(self@, other@),
    {
        proof {
            lemma_mul_basics(self@.mantissa);
            lemma_mul_basics(other@.mantissa);
        }
        if self.scale == other.scale {
            match self.mantissa.checked_add(other.mantissa) {
                Some(m) => Some(Decimal { mantissa: m, scale: self.scale }),
                None => None,
            }
        } else if self.scale > other.scale {
            let d = self.scale - other.scale;
            match align_mantissa(other.mantissa, d) {
                None => None,
                Some(bb) => match self.mantissa.checked_add(bb) {
                    Some(m) => Some(Decimal { mantissa: m, scale: self.scale }),
                    None => None,
                },
            }
        } else {
            let d = other.scale - self.scale;
            match align_mantissa(self.mantissa, d) {
                None => None,
                Some(aa) => match aa.checked_add(other.mantissa) {
                    Some(m) => Some(Decimal { mantissa: m, scale: other.scale }),
                    None => None,
                },
            }
        }
    }

    /// Exact subtraction; `None` exactly when an operand or the result does
    /// not fit in `i128` at the common scale.
    pub fn checked_sub(&self, other: &Decimal) -> (r: Option<Decimal>)
        ensures
            r is Some <==> sub_fits(self@, other@),
            r matches Some(v) ==> v@ == dec_sub(self@, other@),
    {
        proof {
            lemma_mul_basics(self@.mantissa);
            lemma_mul_basics(other@.mantissa);
            lemma_mul_basics(-other@.mantissa);
            if self.scale > other.scale {
                lemma_mul_unary_negation(
                    other@.mantissa,
                    pow10((self@.scale - other@.scale) as nat),
                );
            }
        }
        if self.scale == other.scale {
            match self.mantissa.checked_sub(other.mantissa) {
                Some(m) => Some(Decimal { mantissa: m, scale: self.scale }),
                None => None,
            }
        } else if self.scale > other.scale {
            let d = self.scale - other.scale;
            match align_mantissa(other.mantissa, d) {
                None => None,
                Some(bb) => match self.mantissa.checked_sub(bb) {
                    Some(m) => Some(Decimal { mantissa: m, scale: self.scale }),
                    None => None,
                },
            }
        } else {
            let d = other.scale - self.scale;
            match align_mantissa(self.mantissa, d) {
                None => None,
                Some(aa) => match aa.checked_sub(other.mantissa) {
                    Some(m) => Some(Decimal { mantissa: m, scale: other.scale }),
                    None => None,
                },
            }
        }
    }

    /// Do the two representations denote the same number?
    pub fn same_value(&self, other: &Decimal) -> (r: bool)
        ensures
            r == dec_eq(self@, other@),
    {
        proof {
            lemma_mul_basics(self@.mantissa);
            lemma_mul_basics(other@.mantissa);
            lemma_pow10_pos(self@.scale);
            lemma_pow10_pos(other@.scale);
        }
        if self.scale == other.scale {
            proof {
                if dec_eq(self@, other@) {
                    lemma_mul_is_commutative(self@.mantissa, pow10(self@.scale));
                    lemma_mul_is_commutative(other@.mantissa, pow10(self@.scale));
                    lemma_mul_equality_converse(
                        pow10(self@.scale),
                        self@.mantissa,
                        other@.mantissa,
                    );
                }
            }
            self.mantissa == other.mantissa
        } else if self.scale > other.scale {
            proof {
                lemma_dec_eq_val(self@, other@, self@.scale);
            }
            let d = self.scale - other.scale;
            match align_mantissa(other.mantissa, d) {
                None => false,
                Some(bb) => self.mantissa == bb,
            }
        } else {
            proof {
                lemma_dec_eq_val(self@, other@, other@.scale);
            }
            let d = other.scale - self.scale;
            match align_mantissa(self.mantissa, d) {
                None => false,
                Some(aa) => aa == other.mantissa,
            }
        }
    }
}

} // verus!
