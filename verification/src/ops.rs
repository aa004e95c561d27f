//! The addition orchestrator: overflow/underflow preflight, scale alignment,
//! delegation to the bit engine, and reconstruction of the packed value.

use crate::arith::lemma_powb_pos;
use crate::arith::powb;
use crate::{S21Decimal, Sign};
use vstd::prelude::*;

verus! {

/// Failures of packed-decimal addition.
#[derive(Debug, Clone, Copy, PartialEq, Eq, Structural)]
pub enum DecimalError {
    Overflow,
    Underflow,
}

impl S21Decimal {
    /// An operand sits at the representable maximum while both are
    /// non-negative: the sum cannot be represented.
    pub open spec fn overflow_cond(a: &S21Decimal, b: &S21Decimal) -> bool {
        ||| (a.mag() == powb(2, 96) - 1 && !a.spec_negative() && !b.spec_negative())
        ||| (b.mag() == powb(2, 96) - 1 && !b.spec_negative() && !a.spec_negative())
    }

    /// An operand sits at the representable minimum while both are negative.
    pub open spec fn underflow_cond(a: &S21Decimal, b: &S21Decimal) -> bool {
        ||| (a.mag() == powb(2, 96) - 1 && a.spec_negative() && b.spec_negative())
        ||| (b.mag() == powb(2, 96) - 1 && b.spec_negative() && a.spec_negative())
    }

    /// The common scale both operands are aligned onto: the larger of the two.
    pub open spec fn aligned_scale(a: &S21Decimal, b: &S21Decimal) -> nat {
        if a.spec_scale() >= b.spec_scale() {
            a.spec_scale()
        } else {
            b.spec_scale()
        }
    }

    /// A magnitude raised onto scale `s`, kept modulo `2^96`.
    pub open spec fn aligned_mag(x: &S21Decimal, s: nat) -> nat {
        (x.mag() * powb(10, (s - x.spec_scale()) as nat)) % powb(2, 96)
    }

    /// Magnitude of the sum: aligned magnitudes added modulo `2^96` on equal
    /// signs, the absolute difference on differing signs.
    pub open spec fn sum_mag(a: &S21Decimal, b: &S21Decimal) -> nat {
        let s = Self::aligned_scale(a, b);
        let ma = Self::aligned_mag(a, s);
        let mb = Self::aligned_mag(b, s);
        if a.spec_negative() == b.spec_negative() {
            (ma + mb) % powb(2, 96)
        } else if ma >= mb {
            (ma - mb) as nat
        } else {
            (mb - ma) as nat
        }
    }

    /// Sign of the sum: the shared sign on equal signs, otherwise the sign of
    /// the larger aligned magnitude, positive on a tie.
    pub open spec fn sum_negative(a: &S21Decimal, b: &S21Decimal) -> bool {
        let s = Self::aligned_scale(a, b);
        let ma = Self::aligned_mag(a, s);
        let mb = Self::aligned_mag(b, s);
        if a.spec_negative() == b.spec_negative() {
            a.spec_negative()
        } else if ma > mb {
            a.spec_negative()
        } else if mb > ma {
            b.spec_negative()
        } else {
            false
        }
    }

    /// Scale of the sum: the common scale, except that a zero magnitude is
    /// canonical and carries scale 0.
    pub open spec fn sum_scale(a: &S21Decimal, b: &S21Decimal) -> nat {
        if Self::sum_mag(a, b) == 0 {
            0
        } else {
            Self::aligned_scale(a, b)
        }
    }

    /// The canonical packed sign-and-scale word of the sum.
    pub open spec fn sum_word3(a: &S21Decimal, b: &S21Decimal) -> nat {
        (if Self::sum_negative(a, b) {
            0x80000000nat
        } else {
            0nat
        }) + Self::sum_scale(a, b) * 0x10000
    }

    /// Add two packed decimals: preflight the representable extremes, align
    /// the smaller scale up, add through the bit engine, and repack.
    pub fn add(&self, rhs: &Self) -> (r: Result<S21Decimal, DecimalError>)
        requires
            self.wf(),
            rhs.wf(),
        ensures
            Self::overflow_cond(self, rhs) ==> r === Err(DecimalError::Overflow),
            !Self::overflow_cond(self, rhs) && Self::underflow_cond(self, rhs) ==> r === Err(
                DecimalError::Underflow,
            ),
            !Self::overflow_cond(self, rhs) && !Self::underflow_cond(self, rhs) ==> {
                &&& r is Ok
                &&& r->Ok_0.wf()
                &&& r->Ok_0.mag() == Self::sum_mag(self, rhs)
                &&& r->Ok_0.spec_negative() == Self::sum_negative(self, rhs)
                &&& r->Ok_0.spec_scale() == Self::sum_scale(self, rhs)
                &&& r->Ok_0.bits[3] as nat == Self::sum_word3(self, rhs)
            },
    {
        if (self.is_max() && !rhs.is_negative()) || (rhs.is_max() && !self.is_negative()) {
            return Err(DecimalError::Overflow);
        }
        if (self.is_min() && rhs.is_negative()) || (rhs.is_min() && self.is_negative()) {
            return Err(DecimalError::Underflow);
        }
        let mut left = *self;
        let mut right = *rhs;
        let ls = left.scale();
        let rs = right.scale();
        if ls < rs {
            proof {
                right.lemma_noop_alignment();
            }
            left.normalize(rs as u32);
        } else if ls > rs {
            proof {
                left.lemma_noop_alignment();
            }
            right.normalize(ls as u32);
        } else {
            proof {
                left.lemma_noop_alignment();
                right.lemma_noop_alignment();
            }
        }
        let ghost s = Self::aligned_scale(self, rhs);
        proof {
            assert(left.mag() == Self::aligned_mag(self, s));
            assert(right.mag() == Self::aligned_mag(rhs, s));
        }
        let lbs = left.to_bitstr();
        let rbs = right.to_bitstr();
        let sum = lbs.add(&rbs);
        let packed = S21Decimal::from_bitstr(&sum);
        proof {
            lemma_powb_pos(2, 96);
            if self.spec_negative() == rhs.spec_negative() {
                assert(lbs.sign == rbs.sign);
            } else {
                assert(lbs.sign != rbs.sign);
            }
        }
        Ok(packed)
    }

    /// Staying on one's own scale multiplies the magnitude by `10^0`, which
    /// changes nothing.
    proof fn lemma_noop_alignment(&self)
        ensures
            Self::aligned_mag(self, self.spec_scale()) == self.mag(),
    {
        vstd::arithmetic::power::lemma_pow0(10);
        self.lemma_mag_bound();
        lemma_powb_pos(2, 96);
        vstd::arithmetic::div_mod::lemma_small_mod(self.mag(), powb(2, 96));
        assert(self.mag() * 1 == self.mag()) by (nonlinear_arith);
    }

    /// Same-signed addition is symmetric in its operands: the failure
    /// conditions and the whole model of the sum agree both ways round, so
    /// with `lemma_packed_words_determined` the two packed results are equal.
    pub proof fn lemma_sum_commutes(a: &S21Decimal, b: &S21Decimal)
        requires
            a.wf(),
            b.wf(),
            a.spec_negative() == b.spec_negative(),
        ensures
            Self::overflow_cond(a, b) == Self::overflow_cond(b, a),
            Self::underflow_cond(a, b) == Self::underflow_cond(b, a),
            Self::sum_mag(a, b) == Self::sum_mag(b, a),
            Self::sum_negative(a, b) == Self::sum_negative(b, a),
            Self::sum_scale(a, b) == Self::sum_scale(b, a),
            Self::sum_word3(a, b) == Self::sum_word3(b, a),
    {
    }

    /// A packed value is determined by its magnitude and its sign-and-scale
    /// word: equal models mean equal words throughout.
    pub proof fn lemma_packed_words_determined(x: &S21Decimal, y: &S21Decimal)
        requires
            x.mag() == y.mag(),
            x.bits[3] == y.bits[3],
        ensures
            x.bits@ =~= y.bits@,
    {
        crate::arith::lemma_powb_two_words();
        crate::arith::lemma_powb_adds(2, 32, 32);
        let bb = 0x100000000nat;
        let m = x.mag() as int;
        assert(m == (x.bits[2] as int * bb + x.bits[1]) * bb + x.bits[0]) by (nonlinear_arith)
            requires
                m == x.bits[0] as nat + x.bits[1] as nat * bb + x.bits[2] as nat * (bb * bb),
        ;
        assert(m == (y.bits[2] as int * bb + y.bits[1]) * bb + y.bits[0]) by (nonlinear_arith)
            requires
                m == y.bits[0] as nat + y.bits[1] as nat * bb + y.bits[2] as nat * (bb * bb),
        ;
        vstd::arithmetic::div_mod::lemma_fundamental_div_mod_converse(
            m,
            bb as int,
            x.bits[2] as int * bb as int + x.bits[1] as int,
            x.bits[0] as int,
        );
        vstd::arithmetic::div_mod::lemma_fundamental_div_mod_converse(
            m,
            bb as int,
            y.bits[2] as int * bb as int + y.bits[1] as int,
            y.bits[0] as int,
        );
        let hi = x.bits[2] as int * bb as int + x.bits[1] as int;
        vstd::arithmetic::div_mod::lemma_fundamental_div_mod_converse(
            hi,
            bb as int,
            x.bits[2] as int,
            x.bits[1] as int,
        );
        vstd::arithmetic::div_mod::lemma_fundamental_div_mod_converse(
            hi,
            bb as int,
            y.bits[2] as int,
            y.bits[1] as int,
        );
    }

    /// Adding a value and its exact negation at the same scale gives the
    /// canonical zero: magnitude 0, scale 0, positive sign, and never a
    /// preflight failure.
    pub proof fn lemma_additive_inverse(a: &S21Decimal, b: &S21Decimal)
        requires
            a.wf(),
            b.wf(),
            a.spec_scale() == b.spec_scale(),
            a.mag() == b.mag(),
            a.spec_negative() != b.spec_negative(),
        ensures
            !Self::overflow_cond(a, b),
            !Self::underflow_cond(a, b),
            Self::sum_mag(a, b) == 0,
            Self::sum_scale(a, b) == 0,
            !Self::sum_negative(a, b),
    {
        a.lemma_noop_alignment();
        b.lemma_noop_alignment();
    }

    /// Law: same-signed addition is commutative.  Two packed results whose
    /// magnitude and sign-and-scale word match the model of `add` for the
    /// two operand orders are equal word for word.
    pub proof fn lemma_add_commutative(
        a: &S21Decimal,
        b: &S21Decimal,
        x: &S21Decimal,
        y: &S21Decimal,
    )
        requires
            a.wf(),
            b.wf(),
            a.spec_negative() == b.spec_negative(),
            x.mag() == Self::sum_mag(a, b),
            x.bits[3] as nat == Self::sum_word3(a, b),
            y.mag() == Self::sum_mag(b, a),
            y.bits[3] as nat == Self::sum_word3(b, a),
        ensures
            x.bits@ == y.bits@,
    {
        Self::lemma_sum_commutes(a, b);
        assert(x.bits[3] == y.bits[3]);
        Self::lemma_packed_words_determined(x, y);
    }
}

} // verus!
