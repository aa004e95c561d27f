//! A fixed-point decimal numeric type: a 96-bit unsigned magnitude, an
//! explicit sign and a base-10 scale (0 to 28), packed into four 32-bit
//! words, together with the bit-level and digit-level engines that realise
//! exact addition on it without any arbitrary-precision integer type.

pub use bits::Bits;
pub use bitstr::BitStr;
pub use decstr::DecStr;
pub use ops::DecimalError;

pub mod arith;
pub mod bits;
pub mod bitstr;
pub mod decstr;
pub mod literal;
pub mod ops;

use crate::arith::lemma_powb_adds;
use crate::arith::lemma_powb_two_words;
use crate::arith::lemma_val_split;
use crate::arith::place_val;
use crate::arith::powb;
use vstd::prelude::*;

verus! {

/// Polarity of a magnitude.
#[derive(Debug, Clone, Copy, PartialEq, Eq, Structural)]
pub enum Sign {
    Positive,
    Negative,
}

/// 128-bit packed decimal.  Words 0 to 2 hold the 96-bit unsigned magnitude,
/// word 0 least significant; word 3 packs the sign into bit 31 and the scale
/// into bits 16 to 23, the rest reserved as zero.
#[derive(Debug, Clone, Copy)]
pub struct S21Decimal {
    pub bits: [u32; 4],
}

impl S21Decimal {
    /// The unsigned magnitude held in the three low words.
    pub open spec fn mag(&self) -> nat {
        self.bits[0] as nat + self.bits[1] as nat * powb(2, 32) + self.bits[2] as nat * powb(2, 64)
    }

    /// The scale packed into bits 16 to 23 of word 3.
    pub open spec fn spec_scale(&self) -> nat {
        ((self.bits[3] as nat) / 0x10000) % 0x100
    }

    /// The sign bit, bit 31 of word 3.
    pub open spec fn spec_negative(&self) -> bool {
        (self.bits[3] as nat) / 0x80000000 == 1
    }

    /// Well-formed: the packed scale stays in the decimal range.
    pub open spec fn wf(&self) -> bool {
        self.spec_scale() <= 28
    }

    /// Build from a signed integer, then set the scale.
    pub fn new(integer: i32, scale: i32) -> (r: Self)
        requires
            0 <= scale <= 28,
        ensures
            r.wf(),
            r.mag() == (if integer < 0 {
                -(integer as int)
            } else {
                integer as int
            }),
            r.spec_negative() == (integer < 0),
            r.spec_scale() == scale,
    {
        let mut decimal = Self::from(integer);
        proof {
            assert(decimal.bits[1] == 0 && decimal.bits[2] == 0);
            assert(decimal.mag() == decimal.bits[0] as nat) by (nonlinear_arith)
                requires
                    decimal.bits[1] == 0,
                    decimal.bits[2] == 0,
                    decimal.mag() == decimal.bits[0] as nat + decimal.bits[1] as nat * powb(2, 32)
                        + decimal.bits[2] as nat * powb(2, 64),
            ;
        }
        decimal.set_scale(scale);
        decimal
    }

    /// Parse a literal in radix 2 or 10 through the bit engine.
    pub fn from_str_radix(text: &str, radix: u32) -> (r: Self)
        requires
            radix == 2 || radix == 10,
            radix == 2 ==> crate::literal::bin_wf(text@),
            radix == 10 ==> crate::literal::lit_wf(text@),
        ensures
            r.wf(),
            radix == 2 ==> r.mag() == crate::literal::bin_val(text@) && !r.spec_negative()
                && r.spec_scale() == 0,
            radix == 10 ==> {
                &&& r.mag() == crate::literal::lit_val(text@) % powb(2, 96)
                &&& r.spec_negative() == crate::literal::lit_neg(text@)
                &&& r.spec_scale() == crate::literal::lit_scale(text@)
            },
    {
        let b = BitStr::from_str_radix(text, radix);
        Self::from_bitstr(&b)
    }

    /// True iff the sign bit is set.
    pub fn is_negative(&self) -> (r: bool)
        ensures
            r == self.spec_negative(),
    {
        let w3 = self.bits[3];
        proof {
            vstd::arithmetic::div_mod::lemma_fundamental_div_mod(w3 as int, 0x80000000);
        }
        w3 >= 0x80000000
    }

    /// Set the sign bit.
    fn set_negative(&mut self)
        ensures
            final(self).spec_negative(),
            final(self).spec_scale() == old(self).spec_scale(),
            final(self).bits[0] == old(self).bits[0],
            final(self).bits[1] == old(self).bits[1],
            final(self).bits[2] == old(self).bits[2],
            final(self).mag() == old(self).mag(),
    {
        self.set_sign(Sign::Negative);
    }

    /// The sign as a value.
    fn sign(&self) -> (r: Sign)
        ensures
            r == (if self.spec_negative() {
                Sign::Negative
            } else {
                Sign::Positive
            }),
    {
        if self.is_negative() {
            Sign::Negative
        } else {
            Sign::Positive
        }
    }

    /// Write the sign bit, leaving every other bit of word 3 alone.
    fn set_sign(&mut self, sign: Sign)
        ensures
            final(self).spec_negative() == (sign == Sign::Negative),
            final(self).spec_scale() == old(self).spec_scale(),
            (final(self).bits[3] as nat) % 0x80000000 == (old(self).bits[3] as nat) % 0x80000000,
            final(self).bits[3] as nat == (old(self).bits[3] as nat) % 0x80000000 + (
            if sign == Sign::Negative {
                0x80000000nat
            } else {
                0nat
            }),
            final(self).bits[0] == old(self).bits[0],
            final(self).bits[1] == old(self).bits[1],
            final(self).bits[2] == old(self).bits[2],
            final(self).mag() == old(self).mag(),
    {
        let w3 = self.bits[3];
        proof {
            vstd::arithmetic::div_mod::lemma_fundamental_div_mod(w3 as int, 0x80000000);
        }
        let low = w3 % 0x80000000;
        let nw3 = match sign {
            Sign::Positive => low,
            Sign::Negative => low + 0x80000000,
        };
        proof {
            vstd::arithmetic::div_mod::lemma_fundamental_div_mod_converse(
                nw3 as int,
                0x80000000,
                if sign == Sign::Negative {
                    1int
                } else {
                    0int
                },
                low as int,
            );
            let l = low as nat;
            let n = nw3 as nat;
            assert(l / 0x10000 < 0x8000) by (nonlinear_arith)
                requires
                    l < 0x80000000,
            ;
            if sign == Sign::Negative {
                assert(n == 0x80000000 + l);
                assert(n / 0x10000 == 0x8000 + l / 0x10000) by (nonlinear_arith)
                    requires
                        n == 0x80000000 + l,
                ;
                assert((0x8000 + l / 0x10000) % 0x100 == (l / 0x10000) % 0x100) by (nonlinear_arith)
                    requires
                        l / 0x10000 < 0x8000,
                ;
            }
            let w = w3 as nat;
            assert(w == (w / 0x80000000) * 0x80000000 + l);
            assert(w / 0x80000000 <= 1) by (nonlinear_arith)
                requires
                    w < 0x100000000,
                    w == (w / 0x80000000) * 0x80000000 + l,
                    0 <= l < 0x80000000,
            ;
            if w / 0x80000000 == 1 {
                assert(w == 0x80000000 + l);
                assert(w / 0x10000 == 0x8000 + l / 0x10000) by (nonlinear_arith)
                    requires
                        w == 0x80000000 + l,
                ;
                assert((0x8000 + l / 0x10000) % 0x100 == (l / 0x10000) % 0x100) by (nonlinear_arith)
                    requires
                        l / 0x10000 < 0x8000,
                ;
            }
        }
        self.bits = [self.bits[0], self.bits[1], self.bits[2], nw3];
    }

    /// The packed scale.
    pub fn scale(&self) -> (r: i32)
        ensures
            r as nat == self.spec_scale(),
            0 <= r <= 255,
    {
        ((self.bits[3] / 0x10000) % 0x100) as i32
    }

    /// Pack a fresh scale into word 3, preserving the sign bit and clearing
    /// the reserved bits.
    fn set_scale(&mut self, exp: i32)
        requires
            0 <= exp <= 28,
        ensures
            final(self).spec_scale() == exp,
            final(self).spec_negative() == old(self).spec_negative(),
            final(self).bits[3] == (exp as u32) * 0x10000 + (if old(self).spec_negative() {
                0x80000000u32
            } else {
                0u32
            }),
            final(self).bits[0] == old(self).bits[0],
            final(self).bits[1] == old(self).bits[1],
            final(self).bits[2] == old(self).bits[2],
            final(self).mag() == old(self).mag(),
            final(self).wf(),
    {
        let neg = self.is_negative();
        let nw3: u32 = (exp as u32) * 0x10000 + (if neg {
            0x80000000u32
        } else {
            0u32
        });
        proof {
            let e = exp as nat;
            let n = nw3 as nat;
            let s = if neg {
                0x80000000nat
            } else {
                0nat
            };
            assert(n == e * 0x10000 + s);
            assert(n / 0x10000 == e + s / 0x10000 && (s == 0x80000000 ==> n / 0x80000000 == 1) && (
            s == 0 ==> n / 0x80000000 == 0)) by (nonlinear_arith)
                requires
                    n == e * 0x10000 + s,
                    0 <= e <= 28,
                    s == 0x80000000 || s == 0,
            ;
            assert((e + s / 0x10000) % 0x100 == e) by (nonlinear_arith)
                requires
                    0 <= e <= 28,
                    s == 0x80000000 || s == 0,
            ;
        }
        self.bits = [self.bits[0], self.bits[1], self.bits[2], nw3];
    }

    /// Raise the magnitude onto the given (not smaller) scale by multiplying
    /// with the matching power of ten; the product is kept modulo `2^96`.
    pub fn normalize(&mut self, scale: u32)
        requires
            old(self).wf(),
            old(self).spec_scale() <= scale <= 28,
        ensures
            final(self).wf(),
            final(self).spec_negative() == old(self).spec_negative(),
            final(self).spec_scale() == scale,
            final(self).mag() == (old(self).mag() * powb(
                10,
                (scale - old(self).spec_scale()) as nat,
            )) % powb(2, 96),
    {
        let cur = self.scale();
        let delta: u32 = scale - (cur as u32);
        if delta == 0 {
            proof {
                vstd::arithmetic::power::lemma_pow0(10);
                self.lemma_mag_bound();
                vstd::arithmetic::div_mod::lemma_small_mod(self.mag(), powb(2, 96));
                assert(self.mag() * 1 == self.mag()) by (nonlinear_arith);
            }
            self.set_scale(scale as i32);
        } else {
            let mut bstr = self.to_bitstr();
            bstr.pow(delta);
            bstr.scale = scale as i32;
            let normalized = Self::from_bitstr(&bstr);
            self.bits = normalized.bits;
        }
    }

    /// True iff this is the largest representable value: all magnitude bits
    /// set and a positive sign.
    pub fn is_max(&self) -> (r: bool)
        ensures
            r == (self.mag() == powb(2, 96) - 1 && !self.spec_negative()),
    {
        proof {
            Self::lemma_mag_all_ones(self);
        }
        if self.is_negative() {
            false
        } else {
            self.bits[0] == 0xFFFFFFFF && self.bits[1] == 0xFFFFFFFF && self.bits[2] == 0xFFFFFFFF
        }
    }

    /// True iff this is the smallest representable value: all magnitude bits
    /// set and a negative sign.
    pub fn is_min(&self) -> (r: bool)
        ensures
            r == (self.mag() == powb(2, 96) - 1 && self.spec_negative()),
    {
        proof {
            Self::lemma_mag_all_ones(self);
        }
        if !self.is_negative() {
            false
        } else {
            self.bits[0] == 0xFFFFFFFF && self.bits[1] == 0xFFFFFFFF && self.bits[2] == 0xFFFFFFFF
        }
    }

    /// The magnitude always fits in 96 bits.
    pub proof fn lemma_mag_bound(&self)
        ensures
            self.mag() < powb(2, 96),
    {
        lemma_powb_two_words();
        lemma_powb_adds(2, 32, 64);
        let b = 0x100000000nat;
        assert(self.bits[0] as nat + self.bits[1] as nat * b + self.bits[2] as nat * (b * b) < b * (
        b * b)) by (nonlinear_arith)
            requires
                (self.bits[0] as nat) < b,
                (self.bits[1] as nat) < b,
                (self.bits[2] as nat) < b,
        ;
        assert(powb(2, 96) == b * (b * b)) by {
            lemma_powb_adds(2, 32, 64);
            lemma_powb_adds(2, 32, 32);
        }
    }

    /// The magnitude is all ones exactly when every word is all ones.
    proof fn lemma_mag_all_ones(&self)
        ensures
            (self.mag() == powb(2, 96) - 1) == (self.bits[0] == 0xFFFFFFFFu32 && self.bits[1]
                == 0xFFFFFFFFu32 && self.bits[2] == 0xFFFFFFFFu32),
    {
        lemma_powb_two_words();
        lemma_powb_adds(2, 32, 64);
        lemma_powb_adds(2, 32, 32);
        let b = 0x100000000nat;
        let w0 = self.bits[0] as nat;
        let w1 = self.bits[1] as nat;
        let w2 = self.bits[2] as nat;
        assert(powb(2, 96) == b * (b * b));
        if w0 == b - 1 && w1 == b - 1 && w2 == b - 1 {
            assert((b - 1) + (b - 1) * b + (b - 1) * (b * b) == b * (b * b) - 1)
                by (nonlinear_arith);
        }
        if self.mag() == powb(2, 96) - 1 {
            let m = self.mag() as int;
            assert(m == (w2 as int * b + w1) * b + w0) by (nonlinear_arith)
                requires
                    m == w0 + w1 * b + w2 * (b * b),
            ;
            vstd::arithmetic::div_mod::lemma_fundamental_div_mod_converse(
                m,
                b as int,
                w2 as int * b as int + w1 as int,
                w0 as int,
            );
            assert(b * (b * b) - 1 == ((b * b - 1) as int) * b + (b - 1)) by (nonlinear_arith);
            vstd::arithmetic::div_mod::lemma_fundamental_div_mod_converse(
                m,
                b as int,
                (b * b - 1) as int,
                (b - 1) as int,
            );
            assert(w0 == b - 1);
            assert(w2 as int * b as int + w1 == b * b - 1);
            vstd::arithmetic::div_mod::lemma_fundamental_div_mod_converse(
                (b * b - 1) as int,
                b as int,
                w2 as int,
                w1 as int,
            );
            assert(b * b - 1 == ((b - 1) as int) * b + (b - 1)) by (nonlinear_arith);
            vstd::arithmetic::div_mod::lemma_fundamental_div_mod_converse(
                (b * b - 1) as int,
                b as int,
                (b - 1) as int,
                (b - 1) as int,
            );
        }
    }

    /// Unpack into the bit engine, carrying sign and scale through.
    pub fn to_bitstr(&self) -> (r: BitStr)
        requires
            self.wf(),
        ensures
            r.wf(),
            r.val() == self.mag(),
            r.sign == (if self.spec_negative() {
                Sign::Negative
            } else {
                Sign::Positive
            }),
            r.scale as nat == self.spec_scale(),
    {
        let words: [u32; 3] = [self.bits[0], self.bits[1], self.bits[2]];
        let b = BitStr::new(self.sign(), self.scale(), words.as_slice());
        b
    }

    /// Pack a bit-engine value, carrying sign and scale through; the reserved
    /// bits of word 3 are left clear.
    pub fn from_bitstr(b: &BitStr) -> (r: Self)
        requires
            b.wf(),
        ensures
            r.wf(),
            r.mag() == b.val(),
            r.spec_negative() == (b.sign == Sign::Negative),
            r.spec_scale() == b.scale,
            r.bits[3] as nat == (if b.sign == Sign::Negative {
                0x80000000nat
            } else {
                0nat
            }) + b.scale * 0x10000,
    {
        let w0 = b.word(0);
        let w1 = b.word(1);
        let w2 = b.word(2);
        let mut r = S21Decimal { bits: [w0, w1, w2, 0] };
        proof {
            let s = b.bytes@;
            lemma_val_split(s, 32, 2);
            lemma_val_split(s.skip(32), 32, 2);
            assert(s.skip(32).take(32) =~= s.subrange(32, 64));
            assert(s.skip(32).skip(32) =~= s.subrange(64, 96));
            assert(s.take(32) =~= s.subrange(0, 32));
            lemma_powb_adds(2, 32, 32);
            let p2 = place_val(s.subrange(0, 32), 2);
            let p1 = place_val(s.subrange(32, 64), 2);
            let p0 = place_val(s.subrange(64, 96), 2);
            assert(p2 * powb(2, 64) + (p1 * powb(2, 32) + p0) == p0 + p1 * powb(2, 32) + p2 * powb(
                2,
                64,
            ));
            assert(place_val(s.skip(32), 2) == p1 * powb(2, 32) + p0);
            assert(b.val() == p2 * powb(2, 64) + place_val(s.skip(32), 2));
            assert(r.bits[3] == 0);
            assert(r.spec_scale() == 0 && !r.spec_negative());
        }
        let ghost r0 = r;
        r.set_scale(b.scale);
        proof {
            assert(!r0.spec_negative());
            assert(r.bits[3] == (b.scale as u32) * 0x10000 + 0u32);
            assert(b.scale >= 0);
            assert((b.scale as u32) as nat == b.scale as nat);
            let w = r.bits[3] as nat;
            assert(w == ((b.scale as u32) as nat) * 0x10000) by (nonlinear_arith)
                requires
                    w == (b.scale as u32) * 0x10000 + 0u32,
            ;
            assert(w == (b.scale as nat) * 0x10000) by (nonlinear_arith)
                requires
                    w == ((b.scale as u32) as nat) * 0x10000,
                    (b.scale as u32) as nat == b.scale as nat,
            ;
            let sc = b.scale as nat;
            assert(sc <= 28);
            assert(w <= 28 * 0x10000) by (nonlinear_arith)
                requires
                    w == sc * 0x10000,
                    sc <= 28,
            ;
            vstd::arithmetic::div_mod::lemma_small_mod(w, 0x80000000);
        }
        match b.sign {
            Sign::Negative => r.set_sign(Sign::Negative),
            Sign::Positive => r.set_sign(Sign::Positive),
        }
        r
    }
}

impl Default for S21Decimal {
    /// The canonical zero: every word clear.
    fn default() -> (r: Self)
        ensures
            r.wf(),
            r.mag() == 0,
            !r.spec_negative(),
            r.spec_scale() == 0,
            r.bits@ == seq![0u32, 0u32, 0u32, 0u32],
    {
        let r = S21Decimal { bits: [0, 0, 0, 0] };
        proof {
            assert(r.mag() == 0) by (nonlinear_arith)
                requires
                    r.bits[0] == 0 && r.bits[1] == 0 && r.bits[2] == 0,
            ;
            assert(r.bits@ =~= seq![0u32, 0u32, 0u32, 0u32]);
        }
        r
    }
}

impl From<i32> for S21Decimal {
    /// Build from a signed integer: the absolute value becomes the magnitude,
    /// a negative argument sets the sign bit, the scale is zero.
    fn from(src: i32) -> (r: Self) {
        let a: u32 = if src < 0 {
            (-(src as i64)) as u32
        } else {
            src as u32
        };
        let w3: u32 = if src < 0 {
            0x80000000
        } else {
            0
        };
        let r = S21Decimal { bits: [a, 0, 0, w3] };
        proof {
            assert(r.mag() == a as nat) by (nonlinear_arith)
                requires
                    r.bits[0] == a && r.bits[1] == 0 && r.bits[2] == 0,
            ;
        }
        r
    }
}

impl vstd::std_specs::convert::FromSpecImpl<i32> for S21Decimal {
    open spec fn obeys_from_spec() -> bool {
        true
    }

    open spec fn from_spec(src: i32) -> S21Decimal {
        S21Decimal {
            bits: [
                (if src < 0 {
                    -(src as int)
                } else {
                    src as int
                }) as u32,
                0u32,
                0u32,
                (if src < 0 {
                    0x80000000u32
                } else {
                    0u32
                }),
            ],
        }
    }
}

impl PartialEq for S21Decimal {
    fn eq(&self, other: &S21Decimal) -> (r: bool) {
        let r = self.bits[0] == other.bits[0] && self.bits[1] == other.bits[1] && self.bits[2]
            == other.bits[2] && self.bits[3] == other.bits[3];
        proof {
            if r {
                assert(self.bits@ =~= other.bits@);
            }
        }
        r
    }
}

impl vstd::std_specs::cmp::PartialEqSpecImpl for S21Decimal {
    open spec fn obeys_eq_spec() -> bool {
        true
    }

    open spec fn eq_spec(&self, other: &S21Decimal) -> bool {
        self.bits@ == other.bits@
    }
}

} // verus!
