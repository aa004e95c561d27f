//! Fixed-width binary magnitude engine.
//!
//! A `BitStr` stores a 96-bit unsigned magnitude as 96 ASCII bit bytes
//! ('0'/'1'), most significant first, together with a sign and a base-10
//! scale.  All arithmetic is ripple-carry on the bit bytes; subtraction is
//! realised by complementing the smaller operand and adding one.

use crate::arith::is_based;
use crate::arith::lemma_powb_adds;
use crate::arith::lemma_powb_pos;
use crate::arith::lemma_powb_unfold;
use crate::arith::lemma_val_append;
use crate::arith::lemma_val_bound;
use crate::arith::lemma_val_complement;
use crate::arith::lemma_val_lt;
use crate::arith::lemma_val_low_high;
use crate::arith::lemma_val_maxdigits;
use crate::arith::lemma_val_split;
use crate::arith::lemma_val_zeros;
use crate::arith::place_val;
use crate::arith::powb;
use crate::Sign;
use core::cmp::Ordering;
use vstd::prelude::*;

verus! {

/// 96 bits of unsigned magnitude, one ASCII byte per bit, most significant
/// first, with a sign and a decimal scale.
#[derive(Debug)]
pub struct BitStr {
    pub sign: Sign,
    pub scale: i32,
    pub bytes: Vec<u8>,
}

impl BitStr {
    /// Numeric value of the stored magnitude.
    pub open spec fn val(&self) -> nat {
        place_val(self.bytes@, 2)
    }

    /// Well-formed: exactly 96 ASCII bits and a scale within the decimal range.
    pub open spec fn wf(&self) -> bool {
        &&& self.bytes@.len() == 96
        &&& is_based(self.bytes@, 2)
        &&& 0 <= self.scale <= 28
    }

    /// A vector of 96 '0' bytes.
    fn zero_bytes() -> (v: Vec<u8>)
        ensures
            v@.len() == 96,
            forall|i: int| 0 <= i < 96 ==> v@[i] == 48,
    {
        let mut v: Vec<u8> = Vec::new();
        while v.len() < 96
            invariant
                v@.len() <= 96,
                forall|i: int| 0 <= i < v@.len() ==> v@[i] == 48,
            decreases 96 - v@.len(),
        {
            v.push(48);
        }
        v
    }

    /// An exact copy of this magnitude.
    fn duplicate(&self) -> (r: Self)
        ensures
            r.sign == self.sign,
            r.scale == self.scale,
            r.bytes@ == self.bytes@,
    {
        let mut v: Vec<u8> = Vec::new();
        let mut i: usize = 0;
        while i < self.bytes.len()
            invariant
                i <= self.bytes@.len(),
                v@ == self.bytes@.take(i as int),
            decreases self.bytes@.len() - i,
        {
            v.push(self.bytes[i]);
            i += 1;
            proof {
                assert(v@ =~= self.bytes@.take(i as int));
            }
        }
        proof {
            assert(v@ =~= self.bytes@);
        }
        BitStr { sign: self.sign, scale: self.scale, bytes: v }
    }

    /// True iff every stored bit is 0, i.e. the magnitude is zero.
    pub fn all_zeroes(&self) -> (r: bool)
        requires
            self.wf(),
        ensures
            r == (self.val() == 0),
    {
        let mut i: usize = 0;
        while i < 96
            invariant
                self.wf(),
                i <= 96,
                forall|j: int| 0 <= j < i ==> self.bytes@[j] == 48,
            decreases 96 - i,
        {
            if self.bytes[i] == 49 {
                proof {
                    let zs = Seq::<u8>::new(96, |k: int| 48u8);
                    assert(forall|j: int| 0 <= j < zs.len() ==> zs[j] == 48);
                    assert(is_based(zs, 2));
                    lemma_val_zeros(zs, 2);
                    lemma_val_lt(zs, self.bytes@, i as int, 2);
                }
                return false;
            }
            proof {
                assert(self.bytes@[i as int] == 48);
            }
            i += 1;
        }
        proof {
            lemma_val_zeros(self.bytes@, 2);
        }
        true
    }

    /// True iff every stored bit is 1, i.e. the magnitude is the largest
    /// 96-bit value.
    pub fn all_ones(&self) -> (r: bool)
        requires
            self.wf(),
        ensures
            r == (self.val() == powb(2, 96) - 1),
    {
        let mut i: usize = 0;
        while i < 96
            invariant
                self.wf(),
                i <= 96,
                forall|j: int| 0 <= j < i ==> self.bytes@[j] == 49,
            decreases 96 - i,
        {
            if self.bytes[i] == 48 {
                proof {
                    let os = Seq::<u8>::new(96, |k: int| 49u8);
                    assert(forall|j: int| 0 <= j < os.len() ==> os[j] == 49);
                    assert(is_based(os, 2));
                    lemma_val_maxdigits(os, 2);
                    lemma_val_lt(self.bytes@, os, i as int, 2);
                }
                return false;
            }
            proof {
                assert(self.bytes@[i as int] == 49);
            }
            i += 1;
        }
        proof {
            lemma_val_maxdigits(self.bytes@, 2);
        }
        true
    }

    /// Lexicographic comparison of the bit bytes; on fixed-width left-padded
    /// strings this is exactly unsigned numeric comparison.
    pub fn cmp_bytes(&self, other: &Self) -> (r: Ordering)
        requires
            self.wf(),
            other.wf(),
        ensures
            r == Ordering::Less <==> self.val() < other.val(),
            r == Ordering::Greater <==> self.val() > other.val(),
            r == Ordering::Equal <==> self.val() == other.val(),
    {
        let mut i: usize = 0;
        while i < 96
            invariant
                self.wf(),
                other.wf(),
                i <= 96,
                forall|j: int| 0 <= j < i ==> self.bytes@[j] == other.bytes@[j],
            decreases 96 - i,
        {
            let a = self.bytes[i];
            let b = other.bytes[i];
            if a < b {
                proof {
                    lemma_val_lt(self.bytes@, other.bytes@, i as int, 2);
                }
                return Ordering::Less;
            }
            if a > b {
                proof {
                    lemma_val_lt(other.bytes@, self.bytes@, i as int, 2);
                }
                return Ordering::Greater;
            }
            i += 1;
        }
        proof {
            assert(self.bytes@ =~= other.bytes@);
        }
        Ordering::Equal
    }

    /// Index of the most significant set bit, counted from the most
    /// significant end, or `None` on a zero magnitude.
    pub fn msbi(&self) -> (r: Option<usize>)
        requires
            self.wf(),
        ensures
            r is None <==> self.val() == 0,
            r is Some ==> {
                let m = r->0 as int;
                &&& 0 <= m < 96
                &&& self.bytes@[m] == 49
                &&& forall|j: int| 0 <= j < m ==> self.bytes@[j] == 48
                &&& powb(2, (95 - m) as nat) <= self.val() < powb(2, (96 - m) as nat)
            },
    {
        let mut i: usize = 0;
        while i < 96
            invariant
                self.wf(),
                i <= 96,
                forall|j: int| 0 <= j < i ==> self.bytes@[j] == 48,
            decreases 96 - i,
        {
            if self.bytes[i] == 49 {
                proof {
                    let m = i as int;
                    lemma_val_split(self.bytes@, m, 2);
                    lemma_val_zeros(self.bytes@.take(m), 2);
                    let low = self.bytes@.skip(m);
                    assert(is_based(low, 2));
                    lemma_val_bound(low, 2);
                    assert(self.val() == place_val(low, 2));
                    lemma_val_split(low, 1, 2);
                    assert(low.take(1).len() == 1);
                    assert(low[0] == self.bytes@[m]);
                    assert(low.take(1).last() == low[0]);
                    assert(low.take(1).drop_last().len() == 0);
                    assert(place_val(low.take(1).drop_last(), 2) == 0);
                    assert(place_val(low.take(1), 2) == place_val(low.take(1).drop_last(), 2) * 2
                        + (low.take(1).last() - 48) as nat);
                    assert(place_val(low.take(1), 2) == 1);
                    assert(is_based(low.skip(1), 2));
                    lemma_val_bound(low.skip(1), 2);
                    lemma_powb_pos(2, (95 - m) as nat);
                    assert(place_val(low, 2) == place_val(low.take(1), 2) * powb(
                        2,
                        (95 - m) as nat,
                    ) + place_val(low.skip(1), 2));
                    assert(1 * powb(2, (95 - m) as nat) == powb(2, (95 - m) as nat))
                        by (nonlinear_arith);
                    assert(place_val(low, 2) >= powb(2, (95 - m) as nat));
                }
                return Some(i);
            }
            proof {
                assert(self.bytes@[i as int] == 48);
            }
            i += 1;
        }
        proof {
            lemma_val_zeros(self.bytes@, 2);
        }
        None
    }

    /// Flip every bit in the least significant `upto` positions; the rest of
    /// the magnitude is untouched.  Together with adding one this realises
    /// two's-complement negation within that window.
    pub fn invert(&mut self, upto: usize)
        requires
            old(self).wf(),
            upto <= 96,
        ensures
            final(self).wf(),
            final(self).sign == old(self).sign,
            final(self).scale == old(self).scale,
            forall|j: int| 0 <= j < 96 - upto ==> final(self).bytes@[j] == old(self).bytes@[j],
            place_val(final(self).bytes@.skip(96 - upto as int), 2) == powb(2, upto as nat) - 1
                - place_val(old(self).bytes@.skip(96 - upto as int), 2),
    {
        let start: usize = 96 - upto;
        let mut i: usize = start;
        while i < 96
            invariant
                start == 96 - upto,
                start <= i <= 96,
                self.sign == old(self).sign,
                self.scale == old(self).scale,
                self.bytes@.len() == 96,
                is_based(self.bytes@, 2),
                old(self).wf(),
                forall|j: int| 0 <= j < start ==> self.bytes@[j] == old(self).bytes@[j],
                forall|j: int| i <= j < 96 ==> self.bytes@[j] == old(self).bytes@[j],
                forall|j: int|
                    start <= j < i ==> (self.bytes@[j] - 48) + (old(self).bytes@[j] - 48) == 1,
            decreases 96 - i,
        {
            let b = self.bytes[i];
            if b == 49 {
                self.bytes.set(i, 48);
            } else {
                self.bytes.set(i, 49);
            }
            i += 1;
        }
        proof {
            let w = upto as nat;
            let news = self.bytes@.skip(96 - upto as int);
            let olds = old(self).bytes@.skip(96 - upto as int);
            assert(news.len() == w && olds.len() == w);
            assert(is_based(news, 2));
            assert(is_based(olds, 2));
            assert(forall|j: int|
                0 <= j < w ==> (#[trigger] olds[j] - 48) + (news[j] - 48) == 1);
            lemma_val_complement(olds, news, 2);
        }
    }

    /// A magnitude worth exactly one.
    fn unit() -> (r: Self)
        ensures
            r.wf(),
            r.val() == 1,
            r.sign == Sign::Positive,
            r.scale == 0,
    {
        let mut v = Self::zero_bytes();
        v.set(95, 49);
        proof {
            let s = v@;
            assert(forall|i: int| 0 <= i < s.drop_last().len() ==> s.drop_last()[i] == 48);
            lemma_val_zeros(s.drop_last(), 2);
            assert(s.last() == 49);
            assert(place_val(s, 2) == place_val(s.drop_last(), 2) * 2 + (s.last() - 48) as nat);
        }
        BitStr { sign: Sign::Positive, scale: 0, bytes: v }
    }

    /// Multiply by a power of two, dropping anything shifted past the most
    /// significant end: the value becomes `old * 2^offset mod 2^96`.
    pub fn shift(&mut self, offset: u32)
        requires
            old(self).wf(),
        ensures
            final(self).wf(),
            final(self).sign == old(self).sign,
            final(self).scale == old(self).scale,
            final(self).val() == (old(self).val() * powb(2, offset as nat)) % powb(2, 96),
    {
        let off: usize = if offset >= 96 {
            96
        } else {
            offset as usize
        };
        let mut nb: Vec<u8> = Vec::new();
        let mut i: usize = 0;
        while i < 96
            invariant
                old(self).wf(),
                self == old(self),
                off <= 96,
                (offset >= 96 ==> off == 96) && (offset < 96 ==> off == offset),
                i <= 96,
                nb@.len() == i,
                forall|j: int|
                    0 <= j < i ==> nb@[j] == (if j + off < 96 {
                        old(self).bytes@[j + off]
                    } else {
                        48u8
                    }),
            decreases 96 - i,
        {
            if i + off < 96 {
                nb.push(self.bytes[i + off]);
            } else {
                nb.push(48);
            }
            i += 1;
        }
        proof {
            assert(is_based(nb@, 2));
        }
        let ghost v = old(self).val();
        self.bytes = nb;
        proof {
            let s = old(self).bytes@;
            let m96 = powb(2, 96);
            lemma_powb_pos(2, 96);
            lemma_val_bound(s, 2);
            if offset >= 96 {
                assert(forall|j: int| 0 <= j < nb@.len() ==> nb@[j] == 48);
                lemma_val_zeros(nb@, 2);
                lemma_powb_adds(2, (offset - 96) as nat, 96);
                let q = powb(2, (offset - 96) as nat);
                assert(v * (q * m96) == (v * q) * m96) by (nonlinear_arith);
                vstd::arithmetic::div_mod::lemma_mod_multiples_vanish(
                    (v * q) as int,
                    0,
                    m96 as int,
                );
                vstd::arithmetic::div_mod::lemma_small_mod(0, m96);
                assert(powb(2, offset as nat) == q * m96);
                assert(v * powb(2, offset as nat) == m96 * (v * q) + 0) by (nonlinear_arith)
                    requires
                        powb(2, offset as nat) == q * m96,
                ;
                assert((v * powb(2, offset as nat)) % m96 == 0);
            } else {
                let w = (96 - off) as nat;
                let zs = Seq::<u8>::new(off as nat, |k: int| 48u8);
                assert(nb@ =~= s.skip(off as int) + zs);
                lemma_val_append(s.skip(off as int), zs, 2);
                assert(forall|j: int| 0 <= j < zs.len() ==> zs[j] == 48);
                lemma_val_zeros(zs, 2);
                lemma_val_low_high(s, 96 - off as int, 2);
                let r = v % powb(2, w);
                let q = v / powb(2, w);
                assert(place_val(s.skip(off as int), 2) == r);
                lemma_powb_pos(2, w);
                vstd::arithmetic::div_mod::lemma_fundamental_div_mod(v as int, powb(2, w) as int);
                lemma_powb_adds(2, w, off as nat);
                lemma_powb_pos(2, off as nat);
                let p_off = powb(2, off as nat);
                assert((q * powb(2, w) + r) * p_off == q * m96 + r * p_off) by (nonlinear_arith)
                    requires
                        powb(2, w) * p_off == m96,
                ;
                lemma_val_bound(s.skip(off as int), 2);
                assert(r < powb(2, w));
                assert(r * p_off < m96 && r * p_off >= 0) by (nonlinear_arith)
                    requires
                        r < powb(2, w),
                        p_off >= 1,
                        powb(2, w) * p_off == m96,
                ;
                vstd::arithmetic::div_mod::lemma_fundamental_div_mod_converse(
                    (v * p_off) as int,
                    m96 as int,
                    q as int,
                    (r * p_off) as int,
                );
                assert(place_val(nb@, 2) == r * p_off + 0);
            }
        }
    }

    /// Ripple-carry addition restricted to the least significant `upto` bits;
    /// any carry out of that window is dropped.
    pub fn add_upto(&self, other: &Self, upto: usize) -> (r: Self)
        requires
            self.wf(),
            other.wf(),
            upto <= 96,
        ensures
            r.wf(),
            r.sign == self.sign,
            r.scale == self.scale,
            forall|j: int| 0 <= j < 96 - upto ==> r.bytes@[j] == 48,
            r.val() == (self.val() % powb(2, upto as nat) + other.val() % powb(2, upto as nat))
                % powb(2, upto as nat),
    {
        let mut out = Self::zero_bytes();
        let mut carry: u8 = 0;
        let mut k: usize = 0;
        while k < upto
            invariant
                self.wf(),
                other.wf(),
                upto <= 96,
                k <= upto,
                carry <= 1,
                out@.len() == 96,
                is_based(out@, 2),
                forall|j: int| 0 <= j < 96 - k ==> out@[j] == 48,
                place_val(out@.skip(96 - k as int), 2) + carry * powb(2, k as nat) == place_val(
                    self.bytes@.skip(96 - k as int),
                    2,
                ) + place_val(other.bytes@.skip(96 - k as int), 2),
            decreases upto - k,
        {
            let p: usize = 95 - k;
            let a: u8 = self.bytes[p] - 48;
            let b: u8 = other.bytes[p] - 48;
            let t: u8 = a + b + carry;
            let bit: u8 = t % 2;
            let ghost old_out = out@;
            let ghost old_carry = carry;
            out.set(p, bit + 48);
            carry = t / 2;
            k += 1;
            proof {
                let pi = p as int;
                let kn = (k - 1) as nat;
                lemma_powb_unfold(2, k as nat);
                crate::arith::lemma_val_suffix_step(out@, pi, 2);
                crate::arith::lemma_val_suffix_step(self.bytes@, pi, 2);
                crate::arith::lemma_val_suffix_step(other.bytes@, pi, 2);
                assert(out@.skip(pi + 1) =~= old_out.skip(pi + 1));
                assert(out@[pi] == bit + 48);
                let pk = powb(2, kn);
                let an = (self.bytes@[pi] - 48) as nat;
                let bn = (other.bytes@[pi] - 48) as nat;
                assert(an == a && bn == b);
                assert(bit + 2 * carry == a + b + old_carry);
                assert(place_val(out@.skip(pi), 2) == bit as nat * pk + place_val(
                    old_out.skip(pi + 1),
                    2,
                ));
                assert(bit as nat * pk + carry as nat * (pk * 2) + place_val(old_out.skip(pi + 1), 2)
                    == an * pk + bn * pk + old_carry as nat * pk + place_val(
                    old_out.skip(pi + 1),
                    2,
                )) by (nonlinear_arith)
                    requires
                        bit + 2 * carry == an + bn + old_carry,
                ;
            }
        }
        proof {
            let w = upto as nat;
            lemma_val_split(out@, 96 - upto as int, 2);
            lemma_val_zeros(out@.take(96 - upto as int), 2);
            let low = place_val(out@.skip(96 - upto as int), 2);
            assert(place_val(out@, 2) == place_val(out@.take(96 - upto as int), 2) * powb(2, w)
                + low);
            assert(place_val(out@.take(96 - upto as int), 2) * powb(2, w) == 0) by (nonlinear_arith)
                requires
                    place_val(out@.take(96 - upto as int), 2) == 0,
            ;
            lemma_val_low_high(self.bytes@, upto as int, 2);
            lemma_val_low_high(other.bytes@, upto as int, 2);
            assert(is_based(out@.skip(96 - upto as int), 2));
            lemma_val_bound(out@.skip(96 - upto as int), 2);
            lemma_powb_pos(2, w);
            vstd::arithmetic::div_mod::lemma_fundamental_div_mod_converse(
                (self.val() % powb(2, w) + other.val() % powb(2, w)) as int,
                powb(2, w) as int,
                carry as int,
                low as int,
            );
        }
        BitStr { sign: self.sign, scale: self.scale, bytes: out }
    }

    /// Same-sign addition over the full width: the magnitudes add modulo
    /// `2^96`, the shared sign is kept, and a zero result resets the scale.
    fn add_positive(&self, rhs: &Self) -> (r: Self)
        requires
            self.wf(),
            rhs.wf(),
        ensures
            r.wf(),
            r.sign == self.sign,
            r.val() == (self.val() + rhs.val()) % powb(2, 96),
            r.val() != 0 ==> r.scale == self.scale,
            r.val() == 0 ==> r.scale == 0,
    {
        let mut r = self.add_upto(rhs, 96);
        proof {
            lemma_val_bound(self.bytes@, 2);
            lemma_val_bound(rhs.bytes@, 2);
            vstd::arithmetic::div_mod::lemma_small_mod(self.val(), powb(2, 96));
            vstd::arithmetic::div_mod::lemma_small_mod(rhs.val(), powb(2, 96));
        }
        if r.all_zeroes() {
            r.scale = 0;
        }
        r
    }

    /// Subtract the strictly smaller magnitude from the larger one by
    /// complement-and-add within the larger operand's significant width.
    fn sub_mag(larger: &Self, smaller: &Self) -> (r: Self)
        requires
            larger.wf(),
            smaller.wf(),
            smaller.val() < larger.val(),
        ensures
            r.wf(),
            r.sign == larger.sign,
            r.scale == larger.scale,
            r.val() == larger.val() - smaller.val(),
    {
        let mo = larger.msbi();
        match mo {
            None => {
                proof {
                    assert(false);
                }
                larger.duplicate()
            },
            Some(m) => {
                let w: usize = 96 - m;
                let ghost ww = w as nat;
                let ghost bigw = powb(2, ww);
                let ghost lv = larger.val();
                let ghost sv = smaller.val();
                proof {
                    lemma_powb_pos(2, ww);
                    lemma_powb_pos(2, 96);
                    if ww < 96 {
                        crate::arith::lemma_powb_adds(2, ww, (96 - ww) as nat);
                        lemma_powb_pos(2, (96 - ww) as nat);
                        assert(bigw * powb(2, (96 - ww) as nat) == powb(2, 96));
                        assert(bigw <= bigw * powb(2, (96 - ww) as nat)) by (nonlinear_arith)
                            requires
                                powb(2, (96 - ww) as nat) >= 1,
                                bigw >= 1,
                        ;
                    }
                    assert(bigw <= powb(2, 96));
                    if ww < 96 {
                        lemma_powb_unfold(2, (96 - ww) as nat);
                        lemma_powb_pos(2, (96 - ww - 1) as nat);
                        assert(powb(2, (96 - ww) as nat) >= 2);
                        assert(bigw * powb(2, (96 - ww) as nat) >= bigw * 2) by (nonlinear_arith)
                            requires
                                powb(2, (96 - ww) as nat) >= 2,
                                bigw >= 1,
                        ;
                        assert(bigw < powb(2, 96));
                    }
                }
                let mut neg = smaller.duplicate();
                neg.invert(w);
                proof {
                    lemma_val_split(neg.bytes@, 96 - w as int, 2);
                    lemma_val_split(smaller.bytes@, 96 - w as int, 2);
                    assert(neg.bytes@.take(96 - w as int) =~= smaller.bytes@.take(96 - w as int));
                    lemma_val_low_high(smaller.bytes@, w as int, 2);
                    vstd::arithmetic::div_mod::lemma_small_mod(sv, bigw);
                    assert(place_val(smaller.bytes@.skip(96 - w as int), 2) == sv);
                    assert(place_val(smaller.bytes@.take(96 - w as int), 2) == sv / bigw);
                    vstd::arithmetic::div_mod::lemma_basic_div(sv as int, bigw as int);
                    assert(sv / bigw == 0);
                    assert(place_val(neg.bytes@.take(96 - w as int), 2) * powb(2, ww) == 0)
                        by (nonlinear_arith)
                        requires
                            place_val(neg.bytes@.take(96 - w as int), 2) == 0,
                    ;
                    assert(neg.val() == bigw - 1 - sv);
                }
                let negp1 = neg.add_positive(&Self::unit());
                proof {
                    vstd::arithmetic::div_mod::lemma_mod_self_0(powb(2, 96) as int);
                    if sv == 0 && ww == 96 {
                        assert(negp1.val() == 0);
                    } else {
                        vstd::arithmetic::div_mod::lemma_small_mod((bigw - sv) as nat, powb(2, 96));
                        assert(negp1.val() == bigw - sv);
                    }
                }
                let sum = larger.add_upto(&negp1, w);
                proof {
                    vstd::arithmetic::div_mod::lemma_small_mod(lv, bigw);
                    if sv == 0 {
                        if ww == 96 {
                            assert(negp1.val() % bigw == 0);
                        } else {
                            vstd::arithmetic::div_mod::lemma_mod_self_0(bigw as int);
                            assert(negp1.val() == bigw);
                            assert(negp1.val() % bigw == 0);
                        }
                        vstd::arithmetic::div_mod::lemma_small_mod(lv, bigw);
                        assert(sum.val() == (lv + 0) % bigw);
                        vstd::arithmetic::div_mod::lemma_small_mod(lv, bigw);
                    } else {
                        assert(negp1.val() < bigw);
                        vstd::arithmetic::div_mod::lemma_small_mod((bigw - sv) as nat, bigw);
                        assert(negp1.val() % bigw == bigw - sv);
                        vstd::arithmetic::div_mod::lemma_mod_multiples_vanish(
                            1,
                            (lv - sv) as int,
                            bigw as int,
                        );
                        vstd::arithmetic::div_mod::lemma_small_mod((lv - sv) as nat, bigw);
                        assert(sum.val() == lv - sv);
                    }
                }
                sum
            },
        }
    }

    /// Differing-sign addition: compare magnitudes, negate the smaller inside
    /// the larger's significant width, and add.  The result carries the sign
    /// of the larger magnitude; equal magnitudes give a canonical zero.
    fn add_negative(&self, rhs: &Self) -> (r: Self)
        requires
            self.wf(),
            rhs.wf(),
        ensures
            r.wf(),
            self.val() > rhs.val() ==> r.val() == self.val() - rhs.val() && r.sign == self.sign
                && r.scale == self.scale,
            self.val() < rhs.val() ==> r.val() == rhs.val() - self.val() && r.sign == rhs.sign
                && r.scale == self.scale,
            self.val() == rhs.val() ==> r.val() == 0 && r.sign == Sign::Positive && r.scale == 0,
    {
        let ord = self.cmp_bytes(rhs);
        match ord {
            Ordering::Greater => Self::sub_mag(self, rhs),
            Ordering::Less => {
                let mut r = Self::sub_mag(rhs, self);
                r.scale = self.scale;
                r
            },
            Ordering::Equal => {
                let v = Self::zero_bytes();
                proof {
                    lemma_val_zeros(v@, 2);
                }
                BitStr { sign: Sign::Positive, scale: 0, bytes: v }
            },
        }
    }

    /// Signed addition: matching signs add magnitudes, differing signs
    /// subtract the smaller magnitude from the larger.
    pub fn add(&self, rhs: &Self) -> (r: Self)
        requires
            self.wf(),
            rhs.wf(),
        ensures
            r.wf(),
            self.sign == rhs.sign ==> {
                &&& r.val() == (self.val() + rhs.val()) % powb(2, 96)
                &&& r.sign == self.sign
                &&& (r.val() != 0 ==> r.scale == self.scale)
                &&& (r.val() == 0 ==> r.scale == 0)
            },
            self.sign != rhs.sign ==> {
                &&& (self.val() > rhs.val() ==> r.val() == self.val() - rhs.val() && r.sign
                    == self.sign && r.scale == self.scale)
                &&& (self.val() < rhs.val() ==> r.val() == rhs.val() - self.val() && r.sign
                    == rhs.sign && r.scale == self.scale)
                &&& (self.val() == rhs.val() ==> r.val() == 0 && r.sign == Sign::Positive
                    && r.scale == 0)
            },
    {
        match (self.sign, rhs.sign) {
            (Sign::Positive, Sign::Positive) => self.add_positive(rhs),
            (Sign::Negative, Sign::Negative) => self.add_positive(rhs),
            _ => self.add_negative(rhs),
        }
    }

    /// `10^exp` as a machine integer.
    fn ten_pow(exp: u32) -> (e: u128)
        requires
            1 <= exp <= 28,
        ensures
            e == powb(10, exp as nat),
    {
        proof {
            lemma_powb_unfold(10, 1);
            vstd::arithmetic::power::lemma_pow0(10);
        }
        let mut e: u128 = 10;
        let mut t: u32 = 1;
        while t < exp
            invariant
                1 <= t <= exp <= 28,
                e == powb(10, t as nat),
            decreases exp - t,
        {
            proof {
                crate::arith::lemma_pow10_fits((t + 1) as nat);
                lemma_powb_unfold(10, (t + 1) as nat);
            }
            e = e * 10;
            t = t + 1;
        }
        e
    }

    /// Multiply the magnitude by `10^exp` (modulo `2^96`) by shift-and-add
    /// over the binary decomposition of the power of ten.
    pub fn pow(&mut self, exp: u32)
        requires
            old(self).wf(),
            1 <= exp <= 28,
        ensures
            final(self).wf(),
            final(self).sign == old(self).sign,
            final(self).scale == old(self).scale,
            final(self).val() == (old(self).val() * powb(10, exp as nat)) % powb(2, 96),
    {
        let e = Self::ten_pow(exp);
        let ghost en = e as nat;
        let ghost v = old(self).val();
        let ghost m96 = powb(2, 96);
        let mut acc = BitStr { sign: Sign::Positive, scale: 0, bytes: Self::zero_bytes() };
        proof {
            lemma_val_zeros(acc.bytes@, 2);
            vstd::arithmetic::power::lemma_pow0(2);
            lemma_powb_pos(2, 96);
            vstd::arithmetic::div_mod::lemma_small_mod(0, m96);
            assert(v * (en % powb(2, 0)) == 0) by (nonlinear_arith)
                requires
                    en % powb(2, 0) == 0,
            ;
        }
        let mut rem: u128 = e;
        let mut i: u32 = 0;
        while i < 96
            invariant
                old(self).wf(),
                self == old(self),
                i <= 96,
                en == powb(10, exp as nat),
                1 <= exp <= 28,
                v == old(self).val(),
                m96 == powb(2, 96),
                rem as nat == en / powb(2, i as nat),
                acc.wf(),
                acc.val() == (v * (en % powb(2, i as nat))) % m96,
            decreases 96 - i,
        {
            let ghost pi = powb(2, i as nat);
            let ghost q = en / pi;
            let bit = rem % 2;
            proof {
                lemma_powb_pos(2, i as nat);
                lemma_powb_pos(2, 96);
                lemma_powb_unfold(2, (i + 1) as nat);
                vstd::arithmetic::div_mod::lemma_fundamental_div_mod(en as int, pi as int);
                vstd::arithmetic::div_mod::lemma_fundamental_div_mod(q as int, 2);
                vstd::arithmetic::div_mod::lemma_div_denominator(en as int, pi as int, 2);
                assert((q / 2) * (pi * 2) + ((q % 2) * pi + en % pi) == en) by (nonlinear_arith)
                    requires
                        q * pi + en % pi == en,
                        q == 2 * (q / 2) + q % 2,
                ;
                assert(0 <= (q % 2) * pi + en % pi < pi * 2) by (nonlinear_arith)
                    requires
                        0 <= q % 2 <= 1,
                        0 <= en % pi < pi,
                ;
                vstd::arithmetic::div_mod::lemma_fundamental_div_mod_converse(
                    en as int,
                    (pi * 2) as int,
                    (q / 2) as int,
                    ((q % 2) * pi + en % pi) as int,
                );
                assert(en % powb(2, (i + 1) as nat) == (q % 2) * pi + en % pi);
                assert(en / powb(2, (i + 1) as nat) == q / 2);
                assert(rem as nat == q);
                assert(bit as nat == q % 2);
                if bit == 1 {
                    assert((q % 2) * pi == pi) by (nonlinear_arith)
                        requires
                            q % 2 == 1,
                    ;
                    assert(en % powb(2, (i + 1) as nat) == pi + en % pi);
                } else {
                    assert((q % 2) * pi == 0) by (nonlinear_arith)
                        requires
                            q % 2 == 0,
                    ;
                    assert(en % powb(2, (i + 1) as nat) == en % pi);
                }
            }
            if bit == 1 {
                let mut mask = self.duplicate();
                mask.shift(i);
                let ghost accv = acc.val();
                acc = acc.add_positive(&mask);
                proof {
                    vstd::arithmetic::div_mod::lemma_add_mod_noop(
                        (v * (en % pi)) as int,
                        (v * pi) as int,
                        m96 as int,
                    );
                    let ri = en % pi;
                    assert(v * ri + v * pi == v * (ri + pi)) by (nonlinear_arith);
                    assert(en % powb(2, (i + 1) as nat) == en % pi + pi);
                }
            } else {
                proof {
                    assert(en % powb(2, (i + 1) as nat) == en % pi);
                }
            }
            rem = rem / 2;
            i = i + 1;
        }
        proof {
            vstd::arithmetic::div_mod::lemma_mul_mod_noop_right(v as int, en as int, m96 as int);
        }
        self.bytes = acc.bytes;
    }

    /// The binary digit string of `v`, `n` bits wide, most significant first.
    pub open spec fn bits_seq(v: nat, n: nat) -> Seq<u8> {
        Seq::new(n, |t: int| (48 + ((v / powb(2, (n - 1 - t) as nat)) % 2)) as u8)
    }

    proof fn lemma_bits_seq_val(v: nat, n: nat)
        requires
            v < powb(2, n),
        ensures
            Self::bits_seq(v, n).len() == n,
            is_based(Self::bits_seq(v, n), 2),
            place_val(Self::bits_seq(v, n), 2) == v,
        decreases n,
    {
        let s = Self::bits_seq(v, n);
        assert(forall|t: int| 0 <= t < n ==> 48 <= #[trigger] s[t] < 50);
        if n == 0 {
            vstd::arithmetic::power::lemma_pow0(2);
        } else {
            let h = Self::bits_seq(v / 2, (n - 1) as nat);
            assert forall|t: int| 0 <= t < n - 1 implies s[t] == h[t] by {
                lemma_powb_unfold(2, (n - 1 - t) as nat);
                lemma_powb_pos(2, (n - 2 - t) as nat);
                vstd::arithmetic::div_mod::lemma_div_denominator(
                    v as int,
                    2,
                    powb(2, (n - 2 - t) as nat) as int,
                );
            }
            assert(s.drop_last() =~= h);
            lemma_powb_unfold(2, n);
            let half = powb(2, (n - 1) as nat);
            lemma_powb_pos(2, (n - 1) as nat);
            assert(2 * half - 1 == (half - 1) * 2 + 1) by (nonlinear_arith);
            vstd::arithmetic::div_mod::lemma_fundamental_div_mod_converse(
                (2 * half - 1) as int,
                2,
                (half - 1) as int,
                1,
            );
            vstd::arithmetic::div_mod::lemma_div_is_ordered(v as int, (2 * half - 1) as int, 2);
            Self::lemma_bits_seq_val(v / 2, (n - 1) as nat);
            vstd::arithmetic::power::lemma_pow0(2);
            assert(v / powb(2, 0) == v) by {
                vstd::arithmetic::div_mod::lemma_div_basics_2(v as int);
            }
            assert(s.last() == (48 + v % 2) as u8);
            assert(place_val(s, 2) == place_val(s.drop_last(), 2) * 2 + (s.last() - 48) as nat);
            vstd::arithmetic::div_mod::lemma_fundamental_div_mod(v as int, 2);
        }
    }

    /// Bit `j` of a 32-bit word.
    pub(crate) fn word_bit(w: u32, j: usize) -> (b: u8)
        requires
            j < 32,
        ensures
            b as nat == ((w as nat) / powb(2, j as nat)) % 2,
            b <= 1,
    {
        let mut x: u32 = w;
        let mut t: usize = 0;
        proof {
            vstd::arithmetic::power::lemma_pow0(2);
            vstd::arithmetic::div_mod::lemma_div_basics_2(w as int);
        }
        while t < j
            invariant
                t <= j,
                x as nat == (w as nat) / powb(2, t as nat),
            decreases j - t,
        {
            proof {
                lemma_powb_unfold(2, (t + 1) as nat);
                lemma_powb_pos(2, t as nat);
                vstd::arithmetic::div_mod::lemma_div_denominator(
                    w as int,
                    powb(2, t as nat) as int,
                    2,
                );
            }
            x = x / 2;
            t = t + 1;
        }
        (x % 2) as u8
    }

    /// Build a magnitude from three 32-bit words, least significant word
    /// first, together with a sign and a scale.
    pub fn new(sign: Sign, scale: i32, words: &[u32]) -> (r: Self)
        requires
            words@.len() == 3,
            0 <= scale <= 28,
        ensures
            r.wf(),
            r.sign == sign,
            r.scale == scale,
            r.val() == words@[0] as nat + words@[1] as nat * powb(2, 32) + words@[2] as nat * powb(
                2,
                64,
            ),
    {
        let mut nb: Vec<u8> = Vec::new();
        let mut p: usize = 0;
        while p < 96
            invariant
                words@.len() == 3,
                p <= 96,
                nb@.len() == p,
                forall|q: int|
                    0 <= q < p ==> nb@[q] == (48 + ((words@[(95 - q) / 32] as nat / powb(
                        2,
                        ((95 - q) % 32) as nat,
                    )) % 2)) as u8,
            decreases 96 - p,
        {
            let b: usize = 95 - p;
            let k: usize = b / 32;
            let j: usize = b % 32;
            let bit = Self::word_bit(words[k], j);
            nb.push(48 + bit);
            p = p + 1;
        }
        proof {
            let w0 = words@[0] as nat;
            let w1 = words@[1] as nat;
            let w2 = words@[2] as nat;
            let s2 = Self::bits_seq(w2, 32);
            let s1 = Self::bits_seq(w1, 32);
            let s0 = Self::bits_seq(w0, 32);
            crate::arith::lemma_powb_two_words();
            assert(w0 < powb(2, 32) && w1 < powb(2, 32) && w2 < powb(2, 32));
            Self::lemma_bits_seq_val(w0, 32);
            Self::lemma_bits_seq_val(w1, 32);
            Self::lemma_bits_seq_val(w2, 32);
            assert forall|q: int| 0 <= q < 32 implies nb@[q] == s2[q] by {
                assert((95 - q) / 32 == 2 && (95 - q) % 32 == 31 - q) by {
                    vstd::arithmetic::div_mod::lemma_fundamental_div_mod_converse(
                        95 - q,
                        32,
                        2,
                        31 - q,
                    );
                }
            }
            assert forall|q: int| 32 <= q < 64 implies nb@[q] == s1[q - 32] by {
                assert((95 - q) / 32 == 1 && (95 - q) % 32 == 63 - q) by {
                    vstd::arithmetic::div_mod::lemma_fundamental_div_mod_converse(
                        95 - q,
                        32,
                        1,
                        63 - q,
                    );
                }
            }
            assert forall|q: int| 64 <= q < 96 implies nb@[q] == s0[q - 64] by {
                assert((95 - q) / 32 == 0 && (95 - q) % 32 == 95 - q) by {
                    vstd::arithmetic::div_mod::lemma_fundamental_div_mod_converse(
                        95 - q,
                        32,
                        0,
                        95 - q,
                    );
                }
            }
            assert(nb@ =~= (s2 + s1) + s0);
            lemma_val_append(s2, s1, 2);
            lemma_val_append(s2 + s1, s0, 2);
            lemma_powb_adds(2, 32, 32);
            assert((w2 * powb(2, 32) + w1) * powb(2, 32) == w2 * (powb(2, 32) * powb(2, 32)) + w1
                * powb(2, 32)) by (nonlinear_arith);
            assert(is_based(nb@, 2));
        }
        BitStr { sign, scale, bytes: nb }
    }

    /// The 32-bit word `k` of the magnitude, word 0 least significant.
    pub fn word(&self, k: usize) -> (w: u32)
        requires
            self.wf(),
            k < 3,
        ensures
            w as nat == place_val(
                self.bytes@.subrange(96 - 32 * k as int - 32, 96 - 32 * k as int),
                2,
            ),
    {
        let lo: usize = 96 - 32 * k - 32;
        let ghost seg = self.bytes@.subrange(lo as int, lo as int + 32);
        let mut w: u32 = 0;
        let mut t: usize = 0;
        proof {
            vstd::arithmetic::power::lemma_pow0(2);
            assert(seg.take(0) =~= Seq::<u8>::empty());
        }
        while t < 32
            invariant
                self.wf(),
                k < 3,
                lo == 96 - 32 * k - 32,
                seg == self.bytes@.subrange(lo as int, lo as int + 32),
                t <= 32,
                w as nat == place_val(seg.take(t as int), 2),
                (w as nat) < powb(2, t as nat),
            decreases 32 - t,
        {
            proof {
                crate::arith::lemma_powb_two_words();
                lemma_powb_unfold(2, (t + 1) as nat);
                crate::arith::lemma_powb_mono(2, t as nat, 31);
                assert(seg.take(t as int + 1).drop_last() =~= seg.take(t as int));
                assert(seg.take(t as int + 1).last() == seg[t as int]);
                assert(seg[t as int] == self.bytes@[lo + t]);
                assert(place_val(seg.take(t as int + 1), 2) == place_val(seg.take(t as int), 2) * 2
                    + (seg[t as int] - 48) as nat);
            }
            let bit = self.bytes[lo + t] - 48;
            w = w * 2 + bit as u32;
            t = t + 1;
        }
        proof {
            assert(seg.take(32) =~= seg);
        }
        w
    }

    /// A magnitude worth exactly one digit value (decimal or hexadecimal).
    pub fn from_digit(d: u8) -> (r: Self)
        requires
            d <= 15,
        ensures
            r.wf(),
            r.sign == Sign::Positive,
            r.scale == 0,
            r.val() == d,
    {
        let mut acc = Self::unit();
        acc.scale = 0;
        let mut t: u8 = 1;
        if d == 0 {
            let z = Self::zero_bytes();
            proof {
                lemma_val_zeros(z@, 2);
            }
            return BitStr { sign: Sign::Positive, scale: 0, bytes: z };
        }
        while t < d
            invariant
                1 <= t <= d <= 15,
                acc.wf(),
                acc.sign == Sign::Positive,
                acc.scale == 0,
                acc.val() == t,
            decreases d - t,
        {
            proof {
                crate::arith::lemma_powb_two_words();
                crate::arith::lemma_powb_mono(2, 32, 96);
                assert(powb(2, 96) >= powb(2, 32));
                vstd::arithmetic::div_mod::lemma_small_mod((t + 1) as nat, powb(2, 96));
            }
            acc = acc.add_positive(&Self::unit());
            t = t + 1;
        }
        acc
    }

    /// Parse a literal in the given radix.  Radix 2 copies the bit characters
    /// directly, left-padded with zero bits; radix 10 accumulates digit by
    /// digit, multiplying by ten between digits, honours a leading '-',
    /// ignores '_' separators, and takes the digit count after '.' as the
    /// scale.  Values beyond 96 bits wrap modulo `2^96`.
    pub fn from_str_radix(text: &str, radix: u32) -> (r: Self)
        requires
            radix == 2 || radix == 10,
            radix == 2 ==> crate::literal::bin_wf(text@),
            radix == 10 ==> crate::literal::lit_wf(text@),
        ensures
            r.wf(),
            radix == 2 ==> r.val() == crate::literal::bin_val(text@) && r.sign == Sign::Positive
                && r.scale == 0,
            radix == 10 ==> {
                &&& r.val() == crate::literal::lit_val(text@) % powb(2, 96)
                &&& r.sign == (if crate::literal::lit_neg(text@) {
                    Sign::Negative
                } else {
                    Sign::Positive
                })
                &&& r.scale == crate::literal::lit_scale(text@) as i32
            },
    {
        if radix == 2 {
            Self::from_bin(text)
        } else {
            let n = text.unicode_len();
            let mut acc = BitStr { sign: Sign::Positive, scale: 0, bytes: Self::zero_bytes() };
            let mut negative = false;
            let mut seen_point = false;
            let mut fcount: u32 = 0;
            let ghost m96 = powb(2, 96);
            proof {
                lemma_val_zeros(acc.bytes@, 2);
                lemma_powb_pos(2, 96);
                vstd::arithmetic::div_mod::lemma_small_mod(0, powb(2, 96));
                assert(text@.take(0) =~= Seq::<char>::empty());
                assert(crate::literal::lit_digits(text@.take(0)) =~= Seq::<u8>::empty());
            }
            let mut i: usize = 0;
            while i < n
                invariant
                    crate::literal::lit_wf(text@),
                    n == text@.len(),
                    i <= n,
                    m96 == powb(2, 96),
                    acc.wf(),
                    acc.sign == Sign::Positive,
                    acc.scale == 0,
                    acc.val() == crate::literal::lit_val(text@.take(i as int)) % m96,
                    negative == crate::literal::lit_neg(text@.take(i as int)),
                    seen_point == (crate::literal::count_char(text@.take(i as int), '.') >= 1),
                    fcount as nat == crate::literal::lit_scale(text@.take(i as int)),
                    fcount <= i,
                decreases n - i,
            {
                let c = text.get_char(i);
                proof {
                    assert(text@.take(i as int + 1).drop_last() =~= text@.take(i as int));
                    assert(text@.take(i as int + 1).last() == text@[i as int]);
                    lemma_powb_pos(2, 96);
                }
                if c == '-' {
                    negative = true;
                    proof {
                        let t1 = text@.take(i as int + 1);
                        assert(!crate::literal::is_digit_char(c));
                        assert(crate::literal::lit_digits(t1) =~= crate::literal::lit_digits(
                            text@.take(i as int),
                        ));
                        assert(t1[0] == '-');
                        assert(crate::literal::lit_scale(t1) == 0) by {
                            assert(crate::literal::count_char(text@.take(i as int), '.') == 0);
                        }
                    }
                } else if c == '.' {
                    seen_point = true;
                    fcount = 0;
                    proof {
                        let t1 = text@.take(i as int + 1);
                        assert(!crate::literal::is_digit_char(c));
                        assert(crate::literal::lit_digits(t1) =~= crate::literal::lit_digits(
                            text@.take(i as int),
                        ));
                        assert(crate::literal::lit_scale(t1) == 0);
                        assert(crate::literal::count_char(t1, '.') >= 1);
                        assert(crate::literal::lit_neg(t1) == crate::literal::lit_neg(
                            text@.take(i as int),
                        ));
                    }
                } else if c == '_' {
                    proof {
                        let t1 = text@.take(i as int + 1);
                        assert(!crate::literal::is_digit_char(c));
                        assert(crate::literal::lit_digits(t1) =~= crate::literal::lit_digits(
                            text@.take(i as int),
                        ));
                        assert(crate::literal::lit_neg(t1) == crate::literal::lit_neg(
                            text@.take(i as int),
                        ));
                    }
                } else {
                    let d = (c as u32) - 48;
                    proof {
                        assert(crate::literal::is_digit_char(c));
                        assert(d <= 9);
                    }
                    acc.pow(1);
                    let dv = Self::from_digit(d as u8);
                    let ghost accv = acc.val();
                    acc = acc.add_positive(&dv);
                    proof {
                        let t0 = text@.take(i as int);
                        let t1 = text@.take(i as int + 1);
                        let prev = crate::literal::lit_val(t0);
                        lemma_powb_unfold(10, 1);
                        vstd::arithmetic::power::lemma_pow0(10);
                        assert(powb(10, 1) == 10);
                        vstd::arithmetic::div_mod::lemma_mul_mod_noop_left(
                            prev as int,
                            10,
                            m96 as int,
                        );
                        vstd::arithmetic::div_mod::lemma_add_mod_noop(
                            (prev * 10) as int,
                            d as int,
                            m96 as int,
                        );
                        crate::arith::lemma_powb_two_words();
                        crate::arith::lemma_powb_mono(2, 32, 96);
                        vstd::arithmetic::div_mod::lemma_small_mod(d as nat, m96);
                        assert(crate::literal::lit_digits(t1) =~= crate::literal::lit_digits(
                            t0,
                        ).push((c as u32) as u8));
                        let dg = crate::literal::lit_digits(t1);
                        assert(dg.drop_last() =~= crate::literal::lit_digits(t0));
                        assert(dg.last() == (c as u32) as u8);
                        assert(((c as u32) as u8 - 48) as nat == d as nat);
                        assert(place_val(dg, 10) == place_val(dg.drop_last(), 10) * 10 + (
                        dg.last() - 48) as nat);
                        assert(crate::literal::lit_val(t1) == prev * 10 + d);
                        assert(crate::literal::lit_neg(t1) == crate::literal::lit_neg(t0));
                        if seen_point {
                            assert(crate::literal::lit_scale(t1) == crate::literal::lit_scale(t0)
                                + 1);
                            assert(crate::literal::lit_scale(text@) <= 28);
                        } else {
                            assert(crate::literal::count_char(t0, '.') == 0);
                            assert(crate::literal::lit_scale(t1) == 0);
                        }
                    }
                    if seen_point {
                        proof {
                            crate::literal::lemma_lit_scale_le(text@, i as int + 1);
                        }
                        fcount = fcount + 1;
                    }
                }
                i = i + 1;
            }
            proof {
                assert(text@.take(n as int) =~= text@);
            }
            let sign = if negative {
                Sign::Negative
            } else {
                Sign::Positive
            };
            let scale = fcount as i32;
            BitStr { sign, scale, bytes: acc.bytes }
        }
    }

    /// Copy a bare bit-character string into the low end of a fresh
    /// magnitude, the rest left as zero bits.
    pub fn from_bin(text: &str) -> (r: Self)
        requires
            crate::literal::bin_wf(text@),
        ensures
            r.wf(),
            r.sign == Sign::Positive,
            r.scale == 0,
            r.val() == crate::literal::bin_val(text@),
            r.bytes@ == Seq::new(96, |i: int| if i < 96 - text@.len() { 48u8 } else { text@[i - (96 - text@.len())] as u8 }),
    {
        let n = text.unicode_len();
        let mut v = Self::zero_bytes();
        let off: usize = 96 - n;
        let mut i: usize = 0;
        while i < n
            invariant
                crate::literal::bin_wf(text@),
                n == text@.len(),
                off == 96 - n,
                i <= n,
                v@.len() == 96,
                forall|j: int| 0 <= j < off ==> v@[j] == 48,
                forall|j: int| off + i <= j < 96 ==> v@[j] == 48,
                forall|j: int| off <= j < off + i ==> v@[j] == text@[j - off as int] as u8,
            decreases n - i,
        {
            let c = text.get_char(i);
            v.set(off + i, c as u8);
            i = i + 1;
        }
        proof {
            let zs = v@.take(off as int);
            let low = v@.skip(off as int);
            assert(low =~= crate::literal::bin_digits(text@));
            assert(forall|j: int| 0 <= j < zs.len() ==> zs[j] == 48);
            lemma_val_zeros(zs, 2);
            lemma_val_split(v@, off as int, 2);
            assert(place_val(zs, 2) * powb(2, n as nat) == 0) by (nonlinear_arith)
                requires
                    place_val(zs, 2) == 0,
            ;
            assert(is_based(v@, 2));
            assert(v@ =~= Seq::new(96, |q: int| if q < 96 - text@.len() { 48u8 } else { text@[q - (96 - text@.len())] as u8 }));
        }
        BitStr { sign: Sign::Positive, scale: 0, bytes: v }
    }
}

impl Default for BitStr {
    /// The canonical zero: positive, scale 0, all bits clear.
    fn default() -> (r: Self)
        ensures
            r.wf(),
            r.val() == 0,
            r.sign == Sign::Positive,
            r.scale == 0,
    {
        let v = BitStr::zero_bytes();
        proof {
            lemma_val_zeros(v@, 2);
        }
        BitStr { sign: Sign::Positive, scale: 0, bytes: v }
    }
}

impl PartialEq for BitStr {
    fn eq(&self, other: &BitStr) -> (r: bool) {
        if self.sign != other.sign {
            return false;
        }
        if self.scale != other.scale {
            return false;
        }
        if self.bytes.len() != other.bytes.len() {
            return false;
        }
        let mut i: usize = 0;
        while i < self.bytes.len()
            invariant
                self.bytes@.len() == other.bytes@.len(),
                i <= self.bytes@.len(),
                forall|j: int| 0 <= j < i ==> self.bytes@[j] == other.bytes@[j],
            decreases self.bytes@.len() - i,
        {
            if self.bytes[i] != other.bytes[i] {
                return false;
            }
            i += 1;
        }
        proof {
            assert(self.bytes@ =~= other.bytes@);
        }
        true
    }
}

impl vstd::std_specs::cmp::PartialEqSpecImpl for BitStr {
    open spec fn obeys_eq_spec() -> bool {
        true
    }

    open spec fn eq_spec(&self, other: &BitStr) -> bool {
        self.sign == other.sign && self.scale == other.scale && self.bytes@ == other.bytes@
    }
}

} // verus!
