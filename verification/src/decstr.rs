//! Fixed-width decimal-digit engine.
//!
//! A `DecStr` stores an unsigned decimal magnitude as 64 ASCII digit bytes,
//! most significant first, with a sign and a scale: the implied decimal
//! point sits `scale` digits from the least significant end.  Addition is
//! digit-by-digit with carry, subtraction with borrow after an explicit
//! magnitude comparison, rescaling shifts the digit window, and rounding is
//! half-to-even on the digit just above the truncation boundary.

use crate::arith::is_based;
use crate::arith::lemma_powb_pos;
use crate::arith::lemma_powb_unfold;
use crate::arith::lemma_val_append;
use crate::arith::lemma_val_bound;
use crate::arith::lemma_val_low_high;
use crate::arith::lemma_val_lt;
use crate::arith::lemma_val_split;
use crate::arith::lemma_val_suffix_step;
use crate::arith::lemma_val_zeros;
use crate::arith::place_val;
use crate::arith::powb;
use crate::Sign;
use core::cmp::Ordering;
use vstd::prelude::*;

verus! {

/// 64 decimal digits of unsigned magnitude, one ASCII byte per digit, most
/// significant first, with a sign and a scale.
#[derive(Debug)]
pub struct DecStr {
    pub sign: Sign,
    pub scale: i32,
    pub bytes: Vec<u8>,
}

impl DecStr {
    /// Numeric value of the stored digits.
    pub open spec fn dval(&self) -> nat {
        place_val(self.bytes@, 10)
    }

    /// Well-formed: exactly 64 ASCII decimal digits and a scale within the
    /// decimal range.
    pub open spec fn wf(&self) -> bool {
        &&& self.bytes@.len() == 64
        &&& is_based(self.bytes@, 10)
        &&& 0 <= self.scale <= 28
    }

    /// A vector of 64 '0' bytes.
    fn zero_bytes() -> (v: Vec<u8>)
        ensures
            v@.len() == 64,
            forall|i: int| 0 <= i < 64 ==> v@[i] == 48,
    {
        let mut v: Vec<u8> = Vec::new();
        while v.len() < 64
            invariant
                v@.len() <= 64,
                forall|i: int| 0 <= i < v@.len() ==> v@[i] == 48,
            decreases 64 - v@.len(),
        {
            v.push(48);
        }
        v
    }

    /// An exact copy.
    fn duplicate(&self) -> (r: Self)
        ensures
            r.sign == self.sign,
            r.scale == self.scale,
            r.bytes@ == self.bytes@,
    {
        let mut v: Vec<u8> = Vec::new();
        let mut i: usize = 0;
        while i < self.bytes.len()
            invariant
                i <= self.bytes@.len(),
                v@ == self.bytes@.take(i as int),
            decreases self.bytes@.len() - i,
        {
            v.push(self.bytes[i]);
            i += 1;
            proof {
                assert(v@ =~= self.bytes@.take(i as int));
            }
        }
        proof {
            assert(v@ =~= self.bytes@);
        }
        DecStr { sign: self.sign, scale: self.scale, bytes: v }
    }

    /// Build from a raw buffer of ASCII digits, right-aligned into the 64
    /// digit positions; longer buffers are not representable.
    pub fn from_digits(s: &[u8]) -> (r: Self)
        requires
            s@.len() <= 64,
            is_based(s@, 10),
        ensures
            r.wf(),
            r.sign == Sign::Positive,
            r.scale == 0,
            r.dval() == place_val(s@, 10),
    {
        let n = s.len();
        let mut v = Self::zero_bytes();
        let off: usize = 64 - n;
        let mut i: usize = 0;
        while i < n
            invariant
                s@.len() == n <= 64,
                is_based(s@, 10),
                off == 64 - n,
                i <= n,
                v@.len() == 64,
                forall|j: int| 0 <= j < off ==> v@[j] == 48,
                forall|j: int| off + i <= j < 64 ==> v@[j] == 48,
                forall|j: int| off <= j < off + i ==> v@[j] == s@[j - off as int],
            decreases n - i,
        {
            v.set(off + i, s[i]);
            i += 1;
        }
        proof {
            let zs = v@.take(off as int);
            assert(v@.skip(off as int) =~= s@);
            assert(forall|j: int| 0 <= j < zs.len() ==> zs[j] == 48);
            lemma_val_zeros(zs, 10);
            lemma_val_split(v@, off as int, 10);
            assert(place_val(zs, 10) * powb(10, n as nat) == 0) by (nonlinear_arith)
                requires
                    place_val(zs, 10) == 0,
            ;
            assert(is_based(v@, 10));
        }
        DecStr { sign: Sign::Positive, scale: 0, bytes: v }
    }

    /// Digit-by-digit addition with carry over the full width; a carry out
    /// of the top is dropped, so the sum is kept modulo `10^64`.
    fn digits_add(a: &Vec<u8>, b: &Vec<u8>) -> (r: Vec<u8>)
        requires
            a@.len() == 64,
            b@.len() == 64,
            is_based(a@, 10),
            is_based(b@, 10),
        ensures
            r@.len() == 64,
            is_based(r@, 10),
            place_val(r@, 10) == (place_val(a@, 10) + place_val(b@, 10)) % powb(10, 64),
    {
        let mut out = Self::zero_bytes();
        let mut carry: u8 = 0;
        let mut k: usize = 0;
        while k < 64
            invariant
                a@.len() == 64,
                b@.len() == 64,
                is_based(a@, 10),
                is_based(b@, 10),
                k <= 64,
                carry <= 1,
                out@.len() == 64,
                is_based(out@, 10),
                forall|j: int| 0 <= j < 64 - k ==> out@[j] == 48,
                place_val(out@.skip(64 - k as int), 10) + carry * powb(10, k as nat) == place_val(
                    a@.skip(64 - k as int),
                    10,
                ) + place_val(b@.skip(64 - k as int), 10),
            decreases 64 - k,
        {
            let p: usize = 63 - k;
            let da: u8 = a[p] - 48;
            let db: u8 = b[p] - 48;
            let t: u8 = da + db + carry;
            let d: u8 = t % 10;
            let ghost old_out = out@;
            let ghost old_carry = carry;
            out.set(p, d + 48);
            carry = t / 10;
            k += 1;
            proof {
                let pi = p as int;
                let kn = (k - 1) as nat;
                lemma_powb_unfold(10, k as nat);
                lemma_val_suffix_step(out@, pi, 10);
                lemma_val_suffix_step(a@, pi, 10);
                lemma_val_suffix_step(b@, pi, 10);
                assert(out@.skip(pi + 1) =~= old_out.skip(pi + 1));
                assert(out@[pi] == d + 48);
                let pk = powb(10, kn);
                let an = (a@[pi] - 48) as nat;
                let bn = (b@[pi] - 48) as nat;
                assert(an == da && bn == db);
                assert(d + 10 * carry == da + db + old_carry);
                assert(place_val(out@.skip(pi), 10) == d as nat * pk + place_val(
                    old_out.skip(pi + 1),
                    10,
                ));
                assert(d as nat * pk + carry as nat * (pk * 10) + place_val(old_out.skip(pi + 1), 10)
                    == an * pk + bn * pk + old_carry as nat * pk + place_val(
                    old_out.skip(pi + 1),
                    10,
                )) by (nonlinear_arith)
                    requires
                        d + 10 * carry == an + bn + old_carry,
                ;
            }
        }
        proof {
            assert(out@.skip(0) =~= out@);
            assert(a@.skip(0) =~= a@);
            assert(b@.skip(0) =~= b@);
            lemma_val_bound(out@, 10);
            lemma_powb_pos(10, 64);
            vstd::arithmetic::div_mod::lemma_fundamental_div_mod_converse(
                (place_val(a@, 10) + place_val(b@, 10)) as int,
                powb(10, 64) as int,
                carry as int,
                place_val(out@, 10) as int,
            );
        }
        out
    }

    /// Digit-by-digit subtraction with borrow of the smaller magnitude from
    /// the larger.
    fn digits_sub(a: &Vec<u8>, b: &Vec<u8>) -> (r: Vec<u8>)
        requires
            a@.len() == 64,
            b@.len() == 64,
            is_based(a@, 10),
            is_based(b@, 10),
            place_val(b@, 10) <= place_val(a@, 10),
        ensures
            r@.len() == 64,
            is_based(r@, 10),
            place_val(r@, 10) == place_val(a@, 10) - place_val(b@, 10),
    {
        let mut out = Self::zero_bytes();
        let mut borrow: u8 = 0;
        let mut k: usize = 0;
        while k < 64
            invariant
                a@.len() == 64,
                b@.len() == 64,
                is_based(a@, 10),
                is_based(b@, 10),
                k <= 64,
                borrow <= 1,
                out@.len() == 64,
                is_based(out@, 10),
                forall|j: int| 0 <= j < 64 - k ==> out@[j] == 48,
                place_val(out@.skip(64 - k as int), 10) + place_val(b@.skip(64 - k as int), 10)
                    == place_val(a@.skip(64 - k as int), 10) + borrow * powb(10, k as nat),
            decreases 64 - k,
        {
            let p: usize = 63 - k;
            let da: u8 = a[p] - 48;
            let db: u8 = b[p] - 48;
            let t: u8 = 10 + da - db - borrow;
            let d: u8 = t % 10;
            let nb: u8 = if t < 10 {
                1
            } else {
                0
            };
            let ghost old_out = out@;
            let ghost old_borrow = borrow;
            out.set(p, d + 48);
            borrow = nb;
            k += 1;
            proof {
                let pi = p as int;
                let kn = (k - 1) as nat;
                lemma_powb_unfold(10, k as nat);
                lemma_val_suffix_step(out@, pi, 10);
                lemma_val_suffix_step(a@, pi, 10);
                lemma_val_suffix_step(b@, pi, 10);
                assert(out@.skip(pi + 1) =~= old_out.skip(pi + 1));
                assert(out@[pi] == d + 48);
                let pk = powb(10, kn);
                let an = (a@[pi] - 48) as nat;
                let bn = (b@[pi] - 48) as nat;
                assert(an == da && bn == db);
                if t >= 10 {
                    assert(nb == 0);
                    assert(d == t - 10);
                } else {
                    assert(nb == 1);
                    assert(d == t);
                }
                assert(d as int == an + 10 * nb - bn - old_borrow);
                assert(d as nat * pk + bn * pk + old_borrow as nat * pk == an * pk + nb as nat * (pk
                    * 10)) by (nonlinear_arith)
                    requires
                        d as int == an + 10 * nb - bn - old_borrow,
                ;
            }
        }
        proof {
            assert(out@.skip(0) =~= out@);
            assert(a@.skip(0) =~= a@);
            assert(b@.skip(0) =~= b@);
            lemma_val_bound(out@, 10);
            lemma_powb_pos(10, 64);
            if borrow == 1 {
                assert(false);
            }
        }
        out
    }

    /// Compare two digit buffers as unsigned numbers.
    fn digits_cmp(a: &Vec<u8>, b: &Vec<u8>) -> (r: Ordering)
        requires
            a@.len() == 64,
            b@.len() == 64,
            is_based(a@, 10),
            is_based(b@, 10),
        ensures
            r == Ordering::Less <==> place_val(a@, 10) < place_val(b@, 10),
            r == Ordering::Greater <==> place_val(a@, 10) > place_val(b@, 10),
            r == Ordering::Equal <==> place_val(a@, 10) == place_val(b@, 10),
    {
        let mut i: usize = 0;
        while i < 64
            invariant
                a@.len() == 64,
                b@.len() == 64,
                is_based(a@, 10),
                is_based(b@, 10),
                i <= 64,
                forall|j: int| 0 <= j < i ==> a@[j] == b@[j],
            decreases 64 - i,
        {
            let x = a[i];
            let y = b[i];
            if x < y {
                proof {
                    lemma_val_lt(a@, b@, i as int, 10);
                }
                return Ordering::Less;
            }
            if x > y {
                proof {
                    lemma_val_lt(b@, a@, i as int, 10);
                }
                return Ordering::Greater;
            }
            i += 1;
        }
        proof {
            assert(a@ =~= b@);
        }
        Ordering::Equal
    }

    /// True iff every digit is '0'.
    fn digits_all_zero(v: &Vec<u8>) -> (r: bool)
        requires
            v@.len() == 64,
            is_based(v@, 10),
        ensures
            r == (place_val(v@, 10) == 0),
    {
        let mut i: usize = 0;
        while i < 64
            invariant
                v@.len() == 64,
                is_based(v@, 10),
                i <= 64,
                forall|j: int| 0 <= j < i ==> v@[j] == 48,
            decreases 64 - i,
        {
            if v[i] != 48 {
                proof {
                    crate::arith::lemma_val_pos(v@, i as int, 10);
                }
                return false;
            }
            i += 1;
        }
        proof {
            lemma_val_zeros(v@, 10);
        }
        true
    }

    /// Move the digit window: a positive delta multiplies by `10^delta` and
    /// raises the scale, a negative delta divides (dropping digits) and
    /// lowers it.
    pub fn rescale(&self, scale: i32) -> (r: Self)
        requires
            self.wf(),
            -28 <= scale <= 28,
            0 <= self.scale + scale <= 28,
            scale > 0 ==> self.dval() < powb(10, (64 - scale) as nat),
        ensures
            r.wf(),
            r.sign == self.sign,
            r.scale == self.scale + scale,
            scale >= 0 ==> r.dval() == self.dval() * powb(10, scale as nat),
            scale < 0 ==> r.dval() == self.dval() / powb(10, (-scale) as nat),
    {
        if scale == 0 {
            let mut r = self.duplicate();
            proof {
                vstd::arithmetic::power::lemma_pow0(10);
                assert(self.dval() * 1 == self.dval()) by (nonlinear_arith);
            }
            r
        } else if scale > 0 {
            let d = scale as usize;
            let mut nb: Vec<u8> = Vec::new();
            let mut i: usize = 0;
            while i < 64
                invariant
                    self.wf(),
                    1 <= d <= 28,
                    i <= 64,
                    nb@.len() == i,
                    forall|j: int|
                        0 <= j < i ==> nb@[j] == (if j + d < 64 {
                            self.bytes@[j + d]
                        } else {
                            48u8
                        }),
                decreases 64 - i,
            {
                if i + d < 64 {
                    nb.push(self.bytes[i + d]);
                } else {
                    nb.push(48);
                }
                i += 1;
            }
            proof {
                let w = (64 - d) as nat;
                let zs = Seq::<u8>::new(d as nat, |q: int| 48u8);
                assert(nb@ =~= self.bytes@.skip(d as int) + zs);
                lemma_val_append(self.bytes@.skip(d as int), zs, 10);
                assert(forall|j: int| 0 <= j < zs.len() ==> zs[j] == 48);
                lemma_val_zeros(zs, 10);
                lemma_val_low_high(self.bytes@, (64 - d) as int, 10);
                lemma_powb_pos(10, w);
                vstd::arithmetic::div_mod::lemma_small_mod(self.dval(), powb(10, w));
                assert(place_val(self.bytes@.skip(d as int), 10) == self.dval());
                assert(is_based(nb@, 10));
            }
            DecStr { sign: self.sign, scale: self.scale + scale, bytes: nb }
        } else {
            let k = (-scale) as usize;
            let mut nb: Vec<u8> = Vec::new();
            let mut i: usize = 0;
            while i < 64
                invariant
                    self.wf(),
                    1 <= k <= 28,
                    i <= 64,
                    nb@.len() == i,
                    forall|j: int|
                        0 <= j < i ==> nb@[j] == (if j < k {
                            48u8
                        } else {
                            self.bytes@[j - k as int]
                        }),
                decreases 64 - i,
            {
                if i < k {
                    nb.push(48);
                } else {
                    nb.push(self.bytes[i - k]);
                }
                i += 1;
            }
            proof {
                let zs = Seq::<u8>::new(k as nat, |q: int| 48u8);
                let hi = self.bytes@.take((64 - k) as int);
                assert(nb@ =~= zs + hi);
                lemma_val_append(zs, hi, 10);
                assert(forall|j: int| 0 <= j < zs.len() ==> zs[j] == 48);
                lemma_val_zeros(zs, 10);
                assert(0 * powb(10, hi.len()) == 0) by (nonlinear_arith);
                lemma_val_low_high(self.bytes@, k as int, 10);
                assert(is_based(nb@, 10));
            }
            DecStr { sign: self.sign, scale: self.scale + scale, bytes: nb }
        }
    }

    /// Drop all fractional digits: the truncation step of rounding.
    fn cut_fractional(&self) -> (r: Self)
        requires
            self.wf(),
        ensures
            r.wf(),
            r.sign == self.sign,
            r.scale == 0,
            r.dval() == self.dval() / powb(10, self.scale as nat),
    {
        let s = self.scale;
        if s == 0 {
            let r = self.duplicate();
            proof {
                vstd::arithmetic::power::lemma_pow0(10);
                vstd::arithmetic::div_mod::lemma_div_basics_2(self.dval() as int);
            }
            r
        } else {
            self.rescale(-s)
        }
    }

    /// A magnitude aligned onto scale `s` without loss.
    pub open spec fn aligned(x: &DecStr, s: nat) -> nat {
        x.dval() * powb(10, (s - x.scale) as nat)
    }

    /// The common scale of two operands: the larger of the two.
    pub open spec fn common_scale(a: &DecStr, b: &DecStr) -> nat {
        if a.scale >= b.scale {
            a.scale as nat
        } else {
            b.scale as nat
        }
    }

    /// Add, aligning both operands onto the larger scale first.  Matching
    /// signs add digit strings with carry; differing signs compare the
    /// aligned magnitudes and subtract the smaller from the larger, the
    /// result taking the larger side's sign and a tie giving the canonical
    /// zero.
    pub fn add(&self, other: &Self) -> (r: Self)
        requires
            self.wf(),
            other.wf(),
            Self::aligned(self, Self::common_scale(self, other)) < powb(10, 64),
            Self::aligned(other, Self::common_scale(self, other)) < powb(10, 64),
        ensures
            r.wf(),
            ({
                let s = Self::common_scale(self, other);
                let ma = Self::aligned(self, s);
                let mb = Self::aligned(other, s);
                &&& (self.sign == other.sign ==> {
                    &&& r.dval() == (ma + mb) % powb(10, 64)
                    &&& r.sign == self.sign
                    &&& (r.dval() != 0 ==> r.scale == s)
                    &&& (r.dval() == 0 ==> r.scale == 0)
                })
                &&& (self.sign != other.sign ==> {
                    &&& (ma > mb ==> r.dval() == ma - mb && r.sign == self.sign && r.scale == s)
                    &&& (mb > ma ==> r.dval() == mb - ma && r.sign == other.sign && r.scale == s)
                    &&& (ma == mb ==> r.dval() == 0 && r.sign == Sign::Positive && r.scale == 0)
                })
            }),
    {
        let ghost s = Self::common_scale(self, other);
        let mut left = self.duplicate();
        let mut right = other.duplicate();
        if left.scale < right.scale {
            proof {
                let d = (right.scale - left.scale) as nat;
                lemma_powb_pos(10, d);
                crate::arith::lemma_powb_adds(10, (64 - d) as nat, d);
                assert(self.dval() < powb(10, (64 - d) as nat)) by (nonlinear_arith)
                    requires
                        self.dval() * powb(10, d) < powb(10, (64 - d) as nat) * powb(10, d),
                        powb(10, d) >= 1,
                ;
            }
            left = left.rescale(right.scale - left.scale);
            proof {
                vstd::arithmetic::power::lemma_pow0(10);
                assert(other.dval() * 1 == other.dval()) by (nonlinear_arith);
            }
        } else if left.scale > right.scale {
            proof {
                let d = (left.scale - right.scale) as nat;
                lemma_powb_pos(10, d);
                crate::arith::lemma_powb_adds(10, (64 - d) as nat, d);
                assert(other.dval() < powb(10, (64 - d) as nat)) by (nonlinear_arith)
                    requires
                        other.dval() * powb(10, d) < powb(10, (64 - d) as nat) * powb(10, d),
                        powb(10, d) >= 1,
                ;
            }
            right = right.rescale(left.scale - right.scale);
            proof {
                vstd::arithmetic::power::lemma_pow0(10);
                assert(self.dval() * 1 == self.dval()) by (nonlinear_arith);
            }
        } else {
            proof {
                vstd::arithmetic::power::lemma_pow0(10);
                assert(self.dval() * 1 == self.dval() && other.dval() * 1 == other.dval())
                    by (nonlinear_arith);
            }
        }
        proof {
            assert(left.dval() == Self::aligned(self, s));
            assert(right.dval() == Self::aligned(other, s));
        }
        let same = match (self.sign, other.sign) {
            (Sign::Positive, Sign::Positive) => true,
            (Sign::Negative, Sign::Negative) => true,
            _ => false,
        };
        if same {
            let sum = Self::digits_add(&left.bytes, &right.bytes);
            let zero = Self::digits_all_zero(&sum);
            let sc = if zero {
                0
            } else {
                left.scale
            };
            DecStr { sign: left.sign, scale: sc, bytes: sum }
        } else {
            let ord = Self::digits_cmp(&left.bytes, &right.bytes);
            match ord {
                Ordering::Greater => {
                    let diff = Self::digits_sub(&left.bytes, &right.bytes);
                    DecStr { sign: left.sign, scale: left.scale, bytes: diff }
                },
                Ordering::Less => {
                    let diff = Self::digits_sub(&right.bytes, &left.bytes);
                    DecStr { sign: right.sign, scale: left.scale, bytes: diff }
                },
                Ordering::Equal => Self::default(),
            }
        }
    }

    /// In-place variant of `add`.
    pub fn add_mut(&mut self, other: &Self)
        requires
            old(self).wf(),
            other.wf(),
            Self::aligned(old(self), Self::common_scale(old(self), other)) < powb(10, 64),
            Self::aligned(other, Self::common_scale(old(self), other)) < powb(10, 64),
        ensures
            final(self).wf(),
            ({
                let s = Self::common_scale(old(self), other);
                let ma = Self::aligned(old(self), s);
                let mb = Self::aligned(other, s);
                &&& (old(self).sign == other.sign ==> {
                    &&& final(self).dval() == (ma + mb) % powb(10, 64)
                    &&& final(self).sign == old(self).sign
                    &&& (final(self).dval() != 0 ==> final(self).scale == s)
                    &&& (final(self).dval() == 0 ==> final(self).scale == 0)
                })
                &&& (old(self).sign != other.sign ==> {
                    &&& (ma > mb ==> final(self).dval() == ma - mb && final(self).sign == old(
                        self,
                    ).sign && final(self).scale == s)
                    &&& (mb > ma ==> final(self).dval() == mb - ma && final(self).sign
                        == other.sign && final(self).scale == s)
                    &&& (ma == mb ==> final(self).dval() == 0 && final(self).sign
                        == Sign::Positive && final(self).scale == 0)
                })
            }),
    {
        let r = self.add(other);
        *self = r;
    }

    /// Number of digits from the first significant digit to the end.
    pub fn len(&self) -> (r: usize)
        requires
            self.wf(),
        ensures
            r <= 64,
            forall|j: int| 0 <= j < 64 - r ==> self.bytes@[j] == 48,
            r > 0 ==> self.bytes@[64 - r as int] != 48,
    {
        let mut i: usize = 0;
        while i < 64
            invariant
                self.wf(),
                i <= 64,
                forall|j: int| 0 <= j < i ==> self.bytes@[j] == 48,
            decreases 64 - i,
        {
            if self.bytes[i] != 48 {
                return 64 - i;
            }
            i += 1;
        }
        0
    }

    /// Round to an integer, half-to-even style: inspect the digit just above
    /// the truncation boundary; an even digit keeps the truncated value, an
    /// odd one moves it by one unit towards the positive side of the
    /// truncated magnitude.
    pub fn banker_round(&self) -> (r: Self)
        requires
            self.wf(),
        ensures
            self.scale == 0 ==> r.sign == self.sign && r.scale == 0 && r.dval() == self.dval(),
            self.scale > 0 ==> ({
                let ip = self.dval() / powb(10, self.scale as nat);
                &&& r.scale == 0
                &&& (ip % 2 == 0 ==> r.dval() == ip && r.sign == self.sign)
                &&& (ip % 2 == 1 && self.sign == Sign::Positive ==> r.dval() == ip + 1 && r.sign
                    == Sign::Positive)
                &&& (ip % 2 == 1 && self.sign == Sign::Negative ==> r.dval() == ip - 1 && (ip > 1
                    ==> r.sign == Sign::Negative) && (ip == 1 ==> r.sign == Sign::Positive))
            }),
    {
        if self.scale <= 0 {
            return self.duplicate();
        }
        let pos: usize = 63 - (self.scale as usize);
        let digit = self.bytes[pos] - 48;
        let cut = self.cut_fractional();
        let ghost ip = self.dval() / powb(10, self.scale as nat);
        proof {
            let sc = self.scale as int;
            lemma_val_low_high(self.bytes@, sc, 10);
            let hi = self.bytes@.take(64 - sc);
            assert(place_val(hi, 10) == ip);
            assert(hi.last() == self.bytes@[pos as int]);
            assert(place_val(hi, 10) == place_val(hi.drop_last(), 10) * 10 + (hi.last()
                - 48) as nat);
            vstd::arithmetic::div_mod::lemma_fundamental_div_mod_converse(
                ip as int,
                10,
                place_val(hi.drop_last(), 10) as int,
                (hi.last() - 48) as nat as int,
            );
            assert(digit as nat == ip % 10);
            let q = ip / 10;
            assert(ip == q * 10 + ip % 10);
            vstd::arithmetic::div_mod::lemma_mod_multiples_vanish(
                (5 * q) as int,
                (ip % 10) as int,
                2,
            );
            assert(q * 10 == 2 * (5 * q)) by (nonlinear_arith);
            assert(ip % 2 == (ip % 10) % 2);
            // the integer part is small enough that adding one cannot wrap
            lemma_val_bound(self.bytes@, 10);
            lemma_powb_unfold(10, 64);
            lemma_powb_pos(10, 63);
            assert(powb(10, self.scale as nat) >= 10) by {
                crate::arith::lemma_powb_mono(10, 1, self.scale as nat);
                vstd::arithmetic::power::lemma_pow1(10);
            }
            vstd::arithmetic::div_mod::lemma_div_is_ordered_by_denominator(
                self.dval() as int,
                10,
                powb(10, self.scale as nat) as int,
            );
            assert(powb(10, 64) == powb(10, 63) * 10);
            assert((powb(10, 63) * 10 - 1) as int == (powb(10, 63) - 1) * 10 + 9)
                by (nonlinear_arith);
            vstd::arithmetic::div_mod::lemma_fundamental_div_mod_converse(
                (powb(10, 64) - 1) as int,
                10,
                (powb(10, 63) - 1) as int,
                9,
            );
            vstd::arithmetic::div_mod::lemma_div_is_ordered(
                self.dval() as int,
                (powb(10, 64) - 1) as int,
                10,
            );
            assert(ip <= self.dval() / 10);
            assert(ip < powb(10, 63));
        }
        if digit % 2 == 0 {
            cut
        } else {
            let onebuf: [u8; 1] = [49];
            let one = Self::from_digits(onebuf.as_slice());
            proof {
                assert(onebuf@.len() == 1);
                assert(is_based(onebuf@, 10));
                assert(place_val(onebuf@, 10) == place_val(onebuf@.drop_last(), 10) * 10 + (
                onebuf@.last() - 48) as nat);
                assert(place_val(onebuf@.drop_last(), 10) == 0);
                assert(one.dval() == 1);
                vstd::arithmetic::power::lemma_pow0(10);
                assert(Self::aligned(&cut, Self::common_scale(&cut, &one)) == cut.dval() * 1);
                assert(cut.dval() * 1 == cut.dval() && one.dval() * 1 == one.dval())
                    by (nonlinear_arith);
                lemma_val_bound(cut.bytes@, 10);
                lemma_powb_pos(10, 64);
                vstd::arithmetic::div_mod::lemma_small_mod((ip + 1) as nat, powb(10, 64));
            }
            let out = cut.add(&one);
            out
        }
    }
    /// Parse a decimal literal: optional leading '-', digits with optional
    /// '_' separators and at most one '.', the digit count after it giving
    /// the scale.  `None` when the text is not such a literal or does not
    /// fit the 64-digit window.
    pub fn from_literal(text: &str) -> (r: Option<Self>)
        ensures
            r is Some <==> crate::literal::dec_lit_wf(text@),
            r is Some ==> {
                let d = r->0;
                &&& d.wf()
                &&& d.dval() == crate::literal::lit_val(text@)
                &&& d.sign == (if crate::literal::lit_neg(text@) {
                    Sign::Negative
                } else {
                    Sign::Positive
                })
                &&& d.scale == crate::literal::lit_scale(text@)
            },
    {
        let n = text.unicode_len();
        let mut digits: Vec<u8> = Vec::new();
        let mut negative = false;
        let mut seen_point = false;
        let mut fcount: u32 = 0;
        proof {
            assert(text@.take(0) =~= Seq::<char>::empty());
            assert(crate::literal::lit_digits(text@.take(0)) =~= Seq::<u8>::empty());
        }
        let mut i: usize = 0;
        while i < n
            invariant
                n == text@.len(),
                i <= n,
                digits@ == crate::literal::lit_digits(text@.take(i as int)),
                digits@.len() <= 64,
                is_based(digits@, 10),
                negative == crate::literal::lit_neg(text@.take(i as int)),
                seen_point == (crate::literal::count_char(text@.take(i as int), '.') >= 1),
                crate::literal::count_char(text@.take(i as int), '.') <= 1,
                fcount as nat == crate::literal::lit_scale(text@.take(i as int)),
                fcount <= 28,
                forall|j: int|
                    0 <= j < i ==> (crate::literal::is_digit_char(#[trigger] text@[j]) || text@[j]
                        == '_' || text@[j] == '.' || (j == 0 && text@[j] == '-')),
            decreases n - i,
        {
            let c = text.get_char(i);
            proof {
                assert(text@.take(i as int + 1).drop_last() =~= text@.take(i as int));
                assert(text@.take(i as int + 1).last() == text@[i as int]);
            }
            if c == '-' {
                if i != 0 {
                    proof {
                        assert(!crate::literal::is_digit_char(text@[i as int]));
                        assert(!crate::literal::lit_wf(text@));
                    }
                    return None;
                }
                negative = true;
                proof {
                    let t1 = text@.take(i as int + 1);
                    assert(!crate::literal::is_digit_char(c));
                    assert(crate::literal::lit_digits(t1) =~= crate::literal::lit_digits(
                        text@.take(i as int),
                    ));
                    assert(crate::literal::count_char(text@.take(i as int), '.') == 0);
                    crate::literal::lemma_scale_zero_without_point(t1);
                    assert(t1[0] == '-');
                }
            } else if c == '.' {
                if seen_point {
                    proof {
                        crate::literal::lemma_count_take_le(text@, i as int + 1, '.');
                        assert(crate::literal::count_char(text@, '.') >= 2);
                    }
                    return None;
                }
                seen_point = true;
                fcount = 0;
                proof {
                    let t1 = text@.take(i as int + 1);
                    assert(!crate::literal::is_digit_char(c));
                    assert(crate::literal::lit_digits(t1) =~= crate::literal::lit_digits(
                        text@.take(i as int),
                    ));
                    assert(crate::literal::lit_scale(t1) == 0);
                    assert(crate::literal::count_char(t1, '.') >= 1);
                    assert(crate::literal::lit_neg(t1) == crate::literal::lit_neg(
                        text@.take(i as int),
                    ));
                }
            } else if c == '_' {
                proof {
                    let t1 = text@.take(i as int + 1);
                    assert(!crate::literal::is_digit_char(c));
                    assert(crate::literal::lit_digits(t1) =~= crate::literal::lit_digits(
                        text@.take(i as int),
                    ));
                    assert(crate::literal::lit_neg(t1) == crate::literal::lit_neg(
                        text@.take(i as int),
                    ));
                }
            } else {
                let u = c as u32;
                if u < 48 || u > 57 {
                    proof {
                        assert(!crate::literal::is_digit_char(text@[i as int]));
                        assert(text@[i as int] != '-' && text@[i as int] != '.' && text@[i as int]
                            != '_');
                        assert(!crate::literal::lit_wf(text@));
                    }
                    return None;
                }
                if digits.len() == 64 {
                    proof {
                        let t1 = text@.take(i as int + 1);
                        assert(crate::literal::is_digit_char(c));
                        assert(crate::literal::lit_digits(t1) =~= crate::literal::lit_digits(
                            text@.take(i as int),
                        ).push((c as u32) as u8));
                        crate::literal::lemma_lit_digits_take_le(text@, i as int + 1);
                        assert(crate::literal::lit_digits(text@).len() >= 65);
                    }
                    return None;
                }
                if seen_point {
                    if fcount == 28 {
                        proof {
                            let t1 = text@.take(i as int + 1);
                            assert(crate::literal::is_digit_char(c));
                            assert(crate::literal::lit_scale(t1) == 29);
                            if crate::literal::count_char(text@, '.') <= 1 {
                                crate::literal::lemma_lit_scale_le(text@, i as int + 1);
                                assert(crate::literal::lit_scale(text@) >= 29);
                            }
                            assert(!crate::literal::lit_wf(text@));
                        }
                        return None;
                    }
                    fcount = fcount + 1;
                }
                digits.push(u as u8);
                proof {
                    let t1 = text@.take(i as int + 1);
                    assert(crate::literal::is_digit_char(c));
                    assert(crate::literal::lit_digits(t1) =~= crate::literal::lit_digits(
                        text@.take(i as int),
                    ).push((c as u32) as u8));
                    assert(crate::literal::lit_neg(t1) == crate::literal::lit_neg(
                        text@.take(i as int),
                    ));
                    if !seen_point {
                        assert(crate::literal::count_char(text@.take(i as int), '.') == 0);
                        crate::literal::lemma_scale_zero_without_point(t1);
                    }
                }
            }
            i = i + 1;
        }
        proof {
            assert(text@.take(n as int) =~= text@);
            assert(crate::literal::dec_lit_wf(text@));
        }
        let mut r = Self::from_digits(digits.as_slice());
        r.sign = if negative {
            Sign::Negative
        } else {
            Sign::Positive
        };
        r.scale = fcount as i32;
        Some(r)
    }

    /// Convert a binary magnitude to decimal digits by summing a doubling
    /// power of two for every set bit, least significant first; sign and
    /// scale carry through.
    pub fn from_bitstr(b: &crate::bitstr::BitStr) -> (r: Self)
        requires
            b.wf(),
        ensures
            r.wf(),
            r.dval() == b.val(),
            r.sign == b.sign,
            r.scale == b.scale,
    {
        proof {
            crate::arith::lemma_pow2_96_lt_pow10_64();
        }
        let mut acc = Self::zero_bytes();
        let onebuf: [u8; 1] = [49];
        let one = Self::from_digits(onebuf.as_slice());
        proof {
            assert(place_val(onebuf@, 10) == place_val(onebuf@.drop_last(), 10) * 10 + (
            onebuf@.last() - 48) as nat);
            assert(place_val(onebuf@.drop_last(), 10) == 0);
            assert(one.dval() == 1);
            lemma_val_zeros(acc@, 10);
            vstd::arithmetic::power::lemma_pow0(2);
        }
        let mut p2 = one.bytes;
        let mut idx: usize = 0;
        while idx < 96
            invariant
                b.wf(),
                idx <= 96,
                acc@.len() == 64,
                is_based(acc@, 10),
                p2@.len() == 64,
                is_based(p2@, 10),
                place_val(p2@, 10) == powb(2, idx as nat),
                place_val(acc@, 10) == place_val(b.bytes@.skip(96 - idx as int), 2),
            decreases 96 - idx,
        {
            let pos: usize = 95 - idx;
            proof {
                crate::arith::lemma_pow2_96_lt_pow10_64();
                crate::arith::lemma_powb_mono(2, idx as nat, 95);
                crate::arith::lemma_powb_mono(2, (idx + 1) as nat, 96);
                lemma_powb_unfold(2, (idx + 1) as nat);
                crate::arith::lemma_val_suffix_step(b.bytes@, pos as int, 2);
                lemma_powb_pos(10, 64);
                crate::arith::lemma_val_bound(b.bytes@.skip(96 - idx as int), 2);
            }
            if b.bytes[pos] == 49 {
                let ghost accv = place_val(acc@, 10);
                let sum = Self::digits_add(&acc, &p2);
                proof {
                    vstd::arithmetic::div_mod::lemma_small_mod(
                        (accv + powb(2, idx as nat)) as nat,
                        powb(10, 64),
                    );
                    assert(((b.bytes@[pos as int] - 48) as nat) * powb(2, idx as nat) == powb(
                        2,
                        idx as nat,
                    )) by (nonlinear_arith)
                        requires
                            b.bytes@[pos as int] == 49,
                    ;
                }
                acc = sum;
            } else {
                proof {
                    assert(b.bytes@[pos as int] == 48);
                    assert(((b.bytes@[pos as int] - 48) as nat) * powb(2, idx as nat) == 0)
                        by (nonlinear_arith)
                        requires
                            b.bytes@[pos as int] == 48,
                    ;
                }
            }
            let dbl = Self::digits_add(&p2, &p2);
            proof {
                vstd::arithmetic::div_mod::lemma_small_mod(
                    (powb(2, idx as nat) + powb(2, idx as nat)) as nat,
                    powb(10, 64),
                );
                assert(powb(2, (idx + 1) as nat) == powb(2, idx as nat) * 2);
            }
            p2 = dbl;
            idx = idx + 1;
        }
        proof {
            assert(b.bytes@.skip(0) =~= b.bytes@);
        }
        DecStr { sign: b.sign, scale: b.scale, bytes: acc }
    }

    /// Append one decimal digit byte to a string as its character.
    fn push_digit(out: &mut String, b: u8)
        requires
            48 <= b <= 57,
        ensures
            final(out)@ == old(out)@.push(b as char),
    {
        if b == 48 {
            out.append("0");
            proof {
                reveal_strlit("0");
                assert(out@ =~= old(out)@.push(b as char));
            }
        } else if b == 49 {
            out.append("1");
            proof {
                reveal_strlit("1");
                assert(out@ =~= old(out)@.push(b as char));
            }
        } else if b == 50 {
            out.append("2");
            proof {
                reveal_strlit("2");
                assert(out@ =~= old(out)@.push(b as char));
            }
        } else if b == 51 {
            out.append("3");
            proof {
                reveal_strlit("3");
                assert(out@ =~= old(out)@.push(b as char));
            }
        } else if b == 52 {
            out.append("4");
            proof {
                reveal_strlit("4");
                assert(out@ =~= old(out)@.push(b as char));
            }
        } else if b == 53 {
            out.append("5");
            proof {
                reveal_strlit("5");
                assert(out@ =~= old(out)@.push(b as char));
            }
        } else if b == 54 {
            out.append("6");
            proof {
                reveal_strlit("6");
                assert(out@ =~= old(out)@.push(b as char));
            }
        } else if b == 55 {
            out.append("7");
            proof {
                reveal_strlit("7");
                assert(out@ =~= old(out)@.push(b as char));
            }
        } else if b == 56 {
            out.append("8");
            proof {
                reveal_strlit("8");
                assert(out@ =~= old(out)@.push(b as char));
            }
        } else {
            out.append("9");
            proof {
                reveal_strlit("9");
                assert(out@ =~= old(out)@.push(b as char));
            }
        }
    }

    /// The integer-part digits, leading zeros dropped; empty when the
    /// integer part is zero.
    pub fn integral(&self) -> (r: String)
        requires
            self.wf(),
        ensures
            r@ == (if self.dval() / powb(10, self.scale as nat) == 0 {
                Seq::<char>::empty()
            } else {
                crate::literal::digits_of(self.dval() / powb(10, self.scale as nat))
            }),
    {
        let sc = self.scale as usize;
        let int_len: usize = 64 - sc;
        let ghost ip = self.dval() / powb(10, self.scale as nat);
        proof {
            lemma_val_low_high(self.bytes@, self.scale as int, 10);
            assert(place_val(self.bytes@.take(int_len as int), 10) == ip);
        }
        let mut start: usize = 0;
        while start < int_len && self.bytes[start] == 48
            invariant
                self.wf(),
                int_len == 64 - self.scale,
                start <= int_len,
                forall|j: int| 0 <= j < start ==> self.bytes@[j] == 48,
            decreases int_len - start,
        {
            start += 1;
        }
        let mut out = String::new();
        if start == int_len {
            proof {
                assert(forall|j: int|
                    0 <= j < self.bytes@.take(int_len as int).len() ==> self.bytes@.take(
                        int_len as int,
                    )[j] == 48);
                lemma_val_zeros(self.bytes@.take(int_len as int), 10);
            }
            return out;
        }
        let ghost seg = self.bytes@.subrange(start as int, int_len as int);
        proof {
            let head = self.bytes@.take(int_len as int);
            lemma_val_split(head, start as int, 10);
            assert(head.take(start as int) =~= self.bytes@.take(start as int));
            assert(forall|j: int|
                0 <= j < head.take(start as int).len() ==> head.take(start as int)[j] == 48);
            lemma_val_zeros(head.take(start as int), 10);
            assert(head.skip(start as int) =~= seg);
            assert(0 * powb(10, seg.len()) == 0) by (nonlinear_arith);
            assert(place_val(seg, 10) == ip);
            assert(is_based(seg, 10));
            assert(seg[0] == self.bytes@[start as int]);
            assert(seg[0] != 48);
            crate::literal::lemma_digits_of_val(seg);
            crate::arith::lemma_val_pos(seg, 0, 10);
        }
        let mut i: usize = start;
        while i < int_len
            invariant
                self.wf(),
                int_len == 64 - self.scale,
                start < int_len,
                seg == self.bytes@.subrange(start as int, int_len as int),
                start <= i <= int_len,
                out@ == crate::literal::chars_of_bytes(seg).take(i - start),
            decreases int_len - i,
        {
            let b = self.bytes[i];
            Self::push_digit(&mut out, b);
            i += 1;
            proof {
                assert(out@ =~= crate::literal::chars_of_bytes(seg).take(i - start));
            }
        }
        proof {
            assert(out@ =~= crate::literal::chars_of_bytes(seg));
        }
        out
    }

    /// The fractional digits, exactly `scale` of them, zero-padded.
    pub fn fraction(&self) -> (r: String)
        requires
            self.wf(),
        ensures
            r@ == crate::literal::pad_digits(
                self.dval() % powb(10, self.scale as nat),
                self.scale as nat,
            ),
    {
        let sc = self.scale as usize;
        let int_len: usize = 64 - sc;
        let ghost seg = self.bytes@.skip(int_len as int);
        proof {
            lemma_val_low_high(self.bytes@, self.scale as int, 10);
            assert(is_based(seg, 10));
            crate::literal::lemma_pad_digits_val(seg);
        }
        let mut out = String::new();
        let mut i: usize = int_len;
        while i < 64
            invariant
                self.wf(),
                int_len == 64 - self.scale,
                seg == self.bytes@.skip(int_len as int),
                int_len <= i <= 64,
                out@ == crate::literal::chars_of_bytes(seg).take(i - int_len),
            decreases 64 - i,
        {
            let b = self.bytes[i];
            Self::push_digit(&mut out, b);
            i += 1;
            proof {
                assert(out@ =~= crate::literal::chars_of_bytes(seg).take(i - int_len));
            }
        }
        proof {
            assert(out@ =~= crate::literal::chars_of_bytes(seg));
        }
        out
    }

    /// Canonical text: `[-]digits[.digits]`, integer part at least one
    /// digit, fractional part present exactly when the scale is positive.
    pub fn to_text(&self) -> (r: String)
        requires
            self.wf(),
        ensures
            r@ == crate::literal::render_text(
                self.sign == Sign::Negative,
                self.dval(),
                self.scale as nat,
            ),
    {
        let mut out = String::new();
        match self.sign {
            Sign::Negative => {
                out.append("-");
                proof {
                    reveal_strlit("-");
                    assert(out@ =~= seq!['-']);
                }
            },
            Sign::Positive => {},
        }
        let ghost signpart: Seq<char> = if self.sign == Sign::Negative {
            seq!['-']
        } else {
            Seq::empty()
        };
        proof {
            assert(out@ =~= signpart);
        }
        let ipart = self.integral();
        if ipart.as_str().is_empty() {
            out.append("0");
            proof {
                reveal_strlit("0");
                if self.dval() / powb(10, self.scale as nat) != 0 {
                    crate::literal::lemma_digits_of_nonempty(
                        self.dval() / powb(10, self.scale as nat),
                    );
                }
                assert(self.dval() / powb(10, self.scale as nat) == 0);
                assert(crate::literal::digits_of(0) =~= seq!['0']);
                assert(crate::literal::digit_char(0) == '0');
                assert(out@ =~= signpart + crate::literal::digits_of(
                    self.dval() / powb(10, self.scale as nat),
                ));
            }
        } else {
            out.append(ipart.as_str());
            proof {
                assert(out@ =~= signpart + crate::literal::digits_of(
                    self.dval() / powb(10, self.scale as nat),
                ));
            }
        }
        if self.scale > 0 {
            out.append(".");
            proof {
                reveal_strlit(".");
            }
            let fpart = self.fraction();
            out.append(fpart.as_str());
            proof {
                assert(out@ =~= signpart + crate::literal::digits_of(
                    self.dval() / powb(10, self.scale as nat),
                ) + (seq!['.'] + crate::literal::pad_digits(
                    self.dval() % powb(10, self.scale as nat),
                    self.scale as nat,
                )));
            }
        } else {
            proof {
                assert(out@ =~= signpart + crate::literal::digits_of(
                    self.dval() / powb(10, self.scale as nat),
                ) + Seq::<char>::empty());
            }
        }
        out
    }

    /// Law: parsing a supported literal and rendering the result gives the
    /// literal's canonical form, with the leading zeros of the integer part
    /// suppressed and the fractional digits preserved as written.
    pub proof fn lemma_parse_render_canonical(text: Seq<char>)
        requires
            crate::literal::dec_lit_wf(text),
        ensures
            crate::literal::render_text(
                crate::literal::lit_neg(text),
                crate::literal::lit_val(text),
                crate::literal::lit_scale(text),
            ) == crate::literal::canon_text(text),
    {
        let digs = crate::literal::lit_digits(text);
        crate::literal::lemma_lit_digits_based(text);
        crate::literal::lemma_scale_le_digits(text);
        let k = crate::literal::lit_scale(text);
        let cut = digs.len() - k as int;
        lemma_val_low_high(digs, k as int, 10);
        let v = crate::literal::lit_val(text);
        let ip = v / powb(10, k);
        let fp = v % powb(10, k);
        assert(place_val(digs.take(cut), 10) == ip);
        assert(place_val(digs.skip(cut), 10) == fp);
        assert(is_based(digs.take(cut), 10));
        assert(is_based(digs.skip(cut), 10));
        crate::literal::lemma_trim_digits(digs.take(cut));
        crate::literal::lemma_pad_digits_val(digs.skip(cut));
        let int_chars = crate::literal::trim_zeros(crate::literal::chars_of_bytes(digs.take(cut)));
        if ip == 0 {
            assert(int_chars.len() == 0);
            assert(crate::literal::digits_of(0) =~= seq!['0']);
            assert(crate::literal::digit_char(0) == '0');
        } else {
            assert(int_chars == crate::literal::digits_of(ip));
            assert(int_chars.len() > 0) by {
                if crate::literal::digits_of(ip).len() == 0 {
                    assert(false);
                }
            }
        }
        assert(crate::literal::render_text(crate::literal::lit_neg(text), v, k)
            =~= crate::literal::canon_text(text));
    }

    /// Law: a non-negative value ending in an exact half rounds to the even
    /// one of the two nearest integers at the truncated scale.  The last
    /// premises are exactly what `banker_round` guarantees for such an
    /// operand.
    pub proof fn lemma_round_half_to_even(d: &DecStr, r: &DecStr)
        requires
            d.wf(),
            d.sign == Sign::Positive,
            d.scale >= 1,
            d.dval() % powb(10, d.scale as nat) == 5 * powb(10, (d.scale - 1) as nat),
            r.scale == 0,
            (d.dval() / powb(10, d.scale as nat)) % 2 == 0 ==> r.dval() == d.dval() / powb(
                10,
                d.scale as nat,
            ),
            (d.dval() / powb(10, d.scale as nat)) % 2 == 1 ==> r.dval() == d.dval() / powb(
                10,
                d.scale as nat,
            ) + 1,
        ensures
            r.dval() % 2 == 0,
            d.dval() / powb(10, d.scale as nat) <= r.dval() <= d.dval() / powb(
                10,
                d.scale as nat,
            ) + 1,
    {
        let ip = d.dval() / powb(10, d.scale as nat);
        assert(ip % 2 == 1 ==> r.dval() == ip + 1);
        assert(ip % 2 == 0 ==> r.dval() == ip);
        if ip % 2 == 1 {
            assert(r.dval() == ip + 1);
            assert((ip + 1) % 2 == 0) by (nonlinear_arith)
                requires
                    ip % 2 == 1,
            ;
            assert(r.dval() % 2 == 0);
        }
    }

}

impl Default for DecStr {
    /// The canonical zero: positive, scale 0, all digits '0'.
    fn default() -> (r: Self)
        ensures
            r.wf(),
            r.dval() == 0,
            r.sign == Sign::Positive,
            r.scale == 0,
    {
        let v = DecStr::zero_bytes();
        proof {
            lemma_val_zeros(v@, 10);
        }
        DecStr { sign: Sign::Positive, scale: 0, bytes: v }
    }
}

impl PartialEq for DecStr {
    fn eq(&self, other: &DecStr) -> (r: bool) {
        if self.sign != other.sign {
            return false;
        }
        if self.scale != other.scale {
            return false;
        }
        if self.bytes.len() != other.bytes.len() {
            return false;
        }
        let mut i: usize = 0;
        while i < self.bytes.len()
            invariant
                self.bytes@.len() == other.bytes@.len(),
                i <= self.bytes@.len(),
                forall|j: int| 0 <= j < i ==> self.bytes@[j] == other.bytes@[j],
            decreases self.bytes@.len() - i,
        {
            if self.bytes[i] != other.bytes[i] {
                return false;
            }
            i += 1;
        }
        proof {
            assert(self.bytes@ =~= other.bytes@);
        }
        true
    }
}

impl vstd::std_specs::cmp::PartialEqSpecImpl for DecStr {
    open spec fn obeys_eq_spec() -> bool {
        true
    }

    open spec fn eq_spec(&self, other: &DecStr) -> bool {
        self.sign == other.sign && self.scale == other.scale && self.bytes@ == other.bytes@
    }
}

} // verus!
