//! Spec-level model of fixed-width digit strings.
//!
//! Both engines of this crate store a magnitude as a fixed sequence of ASCII
//! digit bytes, most significant first: the bit engine uses base 2 ('0'/'1'),
//! the decimal engine base 10 ('0'..'9').  `place_val` gives such a sequence
//! its numeric value; the lemmas here relate that value to concatenation,
//! splitting, bounds, ordering and uniqueness of the representation.

use vstd::prelude::*;
use vstd::arithmetic::power::pow;
use vstd::arithmetic::power::lemma_pow_positive;
use vstd::arithmetic::power::lemma_pow_adds;
use vstd::arithmetic::power::lemma_pow0;
use vstd::arithmetic::power::lemma_pow1;
use vstd::arithmetic::div_mod::lemma_fundamental_div_mod_converse;
use vstd::arithmetic::mul::lemma_mul_inequality;
use vstd::arithmetic::power::lemma_pow_increases;
use vstd::arithmetic::power::lemma_pow_multiplies;
use vstd::arithmetic::power::lemma_pow_strictly_increases;

verus! {

/// `base^e` as a natural number.
pub open spec fn powb(base: nat, e: nat) -> nat {
    pow(base as int, e) as nat
}

/// Numeric value of a digit string stored most significant first, one ASCII
/// byte per position: byte `b` stands for the digit `b - 48`.
pub open spec fn place_val(s: Seq<u8>, base: nat) -> nat
    decreases s.len(),
{
    if s.len() == 0 {
        0
    } else {
        place_val(s.drop_last(), base) * base + (s.last() - 48) as nat
    }
}

/// Every byte of `s` is an ASCII digit strictly below `base`.
pub open spec fn is_based(s: Seq<u8>, base: nat) -> bool {
    forall|i: int| 0 <= i < s.len() ==> 48 <= #[trigger] s[i] < 48 + base
}

pub proof fn lemma_powb_pos(base: nat, e: nat)
    requires
        base >= 1,
    ensures
        powb(base, e) >= 1,
{
    lemma_pow_positive(base as int, e);
}

pub proof fn lemma_powb_adds(base: nat, e1: nat, e2: nat)
    requires
        base >= 1,
    ensures
        powb(base, (e1 + e2) as nat) == powb(base, e1) * powb(base, e2),
{
    lemma_pow_positive(base as int, e1);
    lemma_pow_positive(base as int, e2);
    lemma_pow_adds(base as int, e1, e2);
}

/// One unfolding of `powb` at a positive exponent.
pub proof fn lemma_powb_unfold(base: nat, e: nat)
    requires
        base >= 1,
        e >= 1,
    ensures
        powb(base, e) == powb(base, (e - 1) as nat) * base,
{
    lemma_powb_adds(base, (e - 1) as nat, 1);
    lemma_pow1(base as int);
}

/// A digit string of length `n` is worth less than `base^n`.
pub proof fn lemma_val_bound(s: Seq<u8>, base: nat)
    requires
        base >= 1,
        is_based(s, base),
    ensures
        place_val(s, base) < powb(base, s.len()),
    decreases s.len(),
{
    if s.len() == 0 {
        lemma_pow0(base as int);
    } else {
        let t = s.drop_last();
        assert(is_based(t, base));
        lemma_val_bound(t, base);
        let d = (s.last() - 48) as nat;
        assert(d < base);
        assert(place_val(s, base) == place_val(t, base) * base + d);
        lemma_mul_inequality(place_val(t, base) as int, (powb(base, t.len()) - 1) as int, base as int);
        lemma_powb_unfold(base, s.len());
        assert((powb(base, t.len()) - 1) * base + (base - 1) < powb(base, s.len())) by {
            assert((powb(base, t.len()) - 1) * (base as int) == powb(base, t.len()) * base - base)
                by (nonlinear_arith);
        }
    }
}

/// Concatenation: the left part is shifted up by the length of the right part.
pub proof fn lemma_val_append(s: Seq<u8>, t: Seq<u8>, base: nat)
    requires
        base >= 1,
    ensures
        place_val(s + t, base) == place_val(s, base) * powb(base, t.len()) + place_val(t, base),
    decreases t.len(),
{
    if t.len() == 0 {
        assert(s + t =~= s);
        lemma_pow0(base as int);
        assert(powb(base, t.len()) == 1);
        assert(place_val(t, base) == 0);
        assert(place_val(s, base) * 1 == place_val(s, base));
        assert(place_val(s + t, base) == place_val(s, base) * powb(base, t.len()) + place_val(
            t,
            base,
        ));
    } else {
        lemma_val_append(s, t.drop_last(), base);
        assert((s + t).drop_last() =~= s + t.drop_last());
        assert((s + t).last() == t.last());
        let a = place_val(s, base) as int;
        let x = place_val(t.drop_last(), base) as int;
        let p = powb(base, (t.len() - 1) as nat) as int;
        let b = base as int;
        let d = (t.last() - 48) as nat as int;
        assert(place_val(s + t, base) == place_val((s + t).drop_last(), base) * base
            + ((s + t).last() - 48) as nat);
        assert(place_val(t, base) == place_val(t.drop_last(), base) * base + (t.last() - 48) as nat);
        assert((a * p + x) * b + d == a * (p * b) + (x * b + d)) by (nonlinear_arith);
        lemma_powb_unfold(base, t.len());
        assert(place_val(s + t.drop_last(), base) == a * p + x);
        assert(place_val(s + t, base) == (a * p + x) * b + d);
        assert(powb(base, t.len()) == p * b);
        assert(place_val(s, base) * powb(base, t.len()) == a * (p * b));
        assert(place_val(t, base) == x * b + d);
    }
}

/// Splitting at `k`: high digits carry a factor of `base^(len - k)`.
pub proof fn lemma_val_split(s: Seq<u8>, k: int, base: nat)
    requires
        base >= 1,
        0 <= k <= s.len(),
    ensures
        place_val(s, base) == place_val(s.take(k), base) * powb(base, (s.len() - k) as nat)
            + place_val(s.skip(k), base),
{
    assert(s =~= s.take(k) + s.skip(k));
    lemma_val_append(s.take(k), s.skip(k), base);
}

/// A string of '0' bytes is worth nothing.
pub proof fn lemma_val_zeros(s: Seq<u8>, base: nat)
    requires
        forall|i: int| 0 <= i < s.len() ==> s[i] == 48,
    ensures
        place_val(s, base) == 0,
    decreases s.len(),
{
    if s.len() > 0 {
        assert(forall|i: int| 0 <= i < s.drop_last().len() ==> s.drop_last()[i] == s[i]);
        lemma_val_zeros(s.drop_last(), base);
        assert(s.last() == 48);
        assert(place_val(s, base) == place_val(s.drop_last(), base) * base + (s.last() - 48) as nat);
    }
}

/// The low `k` digits hold the value modulo `base^k`; the rest hold the quotient.
pub proof fn lemma_val_low_high(s: Seq<u8>, k: int, base: nat)
    requires
        base >= 1,
        is_based(s, base),
        0 <= k <= s.len(),
    ensures
        place_val(s.skip(s.len() - k), base) == place_val(s, base) % powb(base, k as nat),
        place_val(s.take(s.len() - k), base) == place_val(s, base) / powb(base, k as nat),
{
    let cut = s.len() - k;
    lemma_val_split(s, cut, base);
    let low = s.skip(cut);
    assert(is_based(low, base));
    lemma_val_bound(low, base);
    lemma_powb_pos(base, k as nat);
    lemma_fundamental_div_mod_converse(
        place_val(s, base) as int,
        powb(base, k as nat) as int,
        place_val(s.take(cut), base) as int,
        place_val(low, base) as int,
    );
}

/// Fixed-width strings compare like their values: a smaller digit at the first
/// difference means a smaller value.
pub proof fn lemma_val_lt(s: Seq<u8>, t: Seq<u8>, i: int, base: nat)
    requires
        base >= 1,
        s.len() == t.len(),
        is_based(s, base),
        is_based(t, base),
        0 <= i < s.len(),
        forall|j: int| 0 <= j < i ==> s[j] == t[j],
        s[i] < t[i],
    ensures
        place_val(s, base) < place_val(t, base),
{
    let n = s.len() as int;
    let p = powb(base, (n - i - 1) as nat);
    lemma_val_split(s, i + 1, base);
    lemma_val_split(t, i + 1, base);
    assert(s.take(i + 1).drop_last() =~= s.take(i));
    assert(t.take(i + 1).drop_last() =~= t.take(i));
    assert(s.take(i) =~= t.take(i));
    let hs = place_val(s.take(i + 1), base);
    let ht = place_val(t.take(i + 1), base);
    assert(hs < ht);
    assert(is_based(s.skip(i + 1), base));
    assert(is_based(t.skip(i + 1), base));
    lemma_val_bound(s.skip(i + 1), base);
    lemma_powb_pos(base, (n - i - 1) as nat);
    assert(hs * p + place_val(s.skip(i + 1), base) < ht * p + place_val(t.skip(i + 1), base)) by {
        lemma_mul_inequality((hs + 1) as int, ht as int, p as int);
        assert((hs + 1) * (p as int) == hs * p + p) by (nonlinear_arith);
    }
}

/// Two digit strings of the same width and the same value are equal.
pub proof fn lemma_val_inj(s: Seq<u8>, t: Seq<u8>, base: nat)
    requires
        base >= 2,
        s.len() == t.len(),
        is_based(s, base),
        is_based(t, base),
        place_val(s, base) == place_val(t, base),
    ensures
        s =~= t,
    decreases s.len(),
{
    if s.len() > 0 {
        let v = place_val(s, base) as int;
        let b = base as int;
        let ds = (s.last() - 48) as nat;
        let dt = (t.last() - 48) as nat;
        lemma_fundamental_div_mod_converse(v, b, place_val(s.drop_last(), base) as int, ds as int);
        lemma_fundamental_div_mod_converse(v, b, place_val(t.drop_last(), base) as int, dt as int);
        assert(is_based(s.drop_last(), base));
        assert(is_based(t.drop_last(), base));
        lemma_val_inj(s.drop_last(), t.drop_last(), base);
        assert(s =~= s.drop_last().push(s.last()));
        assert(t =~= t.drop_last().push(t.last()));
    }
}

/// A string of maximal digits is worth `base^len - 1`.
pub proof fn lemma_val_maxdigits(s: Seq<u8>, base: nat)
    requires
        base >= 1,
        forall|i: int| 0 <= i < s.len() ==> s[i] == 47 + base,
    ensures
        place_val(s, base) == powb(base, s.len()) - 1,
    decreases s.len(),
{
    if s.len() == 0 {
        lemma_pow0(base as int);
    } else {
        let t = s.drop_last();
        assert(forall|i: int| 0 <= i < t.len() ==> t[i] == s[i]);
        lemma_val_maxdigits(t, base);
        assert(s.last() == 47 + base);
        assert(place_val(s, base) == place_val(t, base) * base + (s.last() - 48) as nat);
        lemma_powb_unfold(base, s.len());
        let p = powb(base, t.len()) as int;
        let b = base as int;
        assert((p - 1) * b + (b - 1) == p * b - 1) by (nonlinear_arith);
    }
}

/// Complementing every digit against `base - 1` complements the value.
pub proof fn lemma_val_complement(s: Seq<u8>, t: Seq<u8>, base: nat)
    requires
        base >= 1,
        s.len() == t.len(),
        is_based(s, base),
        is_based(t, base),
        forall|i: int| 0 <= i < s.len() ==> (#[trigger] s[i] - 48) + (t[i] - 48) == base - 1,
    ensures
        place_val(t, base) == powb(base, s.len()) - 1 - place_val(s, base),
    decreases s.len(),
{
    if s.len() == 0 {
        lemma_pow0(base as int);
    } else {
        let s1 = s.drop_last();
        let t1 = t.drop_last();
        assert(forall|i: int| 0 <= i < s1.len() ==> s1[i] == s[i] && t1[i] == t[i]);
        assert(is_based(s1, base));
        assert(is_based(t1, base));
        lemma_val_complement(s1, t1, base);
        assert((s.last() - 48) + (t.last() - 48) == base - 1);
        assert(place_val(s, base) == place_val(s1, base) * base + (s.last() - 48) as nat);
        assert(place_val(t, base) == place_val(t1, base) * base + (t.last() - 48) as nat);
        lemma_val_bound(s, base);
        lemma_powb_unfold(base, s.len());
        let p = powb(base, s1.len()) as int;
        let b = base as int;
        let v = place_val(s1, base) as int;
        assert((p - 1 - v) * b == p * b - v * b - b) by (nonlinear_arith);
    }
}

/// With the same exponent, a larger base gives at least as large a power.
pub proof fn lemma_powb_base_le(b1: nat, b2: nat, e: nat)
    requires
        1 <= b1 <= b2,
    ensures
        powb(b1, e) <= powb(b2, e),
    decreases e,
{
    if e == 0 {
        lemma_pow0(b1 as int);
        lemma_pow0(b2 as int);
    } else {
        lemma_powb_base_le(b1, b2, (e - 1) as nat);
        lemma_powb_unfold(b1, e);
        lemma_powb_unfold(b2, e);
        lemma_powb_pos(b1, (e - 1) as nat);
        lemma_mul_inequality(powb(b1, (e - 1) as nat) as int, powb(b2, (e - 1) as nat) as int, b1 as int);
        lemma_mul_inequality(b1 as int, b2 as int, powb(b2, (e - 1) as nat) as int);
        let p2 = powb(b2, (e - 1) as nat) as int;
        assert(p2 * b1 == b1 * p2 && p2 * b2 == b2 * p2) by (nonlinear_arith);
    }
}

/// Every power of ten up to the highest scale fits comfortably in 128 bits.
pub proof fn lemma_pow10_fits(e: nat)
    requires
        e <= 28,
    ensures
        powb(10, e) <= 0x10000000000000000000000000000,
{
    lemma_powb_base_le(10, 16, e);
    lemma_pow_increases(16, e, 28);
    lemma_pow_positive(16, e);
    lemma_pow_positive(16, 28);
    assert(powb(10, e) <= powb(16, 28));
    lemma_pow_multiplies(2, 4, 28);
    vstd::arithmetic::power2::lemma2_to64();
    vstd::arithmetic::power2::lemma2_to64_rest();
    vstd::arithmetic::power2::lemma_pow2(4);
    vstd::arithmetic::power2::lemma_pow2(112);
    vstd::arithmetic::power2::lemma_pow2_adds(64, 48);
    assert(pow(2, 4) == 16);
    assert(powb(16, 28) == pow(pow(2, 4), 28));
    assert(pow(pow(2, 4), 28) == pow(2, 112));
    assert(vstd::arithmetic::power2::pow2(112) == 0x10000000000000000000000000000);
}

/// Peeling the digit at position `p` off the suffix that starts there.
pub proof fn lemma_val_suffix_step(s: Seq<u8>, p: int, base: nat)
    requires
        base >= 1,
        0 <= p < s.len(),
    ensures
        place_val(s.skip(p), base) == (s[p] - 48) as nat * powb(base, (s.len() - p - 1) as nat)
            + place_val(s.skip(p + 1), base),
{
    let t = s.skip(p);
    lemma_val_split(t, 1, base);
    assert(t.take(1).len() == 1);
    assert(t.take(1).last() == s[p]);
    assert(t.take(1).drop_last().len() == 0);
    assert(place_val(t.take(1).drop_last(), base) == 0);
    assert(place_val(t.take(1), base) == place_val(t.take(1).drop_last(), base) * base + (t.take(
        1,
    ).last() - 48) as nat);
    assert(t.skip(1) =~= s.skip(p + 1));
    assert(place_val(t.take(1).drop_last(), base) * base == 0) by (nonlinear_arith)
        requires
            place_val(t.take(1).drop_last(), base) == 0,
    ;
    assert(place_val(t.take(1), base) == (s[p] - 48) as nat);
    assert(place_val(t, base) == place_val(t.take(1), base) * powb(base, (t.len() - 1) as nat)
        + place_val(t.skip(1), base));
    assert((t.len() - 1) as nat == (s.len() - p - 1) as nat);
    assert(place_val(t.take(1), base) * powb(base, (t.len() - 1) as nat) == (s[p] - 48) as nat
        * powb(base, (s.len() - p - 1) as nat));
}

/// A set digit anywhere makes the value positive.
pub proof fn lemma_val_pos(s: Seq<u8>, i: int, base: nat)
    requires
        base >= 1,
        is_based(s, base),
        0 <= i < s.len(),
        s[i] > 48,
    ensures
        place_val(s, base) >= 1,
{
    lemma_val_split(s, i + 1, base);
    assert(s.take(i + 1).last() == s[i]);
    assert(s.take(i + 1).drop_last() =~= s.take(i));
    assert(place_val(s.take(i + 1), base) == place_val(s.take(i), base) * base + (s[i]
        - 48) as nat);
    lemma_powb_pos(base, (s.len() - i - 1) as nat);
    let a = place_val(s.take(i + 1), base);
    let p = powb(base, (s.len() - i - 1) as nat);
    assert(a >= 1 && p >= 1 ==> a * p >= 1) by (nonlinear_arith);
}

/// Concrete word-size powers of two.
pub proof fn lemma_powb_two_words()
    ensures
        powb(2, 31) == 0x80000000,
        powb(2, 32) == 0x100000000,
        powb(2, 64) == 0x10000000000000000,
{
    vstd::arithmetic::power2::lemma2_to64();
    vstd::arithmetic::power2::lemma_pow2(31);
    vstd::arithmetic::power2::lemma_pow2(32);
    vstd::arithmetic::power2::lemma_pow2(64);
}


/// Powers grow with the exponent.
pub proof fn lemma_powb_mono(base: nat, e1: nat, e2: nat)
    requires
        base >= 1,
        e1 <= e2,
    ensures
        powb(base, e1) <= powb(base, e2),
{
    lemma_pow_increases(base, e1, e2);
    lemma_pow_positive(base as int, e1);
    lemma_pow_positive(base as int, e2);
}

/// Ninety-six binary digits always fit in sixty-four decimal ones.
pub proof fn lemma_pow2_96_lt_pow10_64()
    ensures
        powb(2, 96) < powb(10, 64),
{
    lemma_pow_multiplies(2, 3, 32);
    assert(pow(2, 3) == 8) by {
        vstd::arithmetic::power2::lemma2_to64();
        vstd::arithmetic::power2::lemma_pow2(3);
    }
    lemma_powb_base_le(8, 10, 32);
    lemma_pow_strictly_increases(10, 32, 64);
    lemma_pow_positive(8, 32);
    lemma_pow_positive(10, 32);
    lemma_pow_positive(10, 64);
    assert(powb(2, 96) == powb(8, 32));
}

} // verus!

