//! Spec-level model of numeric literal text.
//!
//! A decimal literal is an optional leading '-', decimal digits, optional '_'
//! group separators (ignored), and at most one '.' fractional separator.  The
//! functions here give such a character sequence its digit string, value,
//! sign and scale; a binary literal is a bare string of '0'/'1' characters.

use crate::arith::place_val;
use vstd::prelude::*;

verus! {

/// A decimal digit character.
pub open spec fn is_digit_char(c: char) -> bool {
    48 <= c as u32 <= 57
}

/// The digit characters of a literal, in order, as ASCII bytes.
pub open spec fn lit_digits(s: Seq<char>) -> Seq<u8>
    decreases s.len(),
{
    if s.len() == 0 {
        Seq::empty()
    } else {
        let rest = lit_digits(s.drop_last());
        if is_digit_char(s.last()) {
            rest.push((s.last() as u32) as u8)
        } else {
            rest
        }
    }
}

/// Numeric value of the literal's digits, the separators ignored.
pub open spec fn lit_val(s: Seq<char>) -> nat {
    place_val(lit_digits(s), 10)
}

/// How many times `c` occurs in `s`.
pub open spec fn count_char(s: Seq<char>, c: char) -> nat
    decreases s.len(),
{
    if s.len() == 0 {
        0
    } else {
        count_char(s.drop_last(), c) + if s.last() == c {
            1nat
        } else {
            0nat
        }
    }
}

/// Number of digit characters after the rightmost fractional separator, or 0
/// when there is none: the scale the literal denotes.
pub open spec fn lit_scale(s: Seq<char>) -> nat
    decreases s.len(),
{
    if s.len() == 0 {
        0
    } else if s.last() == '.' {
        0
    } else if count_char(s.drop_last(), '.') >= 1 {
        lit_scale(s.drop_last()) + if is_digit_char(s.last()) {
            1nat
        } else {
            0nat
        }
    } else {
        0
    }
}

/// The literal denotes a negative number.
pub open spec fn lit_neg(s: Seq<char>) -> bool {
    s.len() > 0 && s[0] == '-'
}

/// A well-formed decimal literal: digits, '_' and at most one '.', with a
/// leading '-' allowed, and no more fractional digits than the largest scale.
pub open spec fn lit_wf(s: Seq<char>) -> bool {
    &&& forall|i: int|
        0 <= i < s.len() ==> (is_digit_char(#[trigger] s[i]) || s[i] == '_' || s[i] == '.' || (i
            == 0 && s[i] == '-'))
    &&& count_char(s, '.') <= 1
    &&& lit_scale(s) <= 28
}

/// A well-formed binary literal: at most 96 bare bit characters.
pub open spec fn bin_wf(s: Seq<char>) -> bool {
    &&& s.len() <= 96
    &&& forall|i: int| 0 <= i < s.len() ==> s[i] == '0' || s[i] == '1'
}

/// The bit characters of a binary literal as ASCII bytes.
pub open spec fn bin_digits(s: Seq<char>) -> Seq<u8> {
    Seq::new(s.len(), |i: int| s[i] as u8)
}

/// Value of a binary literal.
pub open spec fn bin_val(s: Seq<char>) -> nat {
    place_val(bin_digits(s), 2)
}

/// A prefix holds no more occurrences of `c` than the whole.
pub proof fn lemma_count_take_le(s: Seq<char>, j: int, c: char)
    requires
        0 <= j <= s.len(),
    ensures
        count_char(s.take(j), c) <= count_char(s, c),
    decreases s.len() - j,
{
    if j == s.len() {
        assert(s.take(j) =~= s);
    } else {
        lemma_count_take_le(s, j + 1, c);
        assert(s.take(j + 1).drop_last() =~= s.take(j));
        assert(s.take(j + 1).last() == s[j]);
        assert(count_char(s.take(j + 1), c) == count_char(s.take(j), c) + if s[j] == c {
            1nat
        } else {
            0nat
        });
    }
}

/// Without a fractional separator there are no fractional digits.
pub proof fn lemma_scale_zero_without_point(s: Seq<char>)
    requires
        count_char(s, '.') == 0,
    ensures
        lit_scale(s) == 0,
{
    if s.len() > 0 {
        assert(count_char(s, '.') == count_char(s.drop_last(), '.') + if s.last() == '.' {
            1nat
        } else {
            0nat
        });
        assert(s.last() != '.');
        assert(count_char(s.drop_last(), '.') == 0);
    }
}

/// With at most one separator, the scale of a prefix never exceeds the scale
/// of the whole literal.
pub proof fn lemma_lit_scale_le(s: Seq<char>, j: int)
    requires
        count_char(s, '.') <= 1,
        0 <= j <= s.len(),
    ensures
        lit_scale(s.take(j)) <= lit_scale(s),
    decreases s.len() - j,
{
    if j == s.len() {
        assert(s.take(j) =~= s);
    } else {
        lemma_lit_scale_le(s, j + 1);
        let t0 = s.take(j);
        let t1 = s.take(j + 1);
        assert(t1.drop_last() =~= t0);
        assert(t1.last() == s[j]);
        if s[j] == '.' {
            lemma_count_take_le(s, j + 1, '.');
            assert(count_char(t1, '.') == count_char(t0, '.') + 1);
            assert(count_char(t0, '.') == 0);
            lemma_scale_zero_without_point(t0);
            assert(lit_scale(t1) == 0);
        } else if count_char(t0, '.') >= 1 {
            assert(lit_scale(t1) >= lit_scale(t0));
        } else {
            lemma_scale_zero_without_point(t0);
        }
    }
}

/// A prefix holds no more digits than the whole literal.
pub proof fn lemma_lit_digits_take_le(s: Seq<char>, j: int)
    requires
        0 <= j <= s.len(),
    ensures
        lit_digits(s.take(j)).len() <= lit_digits(s).len(),
    decreases s.len() - j,
{
    if j == s.len() {
        assert(s.take(j) =~= s);
    } else {
        lemma_lit_digits_take_le(s, j + 1);
        assert(s.take(j + 1).drop_last() =~= s.take(j));
        assert(s.take(j + 1).last() == s[j]);
    }
}

/// A well-formed decimal literal that also fits the 64-digit engine.
pub open spec fn dec_lit_wf(s: Seq<char>) -> bool {
    lit_wf(s) && lit_digits(s).len() <= 64
}

/// The character of a single decimal digit.
pub open spec fn digit_char(d: nat) -> char {
    ((d + 48) as u8) as char
}

/// The minimal decimal digit string of `n`, most significant first;
/// zero is written "0".
pub open spec fn digits_of(n: nat) -> Seq<char>
    decreases n,
{
    if n < 10 {
        seq![digit_char(n)]
    } else {
        digits_of(n / 10).push(digit_char(n % 10))
    }
}

/// Exactly `k` decimal digit characters of `n`, zero-padded at the front.
pub open spec fn pad_digits(n: nat, k: nat) -> Seq<char>
    decreases k,
{
    if k == 0 {
        Seq::empty()
    } else {
        pad_digits(n / 10, (k - 1) as nat).push(digit_char(n % 10))
    }
}

/// Digit bytes read as characters.
pub open spec fn chars_of_bytes(ds: Seq<u8>) -> Seq<char> {
    Seq::new(ds.len(), |i: int| ds[i] as char)
}

/// Leading '0' characters removed.
pub open spec fn trim_zeros(cs: Seq<char>) -> Seq<char>
    decreases cs.len(),
{
    if cs.len() > 0 && cs[0] == '0' {
        trim_zeros(cs.skip(1))
    } else {
        cs
    }
}

/// The canonical text of a sign, magnitude and scale: optional '-', the
/// integer part with leading zeros suppressed (but at least one digit),
/// and the zero-padded fractional digits when the scale is positive.
pub open spec fn render_text(neg: bool, v: nat, scale: nat) -> Seq<char> {
    (if neg {
        seq!['-']
    } else {
        Seq::empty()
    }) + digits_of(v / crate::arith::powb(10, scale)) + (if scale > 0 {
        seq!['.'] + pad_digits(v % crate::arith::powb(10, scale), scale)
    } else {
        Seq::empty()
    })
}

/// A literal has at least as many digits as its scale counts.
pub proof fn lemma_scale_le_digits(s: Seq<char>)
    ensures
        lit_scale(s) <= lit_digits(s).len(),
    decreases s.len(),
{
    if s.len() > 0 {
        lemma_scale_le_digits(s.drop_last());
    }
}

/// The minimal digit string of the value of a digit-byte string without a
/// leading zero is that string itself.
pub proof fn lemma_digits_of_val(ds: Seq<u8>)
    requires
        crate::arith::is_based(ds, 10),
        ds.len() >= 1,
        ds[0] != 48,
    ensures
        digits_of(place_val(ds, 10)) == chars_of_bytes(ds),
    decreases ds.len(),
{
    let n = place_val(ds, 10);
    let d = (ds.last() - 48) as nat;
    if ds.len() == 1 {
        assert(place_val(ds.drop_last(), 10) == 0);
        assert(n == d);
        assert(digits_of(n) =~= chars_of_bytes(ds));
    } else {
        let hi = ds.drop_last();
        assert(forall|i: int| 0 <= i < hi.len() ==> hi[i] == ds[i]);
        assert(crate::arith::is_based(hi, 10));
        assert(hi[0] != 48 && hi[0] > 48);
        crate::arith::lemma_val_pos(hi, 0, 10);
        let v = place_val(hi, 10);
        assert(n == v * 10 + d);
        assert(n >= 10) by (nonlinear_arith)
            requires
                n == v * 10 + d,
                v >= 1,
        ;
        vstd::arithmetic::div_mod::lemma_fundamental_div_mod_converse(
            n as int,
            10,
            v as int,
            d as int,
        );
        lemma_digits_of_val(hi);
        assert(digits_of(n) == digits_of(v).push(digit_char(d)));
        assert(digits_of(n) =~= chars_of_bytes(ds));
    }
}

/// Padding the value of a fixed-width digit-byte string back to that width
/// gives the string itself.
pub proof fn lemma_pad_digits_val(ds: Seq<u8>)
    requires
        crate::arith::is_based(ds, 10),
    ensures
        pad_digits(place_val(ds, 10), ds.len()) == chars_of_bytes(ds),
    decreases ds.len(),
{
    if ds.len() == 0 {
        assert(pad_digits(0, 0) =~= chars_of_bytes(ds));
    } else {
        let hi = ds.drop_last();
        assert(forall|i: int| 0 <= i < hi.len() ==> hi[i] == ds[i]);
        assert(crate::arith::is_based(hi, 10));
        let v = place_val(hi, 10);
        let d = (ds.last() - 48) as nat;
        let n = place_val(ds, 10);
        assert(n == v * 10 + d);
        vstd::arithmetic::div_mod::lemma_fundamental_div_mod_converse(
            n as int,
            10,
            v as int,
            d as int,
        );
        lemma_pad_digits_val(hi);
        assert(pad_digits(n, ds.len()) == pad_digits(v, hi.len()).push(digit_char(d)));
        assert(pad_digits(n, ds.len()) =~= chars_of_bytes(ds));
    }
}

/// Trimming zero characters off digit bytes keeps the value: the trimmed
/// text is the text of the value's minimal digits, or empty on zero.
pub proof fn lemma_trim_digits(ds: Seq<u8>)
    requires
        crate::arith::is_based(ds, 10),
    ensures
        place_val(ds, 10) == 0 ==> trim_zeros(chars_of_bytes(ds)) =~= Seq::<char>::empty(),
        place_val(ds, 10) != 0 ==> trim_zeros(chars_of_bytes(ds)) == digits_of(place_val(ds, 10)),
    decreases ds.len(),
{
    let cs = chars_of_bytes(ds);
    if ds.len() == 0 {
    } else if ds[0] == 48 {
        let tl = ds.skip(1);
        assert(crate::arith::is_based(tl, 10));
        crate::arith::lemma_val_split(ds, 1, 10);
        assert(ds.take(1).last() == 48);
        assert(place_val(ds.take(1).drop_last(), 10) == 0);
        assert(place_val(ds.take(1), 10) == 0);
        assert(place_val(ds.take(1), 10) * crate::arith::powb(10, tl.len()) == 0)
            by (nonlinear_arith)
            requires
                place_val(ds.take(1), 10) == 0,
        ;
        assert(place_val(ds, 10) == place_val(tl, 10));
        lemma_trim_digits(tl);
        assert(cs[0] == '0') by {
            assert(ds[0] == 48);
            assert(cs[0] == (48u8) as char);
        }
        assert(cs.skip(1) =~= chars_of_bytes(tl));
        assert(trim_zeros(cs) == trim_zeros(chars_of_bytes(tl)));
    } else {
        assert(ds[0] != 48);
        assert(cs[0] == ds[0] as char);
        assert(cs[0] != '0') by {
            assert(48 <= ds[0] < 58);
            if ds[0] as char == '0' {
                assert(ds[0] as char as u8 == 48);
            }
        }
        assert(trim_zeros(cs) == cs);
        crate::arith::lemma_val_pos(ds, 0, 10);
        lemma_digits_of_val(ds);
    }
}

/// The canonical form of a literal: sign kept, leading zeros of the integer
/// part suppressed down to one digit, fractional digits kept as given.
pub open spec fn canon_text(s: Seq<char>) -> Seq<char> {
    let digs = lit_digits(s);
    let k = lit_scale(s);
    let int_chars = trim_zeros(chars_of_bytes(digs.take(digs.len() - k)));
    (if lit_neg(s) {
        seq!['-']
    } else {
        Seq::empty()
    }) + (if int_chars.len() == 0 {
        seq!['0']
    } else {
        int_chars
    }) + (if k > 0 {
        seq!['.'] + chars_of_bytes(digs.skip(digs.len() - k))
    } else {
        Seq::empty()
    })
}

/// The digits of a literal are digit bytes.
pub proof fn lemma_lit_digits_based(s: Seq<char>)
    ensures
        crate::arith::is_based(lit_digits(s), 10),
    decreases s.len(),
{
    if s.len() > 0 {
        lemma_lit_digits_based(s.drop_last());
        let c = s.last();
        assert(is_digit_char(c) == (48 <= c as u32 <= 57));
        if is_digit_char(c) {
            assert(48 <= ((c as u32) as u8) && ((c as u32) as u8) < 58);
            assert(lit_digits(s) == lit_digits(s.drop_last()).push((c as u32) as u8));
        } else {
            assert(lit_digits(s) == lit_digits(s.drop_last()));
        }
    }
}

/// A minimal digit string is never empty.
pub proof fn lemma_digits_of_nonempty(n: nat)
    ensures
        digits_of(n).len() >= 1,
{
    if n < 10 {
        assert(digits_of(n) == seq![digit_char(n)]);
    } else {
        assert(digits_of(n) == digits_of(n / 10).push(digit_char(n % 10)));
    }
}

} // verus!
