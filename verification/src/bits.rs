//! Rendering of machine words as binary text.

use crate::arith::powb;
use vstd::prelude::*;

verus! {

/// A value that can spell itself out as binary digits.
pub trait Bits {
    /// The binary digits of the value, most significant first.
    fn bits(&self) -> String;
}

impl Bits for u32 {
    /// All 32 bits of the word, '0' or '1', most significant first.
    fn bits(&self) -> (r: String)
        ensures
            r@.len() == 32,
            forall|t: int|
                0 <= t < 32 ==> r@[t] == (if ((*self as nat) / powb(2, (31 - t) as nat)) % 2
                    == 1 {
                    '1'
                } else {
                    '0'
                }),
    {
        let w = *self;
        let mut out = String::new();
        let mut t: usize = 0;
        while t < 32
            invariant
                out@.len() == t,
                t <= 32,
                w == *self,
                forall|q: int|
                    0 <= q < t ==> out@[q] == (if ((w as nat) / powb(2, (31 - q) as nat)) % 2
                        == 1 {
                        '1'
                    } else {
                        '0'
                    }),
            decreases 32 - t,
        {
            let b = crate::bitstr::BitStr::word_bit(w, 31 - t);
            if b == 1 {
                out.append("1");
            } else {
                out.append("0");
            }
            proof {
                reveal_strlit("1");
                reveal_strlit("0");
            }
            t += 1;
        }
        out
    }
}

} // verus!
