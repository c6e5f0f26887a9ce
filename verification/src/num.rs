//! Decimal numerals: the digit string of a natural number, the value of a
//! digit string, and the executable formatter the encoder uses.

use vstd::prelude::*;
use crate::frame::is_digit;

verus! {

/// The decimal digit string of `n`, most significant digit first, with no
/// leading zeros (the numeral of zero is the single digit `0`).
pub open spec fn dec_digits(n: nat) -> Seq<u8>
    decreases n,
{
    if n < 10 {
        seq![(48 + n) as u8]
    } else {
        dec_digits(n / 10) + seq![(48 + n % 10) as u8]
    }
}

/// The value of a digit string read as a decimal numeral.
pub open spec fn digits_val(s: Seq<u8>) -> int
    decreases s.len(),
{
    if s.len() == 0 {
        0
    } else {
        digits_val(s.take(s.len() - 1)) * 10 + (s.last() - 48)
    }
}

/// Every byte of the sequence is a decimal digit.
pub open spec fn all_digits(s: Seq<u8>) -> bool {
    forall|i: int| 0 <= i < s.len() ==> is_digit(#[trigger] s[i])
}

/// Appending one digit multiplies the value by ten and adds the digit.
pub proof fn lemma_digits_val_snoc(s: Seq<u8>, i: int)
    requires
        0 <= i < s.len(),
    ensures
        digits_val(s.take(i + 1)) == digits_val(s.take(i)) * 10 + (s[i] - 48),
{
    assert(s.take(i + 1).take(i) =~= s.take(i));
}

/// The value of a digit string is not negative.
pub proof fn lemma_digits_val_nonneg(s: Seq<u8>)
    requires
        all_digits(s),
    ensures
        digits_val(s) >= 0,
    decreases s.len(),
{
    if s.len() > 0 {
        assert(all_digits(s.take(s.len() - 1)));
        lemma_digits_val_nonneg(s.take(s.len() - 1));
    }
}

/// Extending a digit string never shrinks its value.
pub proof fn lemma_digits_val_grows(s: Seq<u8>, i: int, j: int)
    requires
        all_digits(s),
        0 <= i <= j <= s.len(),
    ensures
        digits_val(s.take(i)) <= digits_val(s.take(j)),
    decreases j - i,
{
    if i < j {
        lemma_digits_val_grows(s, i, j - 1);
        lemma_digits_val_snoc(s, j - 1);
        assert(all_digits(s.take(j - 1)));
        lemma_digits_val_nonneg(s.take(j - 1));
    }
}

/// The digit string of `n` is made of digits and reads back as `n`.
pub proof fn lemma_dec_digits(n: nat)
    ensures
        dec_digits(n).len() >= 1,
        all_digits(dec_digits(n)),
        digits_val(dec_digits(n)) == n,
    decreases n,
{
    if n < 10 {
        assert(dec_digits(n) == seq![(48 + n) as u8]);
        assert(digits_val(dec_digits(n).take(0)) == 0);
    } else {
        lemma_dec_digits(n / 10);
        let a = dec_digits(n / 10);
        let w = dec_digits(n);
        assert(w == a + seq![(48 + n % 10) as u8]);
        assert(w.take(w.len() - 1) =~= a);
        assert(digits_val(w) == digits_val(a) * 10 + (n % 10));
    }
}

/// Formats `n` as its decimal digit string.
pub fn fmt_u64(n: u64) -> (r: Vec<u8>)
    ensures
        r@ == dec_digits(n as nat),
    decreases n,
{
    if n < 10 {
        let mut v: Vec<u8> = Vec::new();
        v.push(48 + n as u8);
        proof {
            assert(v@ =~= dec_digits(n as nat));
        }
        v
    } else {
        let mut v = fmt_u64(n / 10);
        v.push(48 + (n % 10) as u8);
        proof {
            assert(v@ =~= dec_digits(n as nat));
        }
        v
    }
}

} // verus!
