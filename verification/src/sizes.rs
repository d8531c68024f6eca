//! The sizes that configure the game: bit widths chosen at build time and
//! the storage they round up to.
use vstd::prelude::*;

use crate::search::is_pow2;
use vstd::string::StringSliceAdditionalSpecFns;

verus! {

/// The value of a string of decimal digits.
pub open spec fn decimal(digits: Seq<u8>) -> int
    decreases digits.len(),
{
    if digits.len() == 0 {
        0
    } else {
        decimal(digits.drop_last()) * 10 + (digits.last() - 48)
    }
}

/// Whether every byte is a decimal digit.
pub open spec fn all_digits(digits: Seq<u8>) -> bool {
    forall|i: int| 0 <= i < digits.len() ==> 48 <= #[trigger] digits[i] <= 57
}

proof fn lemma_decimal_grows(digits: Seq<u8>, k: int)
    requires
        all_digits(digits),
        0 <= k <= digits.len(),
    ensures
        0 <= decimal(digits.take(k)) <= decimal(digits),
    decreases digits.len() - k,
{
    if k < digits.len() {
        lemma_decimal_grows(digits, k + 1);
        assert(digits.take(k + 1).drop_last() =~= digits.take(k));
    } else {
        assert(digits.take(k) =~= digits);
    }
    lemma_decimal_nonneg(digits.take(k));
}

proof fn lemma_decimal_nonneg(digits: Seq<u8>)
    requires
        all_digits(digits),
    ensures
        decimal(digits) >= 0,
    decreases digits.len(),
{
    if digits.len() > 0 {
        lemma_decimal_nonneg(digits.drop_last());
    }
}

/// A bit width given at build time, or `max` when none is given. The text
/// must be a decimal number without a leading zero, within `min..=max`.
pub fn bits_from_build_env(value: Option<&str>, min: usize, max: usize) -> (r: usize)
    requires
        value matches Some(text) ==> {
            let bytes = text.spec_bytes();
            &&& bytes.len() > 0
            &&& bytes[0] != 48
            &&& all_digits(bytes)
            &&& min <= decimal(bytes) <= max
        },
    ensures
        r == match value {
            None => max as int,
            Some(text) => decimal(text.spec_bytes()),
        },
{
    let text = match value {
        None => {
            return max;
        },
        Some(text) => text,
    };
    let bytes = text.as_bytes();
    let ghost digits = bytes@;
    let mut out: usize = 0;
    let mut i: usize = 0;
    while i < bytes.len()
        invariant
            digits == bytes@,
            all_digits(digits),
            decimal(digits) <= max,
            0 <= i <= digits.len(),
            out == decimal(digits.take(i as int)),
        decreases digits.len() - i,
    {
        let b = bytes[i];
        proof {
            lemma_decimal_grows(digits, i + 1);
            assert(digits.take(i + 1).drop_last() =~= digits.take(i as int));
        }
        out = out * 10 + (b - 48) as usize;
        i = i + 1;
    }
    assert(digits.take(i as int) =~= digits);
    out
}

/// The storage for `bits` bits: the next power of two, and at least 32.
pub fn storage_bits(bits: usize) -> (r: usize)
    requires
        bits <= 4096,
    ensures
        is_pow2(r as int),
        r >= bits,
        r >= 32,
        r == 32 || r / 2 < bits,
{
    let mut p: usize = 1;
    while p < bits
        invariant
            is_pow2(p as int),
            1 <= p <= 8192,
            p == 1 || p / 2 < bits,
            bits <= 4096,
        decreases 8192 - p,
    {
        proof {
            lemma_pow2_double(p as int);
        }
        p = p * 2;
    }
    if p < 32 {
        proof {
            reveal_with_fuel(is_pow2, 6);
        }
        32
    } else {
        p
    }
}

proof fn lemma_pow2_double(p: int)
    requires
        is_pow2(p),
    ensures
        is_pow2(2 * p),
{
    assert((2 * p) / 2 == p);
}

} // verus!
