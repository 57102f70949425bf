use vstd::prelude::*;
use vstd::arithmetic::power2::pow2;
use vstd::bits::lemma_u64_mul_pow2_le_max_iff_max_shr;
use vstd::bits::lemma_u64_shl_is_mul;

verus! {

/// `x << n` keeps every nonzero bit: the shift amount is a valid u64 shift
/// and the shifted value still fits in 64 bits.
pub open spec fn shl64_in_range(x: u64, n: nat) -> bool {
    n < 64 && (x as nat) * pow2(n) <= u64::MAX as nat
}

/// The mathematical value of an in-range left shift.
pub open spec fn shl64(x: u64, n: nat) -> u64
    recommends
        shl64_in_range(x, n),
{
    ((x as nat) * pow2(n)) as u64
}

/// Left-shift of an unsigned integer that fails if any nonzero bit would be
/// discarded (or if the shift amount itself is out of range for the type).
pub fn safe_shl_u64(x: u64, n: u32) -> (r: Option<u64>)
    ensures
        shl64_in_range(x, n as nat) ==> r == Some(shl64(x, n as nat)),
        !shl64_in_range(x, n as nat) ==> r is None,
{
    if n < 64 && x <= (u64::MAX >> (n as u64)) {
        proof {
            lemma_u64_mul_pow2_le_max_iff_max_shr(x, n as u64, u64::MAX);
            lemma_u64_shl_is_mul(x, n as u64);
        }
        Some(x << (n as u64))
    } else {
        proof {
            if n < 64 {
                lemma_u64_mul_pow2_le_max_iff_max_shr(x, n as u64, u64::MAX);
            }
        }
        None
    }
}

} // verus!
