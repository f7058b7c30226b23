//! Subnet masks: deriving a mask from a CIDR prefix length, counting its
//! one bits, and the host/address counts that follow from that count.

use vstd::prelude::*;

verus! {

use vstd::arithmetic::power2::{
    pow2,
    lemma2_to64,
    lemma_pow2_pos,
    lemma_pow2_strictly_increases,
};
use vstd::bits::{lemma_u32_pow2_no_overflow, lemma_u32_shl_is_mul};
use crate::address::Address;

/// Failure of mask derivation.
#[derive(Copy, Clone, Debug, PartialEq, Eq, Structural)]
pub enum MaskError {
    /// The requested prefix length lies outside 0..=32.
    InvalidPrefixLength,
}

/// The linear value of the mask for a prefix length `p`: the top `p` bits of
/// a 32-bit word set, the rest clear.
pub open spec fn mask_value(p: int) -> int
    recommends
        0 <= p <= 32,
{
    0x100000000 - pow2((32 - p) as nat)
}

/// An address is a well-formed subnet mask when it is the mask of some
/// prefix length: its set bits form one contiguous run starting at the most
/// significant bit of the 32-bit value.
pub open spec fn is_mask(m: Address) -> bool {
    exists|p: int| 0 <= p <= 32 && m.linear() == mask_value(p)
}

/// Number of one bits in a single octet.
pub open spec fn pop8(b: u8) -> int {
    ((b >> 0) & 1) + ((b >> 1) & 1) + ((b >> 2) & 1) + ((b >> 3) & 1) + ((b >> 4) & 1) + ((b
        >> 5) & 1) + ((b >> 6) & 1) + ((b >> 7) & 1)
}

/// Number of one bits among the low `k` bit positions of an octet.
pub open spec fn pop8_upto(b: u8, k: int) -> int
    decreases k,
{
    if k <= 0 {
        0
    } else {
        pop8_upto(b, k - 1) + ((b >> ((k - 1) as u8)) & 1)
    }
}

/// Number of one bits in the 32 bits of an address.
pub open spec fn pop(m: Address) -> int {
    pop8(m.0) + pop8(m.1) + pop8(m.2) + pop8(m.3)
}

/// Usable host addresses under a mask: two to the power of the number of
/// clear bits, minus the network and broadcast addresses; a mask with all
/// 32 bits set has no host range at all.
pub open spec fn spec_hosts(m: Address) -> int
    recommends
        0 <= pop(m) <= 32,
{
    if pop(m) == 32 {
        0
    } else {
        pow2((32 - pop(m)) as nat) - 2
    }
}

/// Total addresses a subnet covers: the host count plus the network and
/// broadcast addresses.
pub open spec fn spec_count(m: Address) -> int {
    spec_hosts(m) + 2
}

/// An octet holds at most eight one bits.
proof fn lemma_pop8_bounds(b: u8)
    by (bit_vector)
    ensures
        0 <= pop8(b) <= 8,
{
}

/// An address holds at most 32 one bits.
pub proof fn lemma_pop_bounds(m: Address)
    ensures
        0 <= pop(m) <= 32,
{
    lemma_pop8_bounds(m.0);
    lemma_pop8_bounds(m.1);
    lemma_pop8_bounds(m.2);
    lemma_pop8_bounds(m.3);
}

/// Octet popcounts of a contiguous mask sum to the prefix length.
proof fn lemma_mask_pop_bv(m0: u8, m1: u8, m2: u8, m3: u8, sh: u32)
    by (bit_vector)
    requires
        sh <= 31,
        (m0 as u32) * 0x1000000 + (m1 as u32) * 0x10000 + (m2 as u32) * 0x100 + (m3 as u32)
            == 0xFFFFFFFFu32 - ((1u32 << sh) - 1),
    ensures
        pop8(m0) + pop8(m1) + pop8(m2) + pop8(m3) == 32 - sh,
{
}

/// A mask whose linear value is `mask_value(p)` has exactly `p` one bits.
pub proof fn lemma_mask_pop(m: Address, p: int)
    requires
        0 <= p <= 32,
        m.linear() == mask_value(p),
    ensures
        pop(m) == p,
{
    if p == 0 {
        lemma2_to64();
        assert(m.linear() == 0);
        crate::address::lemma_linear_bytes(m);
        assert(pop8(0u8) == 0) by (bit_vector);
    } else {
        let sh = (32 - p) as u32;
        lemma_u32_pow2_no_overflow(sh as nat);
        lemma_u32_shl_is_mul(1u32, sh);
        assert((1u32 << sh) == pow2(sh as nat));
        lemma_mask_pop_bv(m.0, m.1, m.2, m.3, sh);
    }
}

/// Counts the one bits of a single octet, scanning the eight bit positions
/// from least to most significant.
pub fn number_ones(byte: u8) -> (r: u8)
    ensures
        r == pop8(byte),
        r <= 8,
{
    let mut number: u8 = 0;
    let mut i: u8 = 0;
    while i < 8
        invariant
            i <= 8,
            number <= i,
            number == pop8_upto(byte, i as int),
        decreases 8 - i,
    {
        let bit = (byte >> i) & 0x01;
        proof {
            assert((byte >> i) & 0x01 <= 1) by (bit_vector);
        }
        number = number + bit;
        i = i + 1;
    }
    proof {
        reveal_with_fuel(pop8_upto, 9);
    }
    number
}

/// Derives the subnet mask for a CIDR prefix length: the top `prefix` bits
/// of the 32-bit value are set, split into four octets most significant
/// first. Prefix lengths above 32 are rejected.
pub fn generate_mask(prefix: u32) -> (r: Result<Address, MaskError>)
    ensures
        prefix <= 32 ==> (r matches Ok(m) && m.linear() == mask_value(prefix as int)),
        prefix > 32 ==> r == Err::<Address, MaskError>(MaskError::InvalidPrefixLength),
{
    if prefix > 32 {
        return Err(MaskError::InvalidPrefixLength);
    }
    if prefix == 0 {
        proof {
            lemma2_to64();
        }
        return Ok(Address(0, 0, 0, 0));
    }
    let sh: u32 = 32 - prefix;
    let bits: u32 = 0xFFFFFFFFu32 << sh;
    proof {
        assert((bits >> 24) & 0xFF < 256 && (bits >> 16) & 0xFF < 256 && (bits >> 8) & 0xFF
            < 256 && bits & 0xFF < 256) by (bit_vector);
    }
    let m = Address(
        ((bits >> 24) & 0xFF) as u8,
        ((bits >> 16) & 0xFF) as u8,
        ((bits >> 8) & 0xFF) as u8,
        (bits & 0xFF) as u8,
    );
    proof {
        lemma_u32_pow2_no_overflow(sh as nat);
        lemma_u32_shl_is_mul(1u32, sh);
        assert(bits == 0xFFFFFFFFu32 - ((1u32 << sh) - 1)) by (bit_vector)
            requires
                sh <= 31,
                bits == 0xFFFFFFFFu32 << sh,
        ;
        assert(((bits >> 24) & 0xFF) * 0x1000000 + ((bits >> 16) & 0xFF) * 0x10000 + ((bits
            >> 8) & 0xFF) * 0x100 + (bits & 0xFF) == bits) by (bit_vector);
    }
    Ok(m)
}

/// Reports whether an address is the mask of some prefix length in 0..=32,
/// by deriving each candidate mask and comparing.
pub fn is_valid_mask(m: Address) -> (r: bool)
    ensures
        r == is_mask(m),
{
    let mut p: u32 = 0;
    while p <= 32
        invariant
            p <= 33,
            forall|q: int| 0 <= q < p ==> m.linear() != mask_value(q),
        decreases 33 - p,
    {
        match generate_mask(p) {
            Ok(candidate) => {
                if candidate == m {
                    proof {
                        assert(0 <= p as int <= 32 && m.linear() == mask_value(p as int));
                    }
                    return true;
                }
                proof {
                    if m.linear() == mask_value(p as int) {
                        crate::address::lemma_linear_injective(m, candidate);
                    }
                }
            },
            Err(_) => {
                proof {
                    assert(false);
                }
            },
        }
        p = p + 1;
    }
    proof {
        if is_mask(m) {
            let q = choose|q: int| 0 <= q <= 32 && m.linear() == mask_value(q);
            assert(m.linear() != mask_value(q));
        }
    }
    false
}

/// The address count of a mask with at least one set bit fits in 32 bits,
/// and equals two to the power of the number of clear bits when some bit is
/// clear as well.
pub proof fn lemma_count_bounds(m: Address)
    requires
        1 <= pop(m) <= 32,
    ensures
        2 <= spec_count(m) <= 0x80000000,
        pop(m) < 32 ==> spec_count(m) == pow2((32 - pop(m)) as nat),
{
    if pop(m) < 32 {
        lemma_pow2_pos((32 - pop(m)) as nat);
        if pop(m) > 1 {
            lemma_pow2_strictly_increases((32 - pop(m)) as nat, 31);
        }
        lemma2_to64();
    }
}

} // verus!
