//! Fixed-width IPv4 address arithmetic: per-octet masking, offset addition
//! with the carry scheme this tool has always used, and the linear 32-bit
//! interpretation of an address.

use vstd::prelude::*;

verus! {

use vstd::arithmetic::div_mod::{lemma_fundamental_div_mod_converse, lemma_small_mod};

/// A 4-octet IPv4 address, octets ordered from most to least significant.
#[derive(Copy, Clone, Debug, PartialEq, Eq, Structural)]
pub struct Address(pub u8, pub u8, pub u8, pub u8);

impl Address {
    /// The address read as a single big-endian 32-bit number.
    pub open spec fn linear(self) -> int {
        self.0 * 0x1000000 + self.1 * 0x10000 + self.2 * 0x100 + self.3
    }

    /// Per-octet bitwise AND, used to apply a subnet mask.
    pub fn mask(self, m: Address) -> (r: Address)
        ensures
            r == and_octets(self, m),
    {
        Address(self.0 & m.0, self.1 & m.1, self.2 & m.2, self.3 & m.3)
    }

    /// The linear 32-bit value of the address.
    pub fn to_linear(self) -> (r: u32)
        ensures
            r == self.linear(),
    {
        (self.0 as u32) * 0x1000000 + (self.1 as u32) * 0x10000 + (self.2 as u32) * 0x100
            + (self.3 as u32)
    }

    /// Adds `offset` to the address under the historical carry scheme of
    /// `spec_add_offset`. The precondition excludes exactly the inputs on
    /// which an octet of the historical computation would exceed 255.
    pub fn add_offset(self, offset: u32) -> (r: Address)
        requires
            add_offset_ok(self, offset),
        ensures
            r == spec_add_offset(self, offset),
    {
        let b3: u32 = offset & 0xFF;
        let b2: u32 = (offset >> 8) & 0xFF;
        let b1: u32 = (offset >> 16) & 0xFF;
        let b0: u32 = (offset >> 24) & 0xFF;
        proof {
            lemma_offset_byte_extraction(offset);
        }
        let mut r0: u32 = 0;
        let mut r1: u32 = 0;
        let mut r2: u32 = 0;
        let mut r3: u32 = 0;

        let first: u32 = self.3 as u32 + b3;
        if first > 255 {
            r2 = r2 + 1;
            r3 = 255 - b3;
        } else {
            r3 = r3 + first;
        }

        let second: u32 = self.2 as u32 + b2;
        if second > 255 {
            r1 = r1 + 1;
            r2 = 255 - b2;
        } else {
            r2 = r2 + second;
        }

        let third: u32 = self.1 as u32 + b1;
        if third > 255 {
            r0 = r0 + 1;
            r1 = 255 - b2;
        } else {
            r1 = r1 + third;
        }

        let fourth: u32 = self.0 as u32 + b0;
        if fourth <= 255 {
            r0 = r0 + fourth;
        }

        proof {
            lemma_small_mod(r0 as nat, 256);
            lemma_small_mod(r1 as nat, 256);
            lemma_small_mod(r2 as nat, 256);
            lemma_small_mod(r3 as nat, 256);
        }
        Address(r0 as u8, r1 as u8, r2 as u8, r3 as u8)
    }
}

/// Octet-wise AND of two addresses.
pub open spec fn and_octets(a: Address, m: Address) -> Address {
    Address(a.0 & m.0, a.1 & m.1, a.2 & m.2, a.3 & m.3)
}

/// Most significant byte of an offset.
pub open spec fn off_byte0(off: u32) -> int {
    off as int / 0x1000000
}

/// Second byte of an offset.
pub open spec fn off_byte1(off: u32) -> int {
    (off as int / 0x10000) % 0x100
}

/// Third byte of an offset.
pub open spec fn off_byte2(off: u32) -> int {
    (off as int / 0x100) % 0x100
}

/// Least significant byte of an offset.
pub open spec fn off_byte3(off: u32) -> int {
    off as int % 0x100
}

/// Offset addition as this tool has always performed it. Octets are added
/// byte by byte from least to most significant. When an octet sum exceeds
/// 255 a carry of one moves up and the octet is written as 255 minus the
/// offset byte (for the second-from-top octet, 255 minus the third offset
/// byte); a carry out of the top octet is silently dropped. This is not
/// two's-complement addition and is kept bit-for-bit for compatibility.
pub open spec fn spec_add_offset(a: Address, off: u32) -> Address {
    let b0 = off_byte0(off);
    let b1 = off_byte1(off);
    let b2 = off_byte2(off);
    let b3 = off_byte3(off);
    let first = a.3 + b3;
    let c2: int = if first > 255 {
        1
    } else {
        0
    };
    let r3: int = if first > 255 {
        255 - b3
    } else {
        first
    };
    let second = a.2 + b2;
    let c1: int = if second > 255 {
        1
    } else {
        0
    };
    let r2: int = if second > 255 {
        255 - b2
    } else {
        c2 + second
    };
    let third = a.1 + b1;
    let c0: int = if third > 255 {
        1
    } else {
        0
    };
    let r1: int = if third > 255 {
        255 - b2
    } else {
        c1 + third
    };
    let fourth = a.0 + b0;
    let r0: int = if fourth > 255 {
        c0
    } else {
        c0 + fourth
    };
    Address(((r0 % 256) as u8), ((r1 % 256) as u8), ((r2 % 256) as u8), ((r3 % 256) as u8))
}

/// Holds when no octet of `spec_add_offset(a, off)` exceeds 255 before it is
/// stored, i.e. when the historical computation stays within octet range.
pub open spec fn add_offset_ok(a: Address, off: u32) -> bool {
    let b0 = off_byte0(off);
    let b1 = off_byte1(off);
    let b2 = off_byte2(off);
    let b3 = off_byte3(off);
    let c2: int = if a.3 + b3 > 255 {
        1
    } else {
        0
    };
    let c1: int = if a.2 + b2 > 255 {
        1
    } else {
        0
    };
    let c0: int = if a.1 + b1 > 255 {
        1
    } else {
        0
    };
    &&& (a.2 + b2 <= 255 ==> c2 + a.2 + b2 <= 255)
    &&& (a.1 + b1 <= 255 ==> c1 + a.1 + b1 <= 255)
    &&& (a.0 + b0 <= 255 ==> c0 + a.0 + b0 <= 255)
}

/// The exec byte extraction by shifting and masking agrees with the
/// arithmetic byte functions, and the four bytes recompose the offset.
proof fn lemma_offset_byte_extraction(off: u32)
    by (bit_vector)
    ensures
        off & 0xFF == off % 0x100,
        (off >> 8) & 0xFF == (off / 0x100) % 0x100,
        (off >> 16) & 0xFF == (off / 0x10000) % 0x100,
        (off >> 24) & 0xFF == off / 0x1000000,
        off == (off / 0x1000000) * 0x1000000 + ((off / 0x10000) % 0x100) * 0x10000 + ((off
            / 0x100) % 0x100) * 0x100 + off % 0x100,
{
}

/// The four offset bytes recompose the offset and each lies in octet range.
pub proof fn lemma_off_bytes(off: u32)
    ensures
        off == off_byte0(off) * 0x1000000 + off_byte1(off) * 0x10000 + off_byte2(off) * 0x100
            + off_byte3(off),
        0 <= off_byte0(off) <= 255,
        0 <= off_byte1(off) <= 255,
        0 <= off_byte2(off) <= 255,
        0 <= off_byte3(off) <= 255,
{
    lemma_offset_byte_extraction(off);
    assert(off / 0x1000000 <= 255) by (bit_vector);
}

/// The octets of an address are the base-256 digits of its linear value.
pub proof fn lemma_linear_bytes(a: Address)
    ensures
        a.linear() / 0x1000000 == a.0,
        (a.linear() / 0x10000) % 0x100 == a.1,
        (a.linear() / 0x100) % 0x100 == a.2,
        a.linear() % 0x100 == a.3,
        0 <= a.linear() < 0x100000000,
{
    let l = a.linear();
    lemma_fundamental_div_mod_converse(
        l,
        0x100,
        a.0 * 0x10000 + a.1 * 0x100 + a.2,
        a.3 as int,
    );
    lemma_fundamental_div_mod_converse(
        l,
        0x10000,
        a.0 * 0x100 + a.1,
        a.2 * 0x100 + a.3,
    );
    lemma_fundamental_div_mod_converse(
        l,
        0x1000000,
        a.0 as int,
        a.1 * 0x10000 + a.2 * 0x100 + a.3,
    );
    lemma_fundamental_div_mod_converse(l / 0x100, 0x100, a.0 * 0x100 + a.1, a.2 as int);
    lemma_fundamental_div_mod_converse(l / 0x10000, 0x100, a.0 as int, a.1 as int);
}

/// Two addresses with the same linear value are the same address.
pub proof fn lemma_linear_injective(a: Address, b: Address)
    requires
        a.linear() == b.linear(),
    ensures
        a == b,
{
    lemma_linear_bytes(a);
    lemma_linear_bytes(b);
}

/// When no octet sum carries, the historical addition is plain addition of
/// the offset to the linear value.
pub proof fn lemma_add_offset_no_carry(a: Address, off: u32)
    requires
        a.3 + off_byte3(off) <= 255,
        a.2 + off_byte2(off) <= 255,
        a.1 + off_byte1(off) <= 255,
        a.0 + off_byte0(off) <= 255,
    ensures
        add_offset_ok(a, off),
        spec_add_offset(a, off) == Address(
            (a.0 + off_byte0(off)) as u8,
            (a.1 + off_byte1(off)) as u8,
            (a.2 + off_byte2(off)) as u8,
            (a.3 + off_byte3(off)) as u8,
        ),
        spec_add_offset(a, off).linear() == a.linear() + off,
{
    lemma_off_bytes(off);
    lemma_small_mod((a.0 + off_byte0(off)) as nat, 256);
    lemma_small_mod((a.1 + off_byte1(off)) as nat, 256);
    lemma_small_mod((a.2 + off_byte2(off)) as nat, 256);
    lemma_small_mod((a.3 + off_byte3(off)) as nat, 256);
}

} // verus!
