//! A CIDR subnet: a base address coupled with a mask, the host and address
//! counts the mask determines, the full enumeration of covered addresses,
//! and the pairwise overlap test.

use vstd::prelude::*;

verus! {

use vstd::arithmetic::div_mod::lemma_small_mod;
use vstd::arithmetic::power2::{lemma2_to64, lemma_pow2_strictly_increases};
use vstd::bits::{
    lemma_u32_pow2_no_overflow,
    lemma_u32_shl_is_mul,
    lemma_u64_pow2_no_overflow,
    lemma_u64_shl_is_mul,
};
use crate::address::{
    add_offset_ok,
    and_octets,
    lemma_add_offset_no_carry,
    lemma_linear_bytes,
    off_byte0,
    off_byte1,
    off_byte2,
    off_byte3,
    spec_add_offset,
    Address,
};
use crate::mask::{
    is_mask,
    is_valid_mask,
    lemma_count_bounds,
    lemma_mask_pop,
    lemma_pop_bounds,
    mask_value,
    number_ones,
    pop,
    spec_count,
    spec_hosts,
};

/// A declared subnet: the base address as written, the mask derived from
/// the declared prefix length, and the original declaration text, kept only
/// for reporting.
#[derive(Debug)]
pub struct Subnet {
    pub base: Address,
    pub mask: Address,
    pub subnet_str: String,
}

/// Two subnets are the same declaration when base, mask and declaration
/// text all agree.
pub open spec fn same_subnet(a: Subnet, b: Subnet) -> bool {
    a.base == b.base && a.mask == b.mask && a.subnet_str@ == b.subnet_str@
}

impl PartialEq for Subnet {
    fn eq(&self, other: &Subnet) -> (r: bool) {
        self.base == other.base && self.mask == other.mask && self.subnet_str
            == other.subnet_str
    }
}

impl vstd::std_specs::cmp::PartialEqSpecImpl for Subnet {
    open spec fn obeys_eq_spec() -> bool {
        true
    }

    open spec fn eq_spec(&self, other: &Subnet) -> bool {
        same_subnet(*self, *other)
    }
}

/// Two subnets collide when they cover at least one common address.
pub open spec fn spec_collides(a: Subnet, b: Subnet) -> bool {
    exists|x: Address| a.spec_addresses().contains(x) && b.spec_addresses().contains(x)
}

impl Subnet {
    /// The network address: the base with the mask applied.
    pub open spec fn spec_network(self) -> Address {
        and_octets(self.base, self.mask)
    }

    /// Every address the subnet covers, from the network address upward in
    /// offset order.
    pub open spec fn spec_addresses(self) -> Seq<Address> {
        Seq::new(
            spec_count(self.mask) as nat,
            |k: int| spec_add_offset(self.spec_network(), k as u32),
        )
    }

    /// The subnet's full address range can be enumerated: the mask is a
    /// well-formed prefix mask with at least one set bit (a mask of all
    /// zeroes would put the address count past 32 bits), and the historical
    /// offset arithmetic stays within octet range over the whole block --
    /// which it does except for a full 32-bit mask on a network address
    /// ending in an octet pair (255, 255).
    pub open spec fn enumerable(self) -> bool {
        &&& is_mask(self.mask)
        &&& pop(self.mask) >= 1
        &&& !(pop(self.mask) == 32 && self.spec_network().2 == 255 && self.spec_network().3
            == 255)
    }

    /// Builds a subnet with an empty declaration text.
    pub fn new(base: Address, mask: Address) -> (r: Subnet)
        requires
            is_mask(mask),
        ensures
            r.base == base,
            r.mask == mask,
            r.subnet_str@ == Seq::<char>::empty(),
    {
        Subnet { base, mask, subnet_str: String::new() }
    }

    /// Builds a subnet that remembers its declaration text.
    pub fn new_str(base: Address, mask: Address, subnet_str: String) -> (r: Subnet)
        requires
            is_mask(mask),
        ensures
            r.base == base,
            r.mask == mask,
            r.subnet_str == subnet_str,
    {
        Subnet { base, mask, subnet_str }
    }

    /// Counts the usable host addresses under the subnet's mask: two to the
    /// power of the number of clear mask bits, minus the network and
    /// broadcast addresses; zero for a fully set mask.
    pub fn number_hosts(&self) -> (r: u32)
        ensures
            r == spec_hosts(self.mask),
    {
        let mut number: u8 = 0;
        number = number + number_ones(self.mask.0);
        number = number + number_ones(self.mask.1);
        number = number + number_ones(self.mask.2);
        number = number + number_ones(self.mask.3);
        proof {
            lemma_pop_bounds(self.mask);
        }
        if number == 32 {
            0
        } else {
            let sh: u64 = (32 - number) as u64;
            proof {
                lemma_u64_pow2_no_overflow(sh as nat);
                lemma_u64_shl_is_mul(1u64, sh);
                lemma2_to64();
                if sh < 32 {
                    lemma_pow2_strictly_increases(sh as nat, 32);
                }
                if sh > 1 {
                    lemma_pow2_strictly_increases(1, sh as nat);
                }
            }
            ((1u64 << sh) - 2) as u32
        }
    }

    /// The total number of addresses the subnet covers: hosts plus the
    /// network and broadcast addresses. A mask with no set bit is excluded:
    /// its count would not fit in 32 bits.
    pub fn number_addresses(&self) -> (r: u32)
        requires
            pop(self.mask) >= 1,
        ensures
            r == spec_count(self.mask),
    {
        proof {
            lemma_pop_bounds(self.mask);
            lemma_count_bounds(self.mask);
        }
        let hosts = self.number_hosts();
        hosts + 2
    }

    /// The network address: the base with the mask applied octet by octet.
    pub fn network_address(&self) -> (r: Address)
        ensures
            r == self.spec_network(),
    {
        self.base.mask(self.mask)
    }

    /// Reports whether the subnet's whole range can be enumerated; this is
    /// the runtime test for `enumerable`.
    pub fn supports_enumeration(&self) -> (r: bool)
        ensures
            r == self.enumerable(),
    {
        if !is_valid_mask(self.mask) {
            return false;
        }
        let mut ones: u8 = 0;
        ones = ones + number_ones(self.mask.0);
        ones = ones + number_ones(self.mask.1);
        ones = ones + number_ones(self.mask.2);
        ones = ones + number_ones(self.mask.3);
        if ones == 0 {
            return false;
        }
        let net = self.network_address();
        if ones == 32 && net.2 == 255 && net.3 == 255 {
            return false;
        }
        true
    }

    /// Materializes every address of the subnet, in ascending offset order
    /// starting at the network address.
    pub fn generate_addresses(&self) -> (r: Vec<Address>)
        requires
            self.enumerable(),
        ensures
            r@ == self.spec_addresses(),
    {
        let count = self.number_addresses();
        let net = self.network_address();
        let mut addresses: Vec<Address> = Vec::with_capacity(count as usize);
        let mut i: u32 = 0;
        while i < count
            invariant
                i <= count,
                count == spec_count(self.mask),
                net == self.spec_network(),
                self.enumerable(),
                addresses@.len() == i as int,
                forall|k: int|
                    0 <= k < i ==> addresses@[k] == spec_add_offset(self.spec_network(), k as u32),
            decreases count - i,
        {
            proof {
                lemma_enumeration(*self, i);
            }
            addresses.push(net.add_offset(i));
            i = i + 1;
        }
        proof {
            assert(addresses@ =~= self.spec_addresses());
        }
        addresses
    }

    /// Reports whether this subnet and `other_subnet` cover at least one
    /// common address, by materializing both ranges and scanning them for a
    /// shared entry.
    pub fn collision(&self, other_subnet: &Subnet) -> (r: bool)
        requires
            self.enumerable(),
            other_subnet.enumerable(),
        ensures
            r == spec_collides(*self, *other_subnet),
    {
        let mine = self.generate_addresses();
        let theirs = other_subnet.generate_addresses();
        seqs_share(&mine, &theirs)
    }

    /// Lists every address of this subnet that `other_subnet` also covers,
    /// in this subnet's enumeration order.
    pub fn colliding_addresses(&self, other_subnet: &Subnet) -> (r: Vec<Address>)
        requires
            self.enumerable(),
            other_subnet.enumerable(),
        ensures
            r@ == spec_shared(*self, *other_subnet),
    {
        let mine = self.generate_addresses();
        let theirs = other_subnet.generate_addresses();
        let mut shared: Vec<Address> = Vec::new();
        let mut i: usize = 0;
        while i < mine.len()
            invariant
                i <= mine@.len(),
                mine@ == self.spec_addresses(),
                theirs@ == other_subnet.spec_addresses(),
                shared@ == mine@.take(i as int).filter(
                    |x: Address| other_subnet.spec_addresses().contains(x),
                ),
            decreases mine@.len() - i,
        {
            let present = vec_contains(&theirs, mine[i]);
            if present {
                shared.push(mine[i]);
            }
            proof {
                reveal(Seq::filter);
                assert(mine@.take(i as int + 1).drop_last() =~= mine@.take(i as int));
                assert(mine@.take(i as int + 1).last() == mine@[i as int]);
            }
            i = i + 1;
        }
        proof {
            assert(mine@.take(mine@.len() as int) =~= mine@);
        }
        shared
    }
}

/// The addresses shared by two subnets: the first subnet's enumeration
/// filtered to the entries the second subnet also covers.
pub open spec fn spec_shared(a: Subnet, b: Subnet) -> Seq<Address> {
    a.spec_addresses().filter(|x: Address| b.spec_addresses().contains(x))
}

/// Linear scan for one address in a materialized address list.
fn vec_contains(v: &Vec<Address>, x: Address) -> (r: bool)
    ensures
        r == v@.contains(x),
{
    let mut j: usize = 0;
    while j < v.len()
        invariant
            j <= v@.len(),
            forall|l: int| 0 <= l < j ==> v@[l] != x,
        decreases v@.len() - j,
    {
        if v[j] == x {
            return true;
        }
        j = j + 1;
    }
    proof {
        if v@.contains(x) {
            let l = choose|l: int| 0 <= l < v@.len() && v@[l] == x;
            assert(v@[l] != x);
        }
    }
    false
}

/// Reports whether two materialized address lists share an entry.
fn seqs_share(a: &Vec<Address>, b: &Vec<Address>) -> (r: bool)
    ensures
        r == exists|x: Address| a@.contains(x) && b@.contains(x),
{
    let mut i: usize = 0;
    while i < a.len()
        invariant
            i <= a@.len(),
            forall|k: int| 0 <= k < i ==> !b@.contains(a@[k]),
        decreases a@.len() - i,
    {
        if vec_contains(b, a[i]) {
            proof {
                assert(a@.contains(a@[i as int]));
            }
            return true;
        }
        i = i + 1;
    }
    proof {
        if exists|x: Address| a@.contains(x) && b@.contains(x) {
            let x = choose|x: Address| a@.contains(x) && b@.contains(x);
            let k = choose|k: int| 0 <= k < a@.len() && a@[k] == x;
            assert(!b@.contains(a@[k]));
        }
    }
    false
}

/// Octet-wise AND composes to bitwise AND of the linear values.
proof fn lemma_and_linear_bv(
    a0: u8,
    a1: u8,
    a2: u8,
    a3: u8,
    m0: u8,
    m1: u8,
    m2: u8,
    m3: u8,
    b: u32,
    m: u32,
)
    by (bit_vector)
    requires
        b == (a0 as u32) * 0x1000000 + (a1 as u32) * 0x10000 + (a2 as u32) * 0x100 + (a3 as u32),
        m == (m0 as u32) * 0x1000000 + (m1 as u32) * 0x10000 + (m2 as u32) * 0x100 + (m3 as u32),
    ensures
        ((a0 & m0) as u32) * 0x1000000 + ((a1 & m1) as u32) * 0x10000 + ((a2 & m2) as u32) * 0x100
            + ((a3 & m3) as u32) == b & m,
{
}

/// Within a block: a masked base and an offset below the block size have
/// disjoint bits, so no octet pair sums past 255.
proof fn lemma_block_no_carry_bv(b: u32, m: u32, off: u32, sh: u32)
    by (bit_vector)
    requires
        sh <= 31,
        m == 0xFFFFFFFFu32 - ((1u32 << sh) - 1),
        off < (1u32 << sh),
    ensures
        ((b & m) / 0x1000000) + (off / 0x1000000) <= 255,
        (((b & m) / 0x10000) % 0x100) + ((off / 0x10000) % 0x100) <= 255,
        (((b & m) / 0x100) % 0x100) + ((off / 0x100) % 0x100) <= 255,
        ((b & m) % 0x100) + (off % 0x100) <= 255,
{
}

/// Every offset below the address count stays within octet range under the
/// historical addition, and the result is characterized: plain linear
/// addition below a full mask; for a full mask, offset zero returns the
/// network address and offset one returns a different address.
proof fn lemma_enumeration(s: Subnet, i: u32)
    requires
        s.enumerable(),
        i < spec_count(s.mask),
    ensures
        add_offset_ok(s.spec_network(), i),
        pop(s.mask) < 32 ==> spec_add_offset(s.spec_network(), i).linear() == s.spec_network()
            .linear() + i,
        pop(s.mask) == 32 && i == 0 ==> spec_add_offset(s.spec_network(), i) == s.spec_network(),
        pop(s.mask) == 32 && i == 1 ==> spec_add_offset(s.spec_network(), i) != s.spec_network(),
{
    let m = s.mask;
    let net = s.spec_network();
    let p = choose|p: int| 0 <= p <= 32 && m.linear() == mask_value(p);
    lemma_mask_pop(m, p);
    lemma_pop_bounds(m);
    lemma_count_bounds(m);
    lemma_linear_bytes(net);
    lemma_linear_bytes(m);
    lemma_linear_bytes(s.base);
    lemma2_to64();
    if p < 32 {
        let sh = (32 - p) as u32;
        lemma_u32_pow2_no_overflow(sh as nat);
        lemma_u32_shl_is_mul(1u32, sh);
        let bl: u32 = s.base.linear() as u32;
        let ml: u32 = m.linear() as u32;
        lemma_and_linear_bv(
            s.base.0,
            s.base.1,
            s.base.2,
            s.base.3,
            m.0,
            m.1,
            m.2,
            m.3,
            bl,
            ml,
        );
        lemma_block_no_carry_bv(bl, ml, i, sh);
        assert(net.linear() == (bl & ml));
        lemma_add_offset_no_carry(net, i);
    } else {
        // a full mask leaves the base unchanged
        let b0 = s.base.0;
        let b1 = s.base.1;
        let b2 = s.base.2;
        let b3 = s.base.3;
        assert(m.0 == 255 && m.1 == 255 && m.2 == 255 && m.3 == 255);
        assert(b0 & 255u8 == b0 && b1 & 255u8 == b1 && b2 & 255u8 == b2 && b3 & 255u8 == b3)
            by (bit_vector);
        assert(spec_count(m) == 2);
        if i == 0 {
            lemma_add_offset_no_carry(net, 0);
        } else {
            assert(i == 1);
            assert(off_byte0(1u32) == 0 && off_byte1(1u32) == 0 && off_byte2(1u32) == 0
                && off_byte3(1u32) == 1);
            if net.3 < 255 {
                lemma_add_offset_no_carry(net, 1);
                assert(spec_add_offset(net, 1u32).3 == net.3 + 1);
            } else {
                lemma_small_mod(254 as nat, 256);
                lemma_small_mod((net.2 + 1) as nat, 256);
                lemma_small_mod(net.1 as nat, 256);
                lemma_small_mod(net.0 as nat, 256);
                assert(spec_add_offset(net, 1u32).3 == 254);
            }
        }
    }
}

/// The overlap test is symmetric: two subnets collide in one order exactly
/// when they collide in the other.
pub proof fn lemma_collision_symmetric(a: Subnet, b: Subnet)
    ensures
        spec_collides(a, b) == spec_collides(b, a),
{
    if spec_collides(a, b) {
        let x = choose|x: Address| a.spec_addresses().contains(x) && b.spec_addresses().contains(
            x,
        );
        assert(b.spec_addresses().contains(x) && a.spec_addresses().contains(x));
    }
    if spec_collides(b, a) {
        let x = choose|x: Address| b.spec_addresses().contains(x) && a.spec_addresses().contains(
            x,
        );
        assert(a.spec_addresses().contains(x) && b.spec_addresses().contains(x));
    }
}

/// An enumerable subnet's address list has exactly the declared address
/// count, and no address appears in it twice.
pub proof fn lemma_addresses_distinct(s: Subnet)
    requires
        s.enumerable(),
    ensures
        s.spec_addresses().len() == spec_count(s.mask),
        forall|k: int, l: int|
            0 <= k < l < s.spec_addresses().len() ==> s.spec_addresses()[k]
                != s.spec_addresses()[l],
{
    lemma_pop_bounds(s.mask);
    lemma_count_bounds(s.mask);
    assert forall|k: int, l: int|
        0 <= k < l < s.spec_addresses().len() implies s.spec_addresses()[k]
        != s.spec_addresses()[l] by {
        lemma_enumeration(s, k as u32);
        lemma_enumeration(s, l as u32);
    }
}

} // verus!
