//! The subnet calculator: the masks, the network and the broadcast address,
//! the usable host range and the host counts of a prefix length.

use crate::addr::{octet_of, pack, Ipv4Addr};
use vstd::arithmetic::power2::{lemma2_to64, lemma2_to64_rest, pow2};
use vstd::bits::lemma_u64_shl_is_mul;
use vstd::prelude::*;

verus! {

/// The subnet mask of a prefix length: all ones, shifted left by the number
/// of host bits. The prefix length 0 gives the all-zero mask.
pub open spec fn subnet_mask_bits(cidr: u8) -> u32 {
    if cidr == 0 {
        0u32
    } else {
        0xffff_ffffu32 << ((32 - cidr) as u32)
    }
}

/// The network address of `ip` under a prefix length: `ip` with its host
/// bits cleared.
pub open spec fn network_bits(ip: u32, cidr: u8) -> u32 {
    ip & subnet_mask_bits(cidr)
}

/// The broadcast address of `ip` under a prefix length: `ip` with its host
/// bits set.
pub open spec fn broadcast_bits(ip: u32, cidr: u8) -> u32 {
    ip | !subnet_mask_bits(cidr)
}

/// Whether bit `i` of `x` is set, where bit 0 is the most significant one.
pub open spec fn leading_bit(x: u32, i: u32) -> bool {
    (x >> ((31 - i) as u32)) & 1 == 1
}

/// The number of addresses in a subnet of the given prefix length.
pub open spec fn total_hosts(cidr: u8) -> nat {
    pow2((32 - cidr) as nat)
}

/// The number of addresses left for hosts once the network and the
/// broadcast address are taken out.
pub open spec fn usable_hosts(cidr: u8) -> nat {
    if total_hosts(cidr) >= 2 {
        (total_hosts(cidr) - 2) as nat
    } else {
        0
    }
}

/// The mask with `cidr` leading one bits and `32 - cidr` trailing zero bits.
pub fn get_subnet_mask(cidr: u8) -> (mask: Ipv4Addr)
    requires
        cidr <= 32,
    ensures
        mask.bits == subnet_mask_bits(cidr),
        forall|i: u32| i < 32 ==> (#[trigger] leading_bit(mask.bits, i) <==> i < cidr),
{
    let bits: u32 = if cidr == 0 {
        0
    } else {
        0xffff_ffffu32 << ((32 - cidr) as u32)
    };
    proof {
        lemma_subnet_mask_leading_ones(cidr);
    }
    Ipv4Addr::from_bits(bits)
}

/// The bitwise complement of a mask: each octet is 255 less the octet of
/// the mask.
pub fn get_wildcard_mask(mask_subnet: Ipv4Addr) -> (wildcard: Ipv4Addr)
    ensures
        wildcard.bits == !mask_subnet.bits,
        forall|i: int|
            0 <= i < 4 ==> #[trigger] wildcard.octet(i) == 255 - mask_subnet.octet(i),
{
    let m: u32 = mask_subnet.bits;
    proof {
        lemma_complement_octets(m);
    }
    Ipv4Addr::from_bits(!m)
}

/// The address with its host bits cleared: the bitwise AND of address and
/// subnet mask, octet by octet.
pub fn get_network_addr(mask_subnet: Ipv4Addr, ip: Ipv4Addr) -> (network: Ipv4Addr)
    ensures
        network.bits == ip.bits & mask_subnet.bits,
        forall|i: int|
            0 <= i < 4 ==> #[trigger] network.octet(i) == ip.octet(i) & mask_subnet.octet(i),
{
    let m: u32 = mask_subnet.bits;
    let a: u32 = ip.bits;
    proof {
        lemma_and_octets(a, m);
    }
    Ipv4Addr::from_bits(a & m)
}

/// The address with its host bits set: the bitwise OR of address and
/// wildcard mask, octet by octet.
pub fn get_broadcast_addr(mask_wildcard: Ipv4Addr, ip: Ipv4Addr) -> (broadcast: Ipv4Addr)
    ensures
        broadcast.bits == ip.bits | mask_wildcard.bits,
        forall|i: int|
            0 <= i < 4 ==> #[trigger] broadcast.octet(i) == ip.octet(i) | mask_wildcard.octet(i),
{
    let w: u32 = mask_wildcard.bits;
    let a: u32 = ip.bits;
    proof {
        lemma_or_octets(a, w);
    }
    Ipv4Addr::from_bits(a | w)
}

/// The first address a host can have: the network address with its last
/// octet raised by one, or the network address itself where no address is
/// left for hosts. The last octet must have room for the step.
pub fn get_first_host_addr(addr_network: Ipv4Addr, hosts_usable: u64) -> (first: Ipv4Addr)
    requires
        hosts_usable != 0 ==> addr_network.octet(3) < 255,
    ensures
        hosts_usable == 0 ==> first == addr_network,
        hosts_usable != 0 ==> first.bits == addr_network.bits + 1,
        hosts_usable != 0 ==> first.octets_spec() == addr_network.octets_spec().update(
            3,
            (addr_network.octet(3) + 1) as u8,
        ),
{
    if hosts_usable == 0 {
        return addr_network;
    }
    let o: [u8; 4] = addr_network.octets();
    let first = Ipv4Addr::new(o[0], o[1], o[2], o[3] + 1);
    proof {
        lemma_last_octet_step(o[0], o[1], o[2], o[3]);
        assert(first.octets_spec() =~= addr_network.octets_spec().update(
            3,
            (addr_network.octet(3) + 1) as u8,
        ));
    }
    first
}

/// The last address a host can have: the broadcast address with its last
/// octet lowered by one, or the broadcast address itself where no address
/// is left for hosts. The last octet must have room for the step.
pub fn get_last_host_addr(addr_broadcast: Ipv4Addr, hosts_usable: u64) -> (last: Ipv4Addr)
    requires
        hosts_usable != 0 ==> addr_broadcast.octet(3) > 0,
    ensures
        hosts_usable == 0 ==> last == addr_broadcast,
        hosts_usable != 0 ==> last.bits == addr_broadcast.bits - 1,
        hosts_usable != 0 ==> last.octets_spec() == addr_broadcast.octets_spec().update(
            3,
            (addr_broadcast.octet(3) - 1) as u8,
        ),
{
    if hosts_usable == 0 {
        return addr_broadcast;
    }
    let o: [u8; 4] = addr_broadcast.octets();
    let last = Ipv4Addr::new(o[0], o[1], o[2], o[3] - 1);
    proof {
        lemma_last_octet_step(o[0], o[1], o[2], (o[3] - 1) as u8);
        assert(last.octets_spec() =~= addr_broadcast.octets_spec().update(
            3,
            (addr_broadcast.octet(3) - 1) as u8,
        ));
    }
    last
}

/// The total and the usable number of addresses of a prefix length, in this
/// order: 2 to the power of the number of host bits, and two less than that
/// or zero.
pub fn get_host_values(cidr: u8) -> (hosts: (u64, u64))
    requires
        cidr <= 32,
    ensures
        hosts.0 == pow2((32 - cidr) as nat),
        hosts.1 == (if hosts.0 >= 2 {
            hosts.0 - 2
        } else {
            0
        }),
        hosts.0 == total_hosts(cidr),
        hosts.1 == usable_hosts(cidr),
{
    let shift: u64 = (32 - cidr) as u64;
    proof {
        lemma2_to64();
        lemma2_to64_rest();
        lemma_u64_shl_is_mul(1u64, shift);
    }
    let total: u64 = 1u64 << shift;
    if total >= 2 {
        return (total, total - 2);
    }
    (total, 0)
}

/// The subnet mask of a prefix length has exactly that many leading one
/// bits, and zero bits after them.
pub proof fn lemma_subnet_mask_leading_ones(cidr: u8)
    requires
        cidr <= 32,
    ensures
        forall|i: u32|
            i < 32 ==> (#[trigger] leading_bit(subnet_mask_bits(cidr), i) <==> i < cidr),
{
    let m = subnet_mask_bits(cidr);
    assert forall|i: u32| i < 32 implies (#[trigger] leading_bit(m, i) <==> i < cidr) by {
        assert(((m >> ((31 - i) as u32)) & 1 == 1) <==> i < cidr) by (bit_vector)
            requires
                cidr <= 32,
                i < 32,
                m == (if cidr == 0 {
                    0u32
                } else {
                    0xffff_ffffu32 << ((32 - cidr) as u32)
                }),
        ;
    }
}

/// The wildcard mask of a prefix length is the bitwise complement of its
/// subnet mask: it has a zero bit wherever the subnet mask has a one bit
/// and a one bit wherever the subnet mask has a zero bit. So it is the
/// subnet mask XOR all ones, the two share no bit, and together they fill
/// all 32.
pub proof fn lemma_wildcard_complements_mask(cidr: u8)
    ensures
        forall|i: u32|
            i < 32 ==> (#[trigger] leading_bit(!subnet_mask_bits(cidr), i) <==> !leading_bit(
                subnet_mask_bits(cidr),
                i,
            )),
        !subnet_mask_bits(cidr) == subnet_mask_bits(cidr) ^ 0xffff_ffffu32,
        !subnet_mask_bits(cidr) & subnet_mask_bits(cidr) == 0,
        !subnet_mask_bits(cidr) | subnet_mask_bits(cidr) == 0xffff_ffffu32,
{
    let m = subnet_mask_bits(cidr);
    assert(!m == m ^ 0xffff_ffffu32 && !m & m == 0 && !m | m == 0xffff_ffffu32) by (bit_vector);
    assert forall|i: u32| i < 32 implies (#[trigger] leading_bit(!m, i) <==> !leading_bit(
        m,
        i,
    )) by {
        assert(((!m >> ((31 - i) as u32)) & 1 == 1) <==> !((m >> ((31 - i) as u32)) & 1 == 1))
            by (bit_vector)
            requires
                i < 32,
        ;
    }
}

/// The network address has no bit set in the host part: its bitwise AND
/// with the wildcard mask is zero.
pub proof fn lemma_network_clears_host_bits(ip: Ipv4Addr, cidr: u8)
    ensures
        network_bits(ip.bits, cidr) & !subnet_mask_bits(cidr) == 0,
{
    let a = ip.bits;
    let m = subnet_mask_bits(cidr);
    assert((a & m) & !m == 0) by (bit_vector);
}

/// The broadcast address and the network address agree in the network
/// part: under the subnet mask both are the network address.
pub proof fn lemma_broadcast_shares_network_part(ip: Ipv4Addr, cidr: u8)
    ensures
        broadcast_bits(ip.bits, cidr) & subnet_mask_bits(cidr) == network_bits(ip.bits, cidr)
            & subnet_mask_bits(cidr),
        broadcast_bits(ip.bits, cidr) & subnet_mask_bits(cidr) == network_bits(ip.bits, cidr),
{
    let a = ip.bits;
    let m = subnet_mask_bits(cidr);
    assert((a | !m) & m == (a & m) & m && (a | !m) & m == a & m) by (bit_vector);
}

/// A subnet holds at least one address and at most 2^32: one under the
/// prefix length 32, two under 31, four or more under any shorter one.
pub proof fn lemma_total_hosts_bounds(cidr: u8)
    requires
        cidr <= 32,
    ensures
        1 <= total_hosts(cidr) <= 0x1_0000_0000,
        cidr == 32 <==> total_hosts(cidr) == 1,
        cidr == 31 <==> total_hosts(cidr) == 2,
        cidr <= 30 <==> total_hosts(cidr) >= 4,
        cidr <= 30 <==> usable_hosts(cidr) > 0,
{
    lemma2_to64();
}

/// As numbers, the subnet mask of a prefix length is 2^32 less the number
/// of addresses of the subnet, and the wildcard mask is that number less one.
pub proof fn lemma_mask_values(cidr: u8)
    requires
        cidr <= 32,
    ensures
        subnet_mask_bits(cidr) == pow2(32) - total_hosts(cidr),
        !subnet_mask_bits(cidr) == total_hosts(cidr) - 1,
{
    let m = subnet_mask_bits(cidr);
    let k: u64 = (32 - cidr) as u64;
    lemma2_to64();
    lemma2_to64_rest();
    lemma_u64_shl_is_mul(1u64, k);
    assert(m as u64 == 0x1_0000_0000u64 - (1u64 << k) && (!m) as u64 == (1u64 << k) - 1)
        by (bit_vector)
        requires
            cidr <= 32,
            k == 32 - cidr,
            m == (if cidr == 0 {
                0u32
            } else {
                0xffff_ffffu32 << ((32 - cidr) as u32)
            }),
    ;
}

/// The network address is the lowest and the broadcast address the highest
/// address of a subnet, and from the one to the other there are as many
/// addresses as the subnet holds. Where addresses are left for hosts, the
/// last octet of the network address is below 255 and that of the broadcast
/// address above 0, so the first and the last host address differ from them
/// in the last octet only.
pub proof fn lemma_host_range(ip: u32, cidr: u8)
    requires
        cidr <= 32,
    ensures
        network_bits(ip, cidr) <= ip <= broadcast_bits(ip, cidr),
        broadcast_bits(ip, cidr) - network_bits(ip, cidr) + 1 == total_hosts(cidr),
        usable_hosts(cidr) != 0 ==> octet_of(network_bits(ip, cidr), 3) < 255,
        usable_hosts(cidr) != 0 ==> octet_of(broadcast_bits(ip, cidr), 3) > 0,
{
    let m = subnet_mask_bits(cidr);
    let n = ip & m;
    let b = ip | !m;
    let k: u64 = (32 - cidr) as u64;
    lemma2_to64();
    lemma2_to64_rest();
    lemma_u64_shl_is_mul(1u64, k);
    assert(n <= ip && ip <= b && (b - n) as u64 + 1 == (1u64 << k) && (cidr <= 30 ==> ((n
        >> 0u32) & 0xff) as u8 <= 252 && ((b >> 0u32) & 0xff) as u8 >= 3)) by (bit_vector)
        requires
            cidr <= 32,
            k == 32 - cidr,
            m == (if cidr == 0 {
                0u32
            } else {
                0xffff_ffffu32 << ((32 - cidr) as u32)
            }),
            n == ip & m,
            b == ip | !m,
    ;
    lemma_total_hosts_bounds(cidr);
}

/// Each octet of the complement is 255 less the octet.
proof fn lemma_complement_octets(m: u32)
    ensures
        forall|i: int| 0 <= i < 4 ==> #[trigger] octet_of(!m, i) == 255 - octet_of(m, i),
{
    assert(((!m >> 24u32) & 0xff) as u8 == 255 - ((m >> 24u32) & 0xff) as u8 && ((!m >> 16u32)
        & 0xff) as u8 == 255 - ((m >> 16u32) & 0xff) as u8 && ((!m >> 8u32) & 0xff) as u8 == 255
        - ((m >> 8u32) & 0xff) as u8 && ((!m >> 0u32) & 0xff) as u8 == 255 - ((m >> 0u32)
        & 0xff) as u8) by (bit_vector);
}

/// Each octet of a bitwise AND is the AND of the octets.
proof fn lemma_and_octets(x: u32, y: u32)
    ensures
        forall|i: int|
            0 <= i < 4 ==> #[trigger] octet_of(x & y, i) == octet_of(x, i) & octet_of(y, i),
{
    assert((((x & y) >> 24u32) & 0xff) as u8 == (((x >> 24u32) & 0xff) as u8) & (((y >> 24u32)
        & 0xff) as u8) && (((x & y) >> 16u32) & 0xff) as u8 == (((x >> 16u32) & 0xff) as u8)
        & (((y >> 16u32) & 0xff) as u8) && (((x & y) >> 8u32) & 0xff) as u8 == (((x >> 8u32)
        & 0xff) as u8) & (((y >> 8u32) & 0xff) as u8) && (((x & y) >> 0u32) & 0xff) as u8 == (((x
        >> 0u32) & 0xff) as u8) & (((y >> 0u32) & 0xff) as u8)) by (bit_vector);
}

/// Each octet of a bitwise OR is the OR of the octets.
proof fn lemma_or_octets(x: u32, y: u32)
    ensures
        forall|i: int|
            0 <= i < 4 ==> #[trigger] octet_of(x | y, i) == octet_of(x, i) | octet_of(y, i),
{
    assert((((x | y) >> 24u32) & 0xff) as u8 == (((x >> 24u32) & 0xff) as u8) | (((y >> 24u32)
        & 0xff) as u8) && (((x | y) >> 16u32) & 0xff) as u8 == (((x >> 16u32) & 0xff) as u8)
        | (((y >> 16u32) & 0xff) as u8) && (((x | y) >> 8u32) & 0xff) as u8 == (((x >> 8u32)
        & 0xff) as u8) | (((y >> 8u32) & 0xff) as u8) && (((x | y) >> 0u32) & 0xff) as u8 == (((x
        >> 0u32) & 0xff) as u8) | (((y >> 0u32) & 0xff) as u8)) by (bit_vector);
}

/// Raising the last octet by one raises the 32-bit value by one.
proof fn lemma_last_octet_step(a: u8, b: u8, c: u8, d: u8)
    requires
        d < 255,
    ensures
        pack(a, b, c, (d + 1) as u8) == pack(a, b, c, d) + 1,
{
    let e: u8 = (d + 1) as u8;
    assert((((a as u32) << 24) | ((b as u32) << 16) | ((c as u32) << 8) | (e as u32)) == (((a
        as u32) << 24) | ((b as u32) << 16) | ((c as u32) << 8) | (d as u32)) + 1)
        by (bit_vector)
        requires
            d < 255,
            e == d + 1,
    ;
}

} // verus!
