//! A 32-bit IPv4 address and its four octets.

use crate::decimal::{decimal_text, push_decimal};
use crate::text::join4;
use vstd::prelude::*;
use vstd::string::StringExecFns;

verus! {

/// An IPv4 address, held as its 32-bit value: the first octet of the dotted
/// form is the most significant byte.
#[derive(Clone, Copy, Debug, PartialEq, Eq, Structural)]
pub struct Ipv4Addr {
    pub bits: u32,
}

/// The 32-bit value whose bytes, most significant first, are `a`, `b`, `c`, `d`.
pub open spec fn pack(a: u8, b: u8, c: u8, d: u8) -> u32 {
    ((a as u32) << 24) | ((b as u32) << 16) | ((c as u32) << 8) | (d as u32)
}

/// Byte `i` of `bits`, where byte 0 is the most significant one.
pub open spec fn octet_of(bits: u32, i: int) -> u8 {
    ((bits >> ((8 * (3 - i)) as u32)) & 0xff) as u8
}

impl Ipv4Addr {
    /// Octet `i` of the dotted form, `0 <= i < 4`.
    pub open spec fn octet(self, i: int) -> u8 {
        octet_of(self.bits, i)
    }

    /// The four octets, first octet first.
    pub open spec fn octets_spec(self) -> Seq<u8> {
        seq![self.octet(0), self.octet(1), self.octet(2), self.octet(3)]
    }

    /// The dotted form of the address: its octets in base ten, joined by dots.
    pub open spec fn dotted_text(self) -> Seq<char> {
        join4(
            decimal_text(self.octet(0) as nat),
            decimal_text(self.octet(1) as nat),
            decimal_text(self.octet(2) as nat),
            decimal_text(self.octet(3) as nat),
            '.',
        )
    }

    /// The address `a.b.c.d`.
    pub fn new(a: u8, b: u8, c: u8, d: u8) -> (r: Ipv4Addr)
        ensures
            r.bits == pack(a, b, c, d),
            r.octets_spec() == seq![a, b, c, d],
    {
        let bits: u32 = ((a as u32) << 24) | ((b as u32) << 16) | ((c as u32) << 8) | (d as u32);
        proof {
            lemma_pack_octets(a, b, c, d);
        }
        Ipv4Addr { bits }
    }

    /// The address with the given 32-bit value.
    pub fn from_bits(bits: u32) -> (r: Ipv4Addr)
        ensures
            r.bits == bits,
    {
        Ipv4Addr { bits }
    }

    /// The 32-bit value of the address.
    pub fn to_bits(&self) -> (r: u32)
        ensures
            r == self.bits,
    {
        self.bits
    }

    /// The four octets, first octet first.
    pub fn octets(&self) -> (r: [u8; 4])
        ensures
            r@ == self.octets_spec(),
            pack(r[0], r[1], r[2], r[3]) == self.bits,
    {
        let b: u32 = self.bits;
        let o0: u8 = ((b >> 24) & 0xff) as u8;
        let o1: u8 = ((b >> 16) & 0xff) as u8;
        let o2: u8 = ((b >> 8) & 0xff) as u8;
        let o3: u8 = (b & 0xff) as u8;
        proof {
            lemma_octets_pack(b);
            assert(b >> 0u32 == b) by (bit_vector);
        }
        let r: [u8; 4] = [o0, o1, o2, o3];
        assert(r@ =~= self.octets_spec());
        r
    }

    /// Writes the address in its dotted form.
    pub fn to_string(&self) -> (r: String)
        ensures
            r@ == self.dotted_text(),
    {
        let o: [u8; 4] = self.octets();
        proof {
            reveal_strlit(".");
            assert("."@ == seq!['.']);
        }
        let mut out = String::new();
        push_decimal(&mut out, o[0] as u64);
        out.append(".");
        push_decimal(&mut out, o[1] as u64);
        out.append(".");
        push_decimal(&mut out, o[2] as u64);
        out.append(".");
        push_decimal(&mut out, o[3] as u64);
        out
    }
}

/// Packing four octets and taking them out again gives the same octets.
pub proof fn lemma_pack_octets(a: u8, b: u8, c: u8, d: u8)
    ensures
        octet_of(pack(a, b, c, d), 0) == a,
        octet_of(pack(a, b, c, d), 1) == b,
        octet_of(pack(a, b, c, d), 2) == c,
        octet_of(pack(a, b, c, d), 3) == d,
{
    let p = pack(a, b, c, d);
    assert(((p >> 24u32) & 0xff) as u8 == a && ((p >> 16u32) & 0xff) as u8 == b && ((p >> 8u32)
        & 0xff) as u8 == c && ((p >> 0u32) & 0xff) as u8 == d) by (bit_vector)
        requires
            p == ((a as u32) << 24) | ((b as u32) << 16) | ((c as u32) << 8) | (d as u32),
    ;
}

/// Taking the four octets of a 32-bit value and packing them gives the value back.
pub proof fn lemma_octets_pack(bits: u32)
    ensures
        pack(octet_of(bits, 0), octet_of(bits, 1), octet_of(bits, 2), octet_of(bits, 3)) == bits,
{
    let a = octet_of(bits, 0);
    let b = octet_of(bits, 1);
    let c = octet_of(bits, 2);
    let d = octet_of(bits, 3);
    assert(((a as u32) << 24) | ((b as u32) << 16) | ((c as u32) << 8) | (d as u32) == bits)
        by (bit_vector)
        requires
            a == ((bits >> 24u32) & 0xff) as u8,
            b == ((bits >> 16u32) & 0xff) as u8,
            c == ((bits >> 8u32) & 0xff) as u8,
            d == ((bits >> 0u32) & 0xff) as u8,
    ;
}

} // verus!
