use vstd::prelude::*;
use crate::bencode::text::{nat_text, push_decimal};
use crate::hex::{hex_text, push_hex};

verus! {

/// An IP address as a number: 32 bits for version 4, 128 bits for version 6,
/// the first byte of the address in the highest place.
#[derive(Debug, Clone, Copy, PartialEq, Eq, Hash, Structural)]
pub enum IpAddress {
    V4(u32),
    V6(u128),
}

/// The address of a peer or a node: an IP address and a port.
#[derive(Debug, Clone, Copy, PartialEq, Eq, Hash, Structural)]
pub struct Endpoint {
    pub ip: IpAddress,
    pub port: u16,
}

/// The byte `.`.
pub const DOT: u8 = 46;

/// The byte `:`.
pub const COLON: u8 = 58;

/// The byte `[`.
pub const OPEN: u8 = 91;

/// The byte `]`.
pub const CLOSE: u8 = 93;

/// The `i`-th of the four bytes of a version 4 address, the first byte
/// being the highest.
pub open spec fn octet(ip: u32, i: int) -> nat {
    if i == 0 {
        (ip / 0x100_0000) as nat
    } else if i == 1 {
        (ip / 0x1_0000 % 0x100) as nat
    } else if i == 2 {
        (ip / 0x100 % 0x100) as nat
    } else {
        (ip % 0x100) as nat
    }
}

/// The version 4 address whose four bytes are `a`, `b`, `c`, `d`.
pub open spec fn ipv4_of(a: u8, b: u8, c: u8, d: u8) -> u32 {
    (a * 0x100_0000 + b * 0x1_0000 + c * 0x100 + d) as u32
}

/// 16 to the power `k`, for the places of the groups of a version 6 address.
pub open spec fn group_place(i: int) -> nat
    decreases 7 - i,
{
    if i >= 7 {
        1
    } else {
        0x1_0000 * group_place(i + 1)
    }
}

/// The `i`-th of the eight 16-bit groups of a version 6 address, the first
/// group being the highest.
pub open spec fn group(ip: u128, i: int) -> nat {
    (ip as nat / group_place(i)) % 0x1_0000
}

/// The text of a version 4 address: its four bytes in decimal, with dots
/// between them.
pub open spec fn ipv4_text(ip: u32) -> Seq<u8> {
    nat_text(octet(ip, 0)) + seq![DOT] + nat_text(octet(ip, 1)) + seq![DOT] + nat_text(
        octet(ip, 2),
    ) + seq![DOT] + nat_text(octet(ip, 3))
}

/// The text of the groups of a version 6 address from the `i`-th on: each
/// group in hexadecimal without leading zeros, with colons between them.
pub open spec fn groups_text(ip: u128, i: int) -> Seq<u8>
    decreases 8 - i,
{
    if i >= 7 {
        hex_text(group(ip, 7))
    } else {
        hex_text(group(ip, i)) + seq![COLON] + groups_text(ip, i + 1)
    }
}

/// The text of an endpoint: `a.b.c.d:port` for version 4, and
/// `[g:g:g:g:g:g:g:g]:port` for version 6, with every group written out.
pub open spec fn endpoint_text(e: Endpoint) -> Seq<u8> {
    match e.ip {
        IpAddress::V4(ip) => ipv4_text(ip) + seq![COLON] + nat_text(e.port as nat),
        IpAddress::V6(ip) => seq![OPEN] + groups_text(ip, 0) + seq![CLOSE] + seq![COLON]
            + nat_text(e.port as nat),
    }
}

/// Every place is at least one.
proof fn lemma_group_place_positive(i: int)
    ensures
        group_place(i) > 0,
    decreases 7 - i,
{
    if i < 7 {
        lemma_group_place_positive(i + 1);
    }
}

/// The four bytes that an address was made of are its four bytes.
pub proof fn lemma_octets(a: u8, b: u8, c: u8, d: u8)
    ensures
        ipv4_of(a, b, c, d) == a * 0x100_0000 + b * 0x1_0000 + c * 0x100 + d,
        octet(ipv4_of(a, b, c, d), 0) == a,
        octet(ipv4_of(a, b, c, d), 1) == b,
        octet(ipv4_of(a, b, c, d), 2) == c,
        octet(ipv4_of(a, b, c, d), 3) == d,
{
    let n: int = a * 0x100_0000 + b * 0x1_0000 + c * 0x100 + d;
    assert(0 <= n <= 0xffff_ffff);
    assert(n / 0x100_0000 == a) by (nonlinear_arith)
        requires
            n == a * 0x100_0000 + b * 0x1_0000 + c * 0x100 + d,
            0 <= b < 256,
            0 <= c < 256,
            0 <= d < 256,
    ;
    assert(n / 0x1_0000 == a * 0x100 + b) by (nonlinear_arith)
        requires
            n == a * 0x100_0000 + b * 0x1_0000 + c * 0x100 + d,
            0 <= c < 256,
            0 <= d < 256,
    ;
    assert(n / 0x100 == a * 0x1_0000 + b * 0x100 + c) by (nonlinear_arith)
        requires
            n == a * 0x100_0000 + b * 0x1_0000 + c * 0x100 + d,
            0 <= d < 256,
    ;
    assert((a * 0x100 + b) % 0x100 == b) by (nonlinear_arith)
        requires
            0 <= b < 256,
    ;
    assert((a * 0x1_0000 + b * 0x100 + c) % 0x100 == c) by (nonlinear_arith)
        requires
            0 <= c < 256,
    ;
    assert(n % 0x100 == d) by (nonlinear_arith)
        requires
            n == a * 0x100_0000 + b * 0x1_0000 + c * 0x100 + d,
            0 <= d < 256,
    ;
}

impl IpAddress {
    /// The version 4 address whose four bytes are `a`, `b`, `c`, `d`.
    pub fn v4(a: u8, b: u8, c: u8, d: u8) -> (ip: IpAddress)
        ensures
            ip == IpAddress::V4(ipv4_of(a, b, c, d)),
            octet(ipv4_of(a, b, c, d), 0) == a,
            octet(ipv4_of(a, b, c, d), 1) == b,
            octet(ipv4_of(a, b, c, d), 2) == c,
            octet(ipv4_of(a, b, c, d), 3) == d,
    {
        let n: u32 = (a as u32) * 0x100_0000 + (b as u32) * 0x1_0000 + (c as u32) * 0x100 + (
        d as u32);
        proof {
            lemma_octets(a, b, c, d);
        }
        IpAddress::V4(n)
    }
}

impl Endpoint {
    /// The endpoint at `ip` and `port`.
    pub fn new(ip: IpAddress, port: u16) -> (e: Endpoint)
        ensures
            e == (Endpoint { ip, port }),
    {
        Endpoint { ip, port }
    }

    /// The text of the endpoint, in ASCII.
    pub fn to_text(&self) -> (text: Vec<u8>)
        ensures
            text@ == endpoint_text(*self),
    {
        let mut out: Vec<u8> = Vec::new();
        match self.ip {
            IpAddress::V4(ip) => {
                push_decimal(&mut out, (ip / 0x100_0000) as u64);
                out.push(DOT);
                push_decimal(&mut out, (ip / 0x1_0000 % 0x100) as u64);
                out.push(DOT);
                push_decimal(&mut out, (ip / 0x100 % 0x100) as u64);
                out.push(DOT);
                push_decimal(&mut out, (ip % 0x100) as u64);
                proof {
                    assert(out@ =~= ipv4_text(ip));
                }
            },
            IpAddress::V6(ip) => {
                out.push(OPEN);
                let mut place: u128 = 0x1_0000_0000_0000_0000_0000_0000_0000;
                let mut i: usize = 0;
                proof {
                    reveal_with_fuel(group_place, 9);
                }
                while i < 7
                    invariant
                        i <= 7,
                        place == group_place(i as int),
                        place > 0,
                        out@ + groups_text(ip, i as int) == seq![OPEN] + groups_text(ip, 0),
                    decreases 7 - i,
                {
                    let ghost before = out@;
                    push_hex(&mut out, (ip / place % 0x1_0000) as u64);
                    out.push(COLON);
                    proof {
                        assert(out@ + groups_text(ip, i + 1) =~= before + groups_text(
                            ip,
                            i as int,
                        ));
                        assert(group_place(i as int) == 0x1_0000 * group_place(i + 1));
                        lemma_group_place_positive(i + 1);
                    }
                    place = place / 0x1_0000;
                    i += 1;
                }
                push_hex(&mut out, (ip % 0x1_0000) as u64);
                out.push(CLOSE);
                proof {
                    assert(out@ =~= seq![OPEN] + groups_text(ip, 0) + seq![CLOSE]);
                }
            },
        }
        out.push(COLON);
        push_decimal(&mut out, self.port as u64);
        proof {
            assert(out@ =~= endpoint_text(*self));
        }
        out
    }
}

} // verus!
