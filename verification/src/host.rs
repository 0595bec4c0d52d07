//! Hosts and sockets as plain values.

use vstd::prelude::*;

verus! {

/// One IP address. A version 4 address is its 32 bits and a version 6 address
/// its 128 bits, both read in network order: `127.0.0.1` is `0x7f00_0001`.
#[derive(Clone, Copy, Debug, PartialEq, Eq, Hash, Structural)]
pub enum Host {
    V4(u32),
    V6(u128),
}

/// A host together with one of its TCP ports.
#[derive(Clone, Copy, Debug, PartialEq, Eq, Hash, Structural)]
pub struct Socket {
    pub host: Host,
    pub port: u16,
}

/// The number that the four bytes of a version 4 address stand for.
pub open spec fn v4_bits(a: u8, b: u8, c: u8, d: u8) -> int {
    a as int * 0x100_0000 + b as int * 0x1_0000 + c as int * 0x100 + d as int
}

impl Host {
    /// The version 4 address `a.b.c.d`.
    pub fn v4(a: u8, b: u8, c: u8, d: u8) -> (host: Host)
        ensures
            host == Host::V4(v4_bits(a, b, c, d) as u32),
            v4_bits(a, b, c, d) <= u32::MAX,
    {
        let high: u32 = a as u32 * 0x100_0000 + b as u32 * 0x1_0000;
        let low: u32 = c as u32 * 0x100 + d as u32;
        Host::V4(high + low)
    }

    /// Whether this is a version 6 address.
    pub fn is_ipv6(&self) -> (v6: bool)
        ensures
            v6 == (self is V6),
    {
        match self {
            Host::V4(_) => false,
            Host::V6(_) => true,
        }
    }
}

} // verus!
