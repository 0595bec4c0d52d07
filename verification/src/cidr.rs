//! Blocks of addresses in CIDR notation.

use crate::host::Host;
use cidr_utils::cidr::IpCidr;
use vstd::arithmetic::power2::{lemma2_to64, lemma_pow2_adds, lemma_pow2_strictly_increases, lemma_pow2_unfold, pow2};
use vstd::prelude::*;

verus! {

/// A block of addresses: those that share the leading `bits` bits of `first`,
/// which is the lowest of them.
#[allow(inconsistent_fields)]
#[derive(Clone, Copy, Debug, PartialEq, Eq, Structural)]
pub enum CidrBlock {
    V4 { first: u32, bits: u8 },
    V6 { first: u128, bits: u8 },
}

impl CidrBlock {
    /// The number of bits of an address of this block.
    pub open spec fn width(&self) -> nat {
        match self {
            CidrBlock::V4 { .. } => 32,
            CidrBlock::V6 { .. } => 128,
        }
    }

    /// The number of leading bits that the addresses of the block share.
    pub open spec fn shared_bits(&self) -> nat {
        match self {
            CidrBlock::V4 { bits, .. } => *bits as nat,
            CidrBlock::V6 { bits, .. } => *bits as nat,
        }
    }

    /// The lowest address of the block, as a number.
    pub open spec fn lowest(&self) -> nat {
        match self {
            CidrBlock::V4 { first, .. } => *first as nat,
            CidrBlock::V6 { first, .. } => *first as nat,
        }
    }

    /// The number of addresses in the block.
    pub open spec fn size(&self) -> nat {
        pow2((self.width() - self.shared_bits()) as nat)
    }

    /// The block shares no more bits than an address has, and the bits of its
    /// lowest address that are not shared are all zero.
    pub open spec fn wf(&self) -> bool {
        &&& self.shared_bits() <= self.width()
        &&& self.lowest() % self.size() == 0
    }

    /// The address of the block at place `i`, counted from the lowest.
    pub open spec fn host_at(&self, i: int) -> Host {
        match self {
            CidrBlock::V4 { first, .. } => Host::V4((first + i) as u32),
            CidrBlock::V6 { first, .. } => Host::V6((first + i) as u128),
        }
    }

    /// All addresses of the block in rising order, the network address and
    /// the broadcast address among them.
    pub open spec fn hosts(&self) -> Seq<Host> {
        Seq::new(self.size(), |i: int| self.host_at(i))
    }

    /// Whether the block is well formed.
    pub fn is_well_formed(&self) -> (well: bool)
        ensures
            well == self.wf(),
    {
        let (first, bits, width): (u128, u8, u8) = match self {
            CidrBlock::V4 { first, bits } => (*first as u128, *bits, 32),
            CidrBlock::V6 { first, bits } => (*first, *bits, 128),
        };
        if bits > width {
            return false;
        }
        let span = ones(width - bits);
        proof {
            lemma_pow2_widths();
            if span == u128::MAX {
                vstd::arithmetic::div_mod::lemma_small_mod(first as nat, pow2(128));
            }
        }
        if span == u128::MAX {
            first == 0
        } else {
            first % (span + 1) == 0
        }
    }

    /// The addresses of the block in rising order; nothing where the block
    /// is not well formed or holds more addresses than a vector can.
    pub fn expand(&self) -> (hosts: Option<Vec<Host>>)
        ensures
            hosts is Some <==> self.wf() && self.size() <= usize::MAX,
            hosts matches Some(list) ==> list@ == self.hosts(),
    {
        if !self.is_well_formed() {
            return None;
        }
        let span: u128 = match self {
            CidrBlock::V4 { bits, .. } => ones(32 - *bits),
            CidrBlock::V6 { bits, .. } => ones(128 - *bits),
        };
        if span >= usize::MAX as u128 {
            return None;
        }
        proof {
            lemma_pow2_widths();
            lemma_block_fits(self.lowest(), (self.width() - self.shared_bits()) as nat, self.width());
        }
        let count: usize = span as usize + 1;
        let mut hosts: Vec<Host> = Vec::new();
        let mut i: usize = 0;
        while i < count
            invariant
                i <= count,
                count == self.size(),
                self.lowest() + self.size() <= pow2(self.width()),
                pow2(32) == 0x1_0000_0000,
                pow2(128) == 0x1_0000_0000_0000_0000_0000_0000_0000_0000,
                hosts@ == Seq::new(i as nat, |j: int| self.host_at(j)),
            decreases count - i,
        {
            let host = match self {
                CidrBlock::V4 { first, .. } => Host::V4(*first + i as u32),
                CidrBlock::V6 { first, .. } => Host::V6(*first + i as u128),
            };
            hosts.push(host);
            i = i + 1;
        }
        Some(hosts)
    }
}

/// The number whose lowest `free` bits are set and no others.
fn ones(free: u8) -> (span: u128)
    requires
        free <= 128,
    ensures
        span == pow2(free as nat) - 1,
{
    let mut span: u128 = 0;
    let mut k: u8 = 0;
    proof {
        lemma2_to64();
    }
    while k < free
        invariant
            k <= free <= 128,
            span == pow2(k as nat) - 1,
        decreases free - k,
    {
        proof {
            lemma_pow2_unfold((k + 1) as nat);
            if k < 127 {
                lemma_pow2_strictly_increases((k + 1) as nat, 128);
            }
            lemma_pow2_widths();
        }
        span = span * 2 + 1;
        k = k + 1;
    }
    span
}

/// The sizes of the two address spaces.
proof fn lemma_pow2_widths()
    ensures
        pow2(32) == 0x1_0000_0000,
        pow2(64) == 0x1_0000_0000_0000_0000,
        pow2(128) == 0x1_0000_0000_0000_0000_0000_0000_0000_0000,
{
    lemma2_to64();
    lemma_pow2_adds(64, 64);
    assert(0x1_0000_0000_0000_0000int * 0x1_0000_0000_0000_0000int
        == 0x1_0000_0000_0000_0000_0000_0000_0000_0000int) by (nonlinear_arith);
}

/// A block that starts at a multiple of its size ends inside the address
/// space.
proof fn lemma_block_fits(first: nat, free: nat, width: nat)
    requires
        free <= width,
        first < pow2(width),
        first % pow2(free) == 0,
    ensures
        first + pow2(free) <= pow2(width),
{
    let p = pow2(free) as int;
    let q = pow2((width - free) as nat) as int;
    let d = first as int / p;
    lemma_pow2_adds(free, (width - free) as nat);
    vstd::arithmetic::power2::lemma_pow2_pos(free);
    assert(first == p * d) by {
        vstd::arithmetic::div_mod::lemma_fundamental_div_mod(first as int, p);
    }
    assert(d < q) by (nonlinear_arith)
        requires
            p > 0,
            p * d < p * q,
    ;
    assert(p * d + p <= p * q) by (nonlinear_arith)
        requires
            p > 0,
            d + 1 <= q,
    ;
}

/// A block that shares all bits of an address holds that address alone.
pub proof fn lemma_single_address(block: CidrBlock)
    requires
        block.shared_bits() == block.width(),
    ensures
        block.wf(),
        block.size() == 1,
        block.hosts() == seq![block.host_at(0)],
        block.host_at(0) == match block {
            CidrBlock::V4 { first, .. } => Host::V4(first),
            CidrBlock::V6 { first, .. } => Host::V6(first),
        },
{
    lemma2_to64();
    assert(block.hosts() =~= seq![block.host_at(0)]);
}

/// The block that a text stands for: an address, which is the block of
/// itself alone; an address or the first parts of one, with a number of bits
/// or a mask behind a stroke; the first parts of a version 4 address alone,
/// as in `10` for `10.0.0.0/8`. Nothing for any other text.
pub uninterp spec fn cidr_block_of(text: Seq<char>) -> Option<CidrBlock>;

/// Calls `cidr_utils::cidr::IpCidr::from_str` and reads the block's lowest
/// address and its number of shared bits with `first` and `get_bits`. The
/// block is named `cidr_block_of`; it is claimed to be well formed, since the
/// crate clears the bits of the prefix that its mask does not cover.
#[verifier::external_body]
fn parse_cidr(text: &str) -> (block: Option<CidrBlock>)
    ensures
        block == cidr_block_of(text@),
        block matches Some(b) ==> b.wf(),
{
    match IpCidr::from_str(text) {
        Ok(IpCidr::V4(cidr)) => Some(CidrBlock::V4 { first: cidr.first(), bits: cidr.get_bits() }),
        Ok(IpCidr::V6(cidr)) => Some(CidrBlock::V6 { first: cidr.first(), bits: cidr.get_bits() }),
        Err(_) => None,
    }
}

/// The addresses that a literal stands for: those of its block, where the
/// text is one in CIDR notation and the block is not too large to hold.
pub open spec fn literal_hosts(text: Seq<char>) -> Option<Seq<Host>> {
    match cidr_block_of(text) {
        Some(block) => if block.size() <= usize::MAX {
            Some(block.hosts())
        } else {
            None
        },
        None => None,
    }
}

/// Reads an address or a block in CIDR notation and lists its addresses.
pub fn parse_literal(text: &str) -> (hosts: Option<Vec<Host>>)
    ensures
        hosts is Some <==> literal_hosts(text@) is Some,
        hosts matches Some(v) ==> literal_hosts(text@) == Some(v@),
{
    match parse_cidr(text) {
        Some(block) => block.expand(),
        None => None,
    }
}

} // verus!
