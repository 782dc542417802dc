//! Address and network types: an IP address of either family carried
//! as a plain integer, and a CIDR as an address plus a prefix length.

use vstd::prelude::*;

use crate::bits::{fits, is_prefix_bits, prefix_eq};

verus! {

/// An IP address: a 32-bit value for IPv4, a 128-bit value for IPv6.
#[derive(Debug, Clone, Copy, PartialEq, Eq, Structural)]
pub enum IpAddress {
    V4(u32),
    V6(u128),
}

/// A network range: an address together with a prefix length.  The
/// address may carry host bits; `network_bits` masks them away.
#[derive(Debug, Clone, Copy, PartialEq, Eq, Structural)]
pub struct Cidr {
    pub addr: IpAddress,
    pub prefix: u8,
}

impl IpAddress {
    /// The width of the family's address space in bits.
    pub open spec fn spec_total_bits(self) -> int {
        match self {
            IpAddress::V4(_) => 32,
            IpAddress::V6(_) => 128,
        }
    }

    /// The address value widened into the common 128-bit carrier.
    pub open spec fn spec_carrier(self) -> u128 {
        match self {
            IpAddress::V4(x) => x as u128,
            IpAddress::V6(x) => x,
        }
    }

    pub open spec fn spec_is_v4(self) -> bool {
        self is V4
    }

    /// The prefix length that denotes an exact address of this family.
    pub fn max_prefix_len(&self) -> (r: u8)
        ensures
            r as int == self.spec_total_bits(),
    {
        match self {
            IpAddress::V4(_) => 32,
            IpAddress::V6(_) => 128,
        }
    }

    /// The address value widened into the common 128-bit carrier.
    pub fn carrier(&self) -> (r: u128)
        ensures
            r == self.spec_carrier(),
            fits(r, self.spec_total_bits()),
    {
        match self {
            IpAddress::V4(x) => {
                let r = *x as u128;
                proof {
                    lemma_u32_carrier_fits(*x);
                }
                r
            },
            IpAddress::V6(x) => *x,
        }
    }
}

/// A `u32` widened to `u128` occupies only the low 32 bits.
pub proof fn lemma_u32_carrier_fits(x: u32)
    ensures
        fits(x as u128, 32),
{
    let c = x as u128;
    assert(c < 0x1_0000_0000 ==> c >> 32u128 == 0) by (bit_vector);
}

/// Every address value fits its family's address space.
pub open spec fn spec_addr_fits(a: IpAddress) -> bool {
    fits(a.spec_carrier(), a.spec_total_bits())
}

pub proof fn lemma_addr_fits(a: IpAddress)
    ensures
        spec_addr_fits(a),
{
    match a {
        IpAddress::V4(x) => lemma_u32_carrier_fits(x),
        IpAddress::V6(_) => {},
    }
}

impl Cidr {
    /// A structurally valid CIDR: the prefix length does not exceed
    /// the family's bit width.
    pub open spec fn spec_wf(self) -> bool {
        0 <= self.prefix as int <= self.addr.spec_total_bits()
    }

    /// A canonical CIDR: well formed and with all host bits zero.
    pub open spec fn spec_canonical(self) -> bool {
        self.spec_wf() && is_prefix_bits(
            self.addr.spec_carrier(),
            self.prefix as int,
            self.addr.spec_total_bits(),
        )
    }

    /// This CIDR covers `a`: same family, and the network prefix is a
    /// prefix of the address's bits.
    pub open spec fn spec_covers(self, a: IpAddress) -> bool {
        self.addr.spec_is_v4() == a.spec_is_v4() && prefix_eq(
            self.addr.spec_carrier(),
            a.spec_carrier(),
            self.prefix as int,
            a.spec_total_bits(),
        )
    }

    /// The canonical form of this CIDR: the same range with the host
    /// bits of the address cleared.
    pub open spec fn spec_network(self) -> Cidr {
        Cidr {
            addr: match self.addr {
                IpAddress::V4(_) => IpAddress::V4(
                    crate::bits::spec_mask_value(self.addr.spec_carrier(), self.prefix as int, 32)
                        as u32,
                ),
                IpAddress::V6(_) => IpAddress::V6(
                    crate::bits::spec_mask_value(self.addr.spec_carrier(), self.prefix as int, 128),
                ),
            },
            prefix: self.prefix,
        }
    }

    /// Compute the canonical form: clear the host bits.
    pub fn network(&self) -> (r: Cidr)
        requires
            self.spec_wf(),
        ensures
            r == self.spec_network(),
            r.spec_canonical(),
            r.prefix == self.prefix,
            r.addr.spec_is_v4() == self.addr.spec_is_v4(),
            prefix_eq(
                r.addr.spec_carrier(),
                self.addr.spec_carrier(),
                self.prefix as int,
                self.addr.spec_total_bits(),
            ),
    {
        proof {
            lemma_addr_fits(self.addr);
        }
        match self.addr {
            IpAddress::V4(x) => {
                let masked = crate::bits::mask_prefix(x as u128, self.prefix, 32);
                proof {
                    crate::bits::lemma_mask_value(x as u128, self.prefix as int, 32);
                    assert(masked >> 32u128 == 0 ==> masked < 0x1_0000_0000) by (bit_vector);
                    lemma_u32_carrier_fits(masked as u32);
                    assert(masked as u32 as u128 == masked) by (bit_vector)
                        requires
                            masked < 0x1_0000_0000,
                    ;
                }
                Cidr { addr: IpAddress::V4(masked as u32), prefix: self.prefix }
            },
            IpAddress::V6(x) => {
                let masked = crate::bits::mask_prefix(x, self.prefix, 128);
                proof {
                    crate::bits::lemma_mask_value(x, self.prefix as int, 128);
                }
                Cidr { addr: IpAddress::V6(masked), prefix: self.prefix }
            },
        }
    }
}

} // verus!
