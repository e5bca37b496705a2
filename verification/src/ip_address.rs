//! IP addresses as plain numbers: four octets, or eight 16-bit groups.

use vstd::prelude::*;

use crate::helper::{be_u16, compose_u16};

verus! {

/// An IPv4 or IPv6 address.
#[derive(Debug, Clone, Copy, PartialEq, Eq, Hash, Structural)]
pub enum IpAddress {
    /// The four octets, first to last.
    V4(u8, u8, u8, u8),
    /// The eight groups, first to last.
    V6(u16, u16, u16, u16, u16, u16, u16, u16),
}

/// The octet at `i`, or zero where `octets` ends before it.
pub open spec fn octet_or_zero(octets: Seq<u8>, i: int) -> u8 {
    if 0 <= i < octets.len() {
        octets[i]
    } else {
        0
    }
}

/// The 16-bit group made of the octets at `2 * i` and `2 * i + 1`.
pub open spec fn group_or_zero(octets: Seq<u8>, i: int) -> u16 {
    be_u16(octet_or_zero(octets, 2 * i), octet_or_zero(octets, 2 * i + 1))
}

/// The address whose leading octets are `octets`, filled up with zero
/// octets to the full width of its family. Octets beyond that width do not
/// count.
pub open spec fn address_of_octets(octets: Seq<u8>, is_ipv4: bool) -> IpAddress {
    if is_ipv4 {
        IpAddress::V4(
            octet_or_zero(octets, 0),
            octet_or_zero(octets, 1),
            octet_or_zero(octets, 2),
            octet_or_zero(octets, 3),
        )
    } else {
        IpAddress::V6(
            group_or_zero(octets, 0),
            group_or_zero(octets, 1),
            group_or_zero(octets, 2),
            group_or_zero(octets, 3),
            group_or_zero(octets, 4),
            group_or_zero(octets, 5),
            group_or_zero(octets, 6),
            group_or_zero(octets, 7),
        )
    }
}

fn octet(octets: &[u8], i: usize) -> (r: u8)
    ensures
        r == octet_or_zero(octets@, i as int),
{
    if i < octets.len() {
        octets[i]
    } else {
        0
    }
}

fn group(octets: &[u8], i: usize) -> (r: u16)
    requires
        i < 8,
    ensures
        r == group_or_zero(octets@, i as int),
{
    compose_u16(octet(octets, 2 * i), octet(octets, 2 * i + 1))
}

impl IpAddress {
    /// Builds an address from its leading octets.
    pub fn from_octets(octets: &[u8], is_ipv4: bool) -> (ip: IpAddress)
        ensures
            ip == address_of_octets(octets@, is_ipv4),
    {
        if is_ipv4 {
            IpAddress::V4(octet(octets, 0), octet(octets, 1), octet(octets, 2), octet(octets, 3))
        } else {
            IpAddress::V6(
                group(octets, 0),
                group(octets, 1),
                group(octets, 2),
                group(octets, 3),
                group(octets, 4),
                group(octets, 5),
                group(octets, 6),
                group(octets, 7),
            )
        }
    }
}

} // verus!
