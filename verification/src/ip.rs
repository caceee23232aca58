use vstd::prelude::*;

verus! {

/// An IP address of either family, held as the unsigned integer that its
/// bytes spell in network order.
///
/// Addresses of both families share one total order: every IPv4 address
/// comes before every IPv6 address, and within a family the order is that of
/// the integers. The derived `Ord` is this order; verified code compares
/// through [`IpAddress::le`] and [`IpAddress::lt`], whose contracts state it
/// over [`IpAddress::rank`].
#[derive(Clone, Copy, Debug, PartialEq, Eq, Structural, PartialOrd, Ord, Hash)]
pub enum IpAddress {
    V4(u32),
    V6(u128),
}

impl IpAddress {
    /// Number of bits in an address of this family.
    pub open spec fn width(self) -> nat {
        match self {
            IpAddress::V4(_) => 32,
            IpAddress::V6(_) => 128,
        }
    }

    /// The address as a natural number.
    pub open spec fn value(self) -> nat {
        match self {
            IpAddress::V4(a) => a as nat,
            IpAddress::V6(a) => a as nat,
        }
    }

    /// The largest value an address of this family can take.
    pub open spec fn max_value(self) -> nat {
        match self {
            IpAddress::V4(_) => 0xffff_ffff,
            IpAddress::V6(_) => 0xffff_ffff_ffff_ffff_ffff_ffff_ffff_ffff,
        }
    }

    /// Position of the address in the order shared by both families.
    pub open spec fn rank(self) -> int {
        match self {
            IpAddress::V4(a) => a as int,
            IpAddress::V6(a) => 0x1_0000_0000 + a as int,
        }
    }

    /// Whether both addresses belong to one family.
    pub open spec fn same_family(self, other: IpAddress) -> bool {
        (self is V4) == (other is V4)
    }

    /// The address of the family of `self` whose value is `value`.
    pub open spec fn with_value(self, value: nat) -> IpAddress {
        match self {
            IpAddress::V4(_) => IpAddress::V4(value as u32),
            IpAddress::V6(_) => IpAddress::V6(value as u128),
        }
    }

    pub fn is_ipv4(&self) -> (r: bool)
        ensures
            r == (*self is V4),
    {
        match self {
            IpAddress::V4(_) => true,
            IpAddress::V6(_) => false,
        }
    }

    pub fn is_ipv6(&self) -> (r: bool)
        ensures
            r == (*self is V6),
    {
        match self {
            IpAddress::V4(_) => false,
            IpAddress::V6(_) => true,
        }
    }

    /// `self <= other` in the order shared by both families.
    pub fn le(&self, other: &IpAddress) -> (r: bool)
        ensures
            r == (self.rank() <= other.rank()),
    {
        match (self, other) {
            (IpAddress::V4(a), IpAddress::V4(b)) => *a <= *b,
            (IpAddress::V4(_), IpAddress::V6(_)) => true,
            (IpAddress::V6(_), IpAddress::V4(_)) => false,
            (IpAddress::V6(a), IpAddress::V6(b)) => *a <= *b,
        }
    }

    /// `self < other` in the order shared by both families.
    pub fn lt(&self, other: &IpAddress) -> (r: bool)
        ensures
            r == (self.rank() < other.rank()),
    {
        match (self, other) {
            (IpAddress::V4(a), IpAddress::V4(b)) => *a < *b,
            (IpAddress::V4(_), IpAddress::V6(_)) => true,
            (IpAddress::V6(_), IpAddress::V4(_)) => false,
            (IpAddress::V6(a), IpAddress::V6(b)) => *a < *b,
        }
    }
}

/// Two addresses with one rank are one address: the order is total and
/// strict on distinct addresses.
pub proof fn lemma_rank_injective(a: IpAddress, b: IpAddress)
    requires
        a.rank() == b.rank(),
    ensures
        a == b,
{
}

} // verus!
