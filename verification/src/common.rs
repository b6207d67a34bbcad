use vstd::prelude::*;

use core::cmp::Ordering;

use crate::address::IpAddress;
use crate::outside::{ip_addr_parse, parse_ip_addr, parsed_addr};

verus! {

broadcast use vstd::string::group_string_axioms;

/// The order of two addresses: every IPv4 address before every IPv6 one,
/// then by numeric value.
pub open spec fn address_order(x: IpAddress, y: IpAddress) -> Ordering {
    if x.is_v6 != y.is_v6 {
        if !x.is_v6 {
            Ordering::Less
        } else {
            Ordering::Greater
        }
    } else if x.value < y.value {
        Ordering::Less
    } else if x.value == y.value {
        Ordering::Equal
    } else {
        Ordering::Greater
    }
}

/// The order of two entries: addresses in address order, before every entry
/// that is no address; entries that are no address are all equal.
pub open spec fn host_order(a: Seq<char>, b: Seq<char>) -> Ordering {
    match (parsed_addr(ip_addr_parse(a)), parsed_addr(ip_addr_parse(b))) {
        (Some(x), Some(y)) => address_order(x, y),
        (Some(_), None) => Ordering::Less,
        (None, Some(_)) => Ordering::Greater,
        (None, None) => Ordering::Equal,
    }
}

/// The reverse of an ordering.
pub open spec fn flipped(o: Ordering) -> Ordering {
    match o {
        Ordering::Less => Ordering::Greater,
        Ordering::Equal => Ordering::Equal,
        Ordering::Greater => Ordering::Less,
    }
}

fn compare_addresses(x: IpAddress, y: IpAddress) -> (r: Ordering)
    ensures
        r == address_order(x, y),
{
    if x.is_v6 != y.is_v6 {
        if !x.is_v6 {
            Ordering::Less
        } else {
            Ordering::Greater
        }
    } else if x.value < y.value {
        Ordering::Less
    } else if x.value == y.value {
        Ordering::Equal
    } else {
        Ordering::Greater
    }
}

/// Orders IPv4 addresses, IPv6 addresses and host names for sorting (see
/// `host_order`).
pub fn sort_ips_and_hosts(ip1: &String, ip2: &String) -> (r: Ordering)
    ensures
        r == host_order(ip1@, ip2@),
{
    match (parse_ip_addr(ip1.as_str()), parse_ip_addr(ip2.as_str())) {
        (Some(x), Some(y)) => compare_addresses(x, y),
        (Some(_), None) => Ordering::Less,
        (None, Some(_)) => Ordering::Greater,
        (None, None) => Ordering::Equal,
    }
}

/// Swapping the entries reverses their order.
pub proof fn lemma_host_order_antisymmetric(a: Seq<char>, b: Seq<char>)
    ensures
        host_order(a, b) == flipped(host_order(b, a)),
{
}

/// Every entry is equal to itself.
pub proof fn lemma_host_order_reflexive(a: Seq<char>)
    ensures
        host_order(a, a) == Ordering::Equal,
{
}

/// The order is transitive: `a` not after `b` and `b` not after `c` puts `a`
/// not after `c`, and strictly before it where either step is strict.
pub proof fn lemma_host_order_transitive(a: Seq<char>, b: Seq<char>, c: Seq<char>)
    requires
        host_order(a, b) != Ordering::Greater,
        host_order(b, c) != Ordering::Greater,
    ensures
        host_order(a, c) != Ordering::Greater,
        host_order(a, b) == Ordering::Less || host_order(b, c) == Ordering::Less ==> host_order(a, c)
            == Ordering::Less,
{
}

/// Two addresses compare by family first, every IPv4 address before every
/// IPv6 one, and within a family by numeric value: the first is before the
/// second exactly when its value is smaller, and they are equal exactly when
/// they are the same address.
pub proof fn lemma_host_order_of_addresses(
    a: Seq<char>,
    b: Seq<char>,
    fa: bool,
    va: u128,
    fb: bool,
    vb: u128,
)
    requires
        ip_addr_parse(a) == Some((fa, va)),
        ip_addr_parse(b) == Some((fb, vb)),
    ensures
        host_order(a, b) == Ordering::Less <==> (!fa && fb) || (fa == fb && va < vb),
        host_order(a, b) == Ordering::Equal <==> fa == fb && va == vb,
        host_order(a, b) == Ordering::Greater <==> (fa && !fb) || (fa == fb && va > vb),
{
}

/// An address comes before every entry that is no address, and two entries
/// that are no address are equal.
pub proof fn lemma_host_order_of_names(a: Seq<char>, b: Seq<char>)
    ensures
        ip_addr_parse(a) is Some && ip_addr_parse(b) is None ==> host_order(a, b) == Ordering::Less,
        ip_addr_parse(a) is None && ip_addr_parse(b) is Some ==> host_order(a, b)
            == Ordering::Greater,
        ip_addr_parse(a) is None && ip_addr_parse(b) is None ==> host_order(a, b)
            == Ordering::Equal,
{
}

/// The unit in which a running time is reported.
#[derive(Clone, Copy, Debug, PartialEq, Eq, Structural)]
pub enum DurationUnit {
    Seconds,
    Milliseconds,
    Microseconds,
    Nanoseconds,
}

/// The largest unit of which a running time of `nanos` nanoseconds holds at
/// least one whole.
pub open spec fn unit_of(nanos: u128) -> DurationUnit {
    if nanos >= 1_000_000_000 {
        DurationUnit::Seconds
    } else if nanos >= 1_000_000 {
        DurationUnit::Milliseconds
    } else if nanos >= 1_000 {
        DurationUnit::Microseconds
    } else {
        DurationUnit::Nanoseconds
    }
}

/// The unit in which a running time of `nanos` nanoseconds is reported (see
/// `unit_of`).
pub fn duration_unit(nanos: u128) -> (u: DurationUnit)
    ensures
        u == unit_of(nanos),
{
    if nanos >= 1_000_000_000 {
        DurationUnit::Seconds
    } else if nanos >= 1_000_000 {
        DurationUnit::Milliseconds
    } else if nanos >= 1_000 {
        DurationUnit::Microseconds
    } else {
        DurationUnit::Nanoseconds
    }
}

/// A running time of `nanos` nanoseconds as a whole number of its unit (see
/// `unit_of`), the remainder dropped.
pub fn whole_units(nanos: u128) -> (n: u128)
    ensures
        n == nanos / unit_of(nanos).nanos_per_unit(),
{
    nanos / duration_unit(nanos).nanos()
}

/// A running time is reported in the largest of seconds, milliseconds,
/// microseconds and nanoseconds of which it holds at least one whole (in
/// nanoseconds when it is empty), under that unit's name.
pub proof fn lemma_unit_of(nanos: u128)
    ensures
        ({
            let u = unit_of(nanos).nanos_per_unit();
            &&& u == 1 || u == 1_000 || u == 1_000_000 || u == 1_000_000_000
            &&& nanos == 0 || u <= nanos
            &&& u == 1_000_000_000 || nanos < 1000 * u
        }),
        unit_of(nanos).name() == (if unit_of(nanos).nanos_per_unit() == 1_000_000_000 {
            "秒"@
        } else if unit_of(nanos).nanos_per_unit() == 1_000_000 {
            "毫秒"@
        } else if unit_of(nanos).nanos_per_unit() == 1_000 {
            "微秒"@
        } else {
            "纳秒"@
        }),
{
}

impl DurationUnit {
    /// The name of the unit in the report.
    pub open spec fn name(self) -> Seq<char> {
        match self {
            DurationUnit::Seconds => "秒"@,
            DurationUnit::Milliseconds => "毫秒"@,
            DurationUnit::Microseconds => "微秒"@,
            DurationUnit::Nanoseconds => "纳秒"@,
        }
    }

    /// How many nanoseconds one of the unit holds.
    pub open spec fn nanos_per_unit(self) -> u128 {
        match self {
            DurationUnit::Seconds => 1_000_000_000,
            DurationUnit::Milliseconds => 1_000_000,
            DurationUnit::Microseconds => 1_000,
            DurationUnit::Nanoseconds => 1,
        }
    }

    /// The name of the unit in the report.
    pub fn label(&self) -> (s: &'static str)
        ensures
            s@ == self.name(),
    {
        match self {
            DurationUnit::Seconds => "秒",
            DurationUnit::Milliseconds => "毫秒",
            DurationUnit::Microseconds => "微秒",
            DurationUnit::Nanoseconds => "纳秒",
        }
    }

    /// How many nanoseconds one of the unit holds.
    pub fn nanos(&self) -> (n: u128)
        ensures
            n == self.nanos_per_unit(),
    {
        match self {
            DurationUnit::Seconds => 1_000_000_000,
            DurationUnit::Milliseconds => 1_000_000,
            DurationUnit::Microseconds => 1_000,
            DurationUnit::Nanoseconds => 1,
        }
    }
}

} // verus!
