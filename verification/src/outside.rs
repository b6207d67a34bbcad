use vstd::prelude::*;

use rand::seq::SliceRandom;
use rand::Rng;

use crate::address::{IpAddress, IpNet};

verus! {

/// What `ipnetwork::IpNetwork::from_str` gives for a text: `None` where it
/// fails, else the family (`true` for IPv6), the address as a number and the
/// prefix length.
pub uninterp spec fn ip_network_parse(s: Seq<char>) -> Option<(bool, u128, u8)>;

/// What `core::net::IpAddr::from_str` gives for a text: `None` where it fails,
/// else the family (`true` for IPv6) and the address as a number.
pub uninterp spec fn ip_addr_parse(s: Seq<char>) -> Option<(bool, u128)>;

/// The characters of the text that `core::net::Ipv6Addr` displays for the
/// address with the given numeric value.
pub uninterp spec fn ipv6_text(v: u128) -> Seq<char>;

/// What `url::Url::parse` followed by `Url::host_str` gives for a text:
/// `None` where the parse fails, else the host, where the URL has one.
pub uninterp spec fn url_host_of(s: Seq<char>) -> Option<Option<Seq<char>>>;

/// The text that `String::from_utf8_lossy` makes of a byte string.
pub uninterp spec fn utf8_lossy_text(b: Seq<u8>) -> Seq<char>;

/// The network value that a parse result stands for.
pub open spec fn parsed_net(t: Option<(bool, u128, u8)>) -> Option<IpNet> {
    match t {
        Some((is_v6, addr, prefix)) => Some(IpNet { is_v6, addr, prefix }),
        None => None,
    }
}

/// The address value that a parse result stands for.
pub open spec fn parsed_addr(t: Option<(bool, u128)>) -> Option<IpAddress> {
    match t {
        Some((is_v6, value)) => Some(IpAddress { is_v6, value }),
        None => None,
    }
}

/// `ipnetwork::IpNetwork::from_str`, with the network it returns read out as
/// its address (`ip()`) and prefix (`prefix()`). Claimed: the result is the
/// named parse of the text; a network it returns has a prefix no longer than
/// its family's width (its constructor `new` refuses longer ones); and a
/// text without `/` gets the full width as prefix (`cidr_parts` gives no
/// prefix text, and the width is taken).
#[verifier::external_body]
pub(crate) fn parse_ip_network(s: &str) -> (r: Option<IpNet>)
    ensures
        r == parsed_net(ip_network_parse(s@)),
        r matches Some(n) ==> n.wf(),
        r matches Some(n) ==> (!s@.contains('/') ==> n.prefix == n.width()),
{
    match s.parse::<ipnetwork::IpNetwork>() {
        Ok(ipnetwork::IpNetwork::V4(n)) => Some(
            IpNet { is_v6: false, addr: u32::from(n.ip()) as u128, prefix: n.prefix() },
        ),
        Ok(ipnetwork::IpNetwork::V6(n)) => Some(
            IpNet { is_v6: true, addr: u128::from(n.ip()), prefix: n.prefix() },
        ),
        Err(_) => None,
    }
}

/// `core::net::IpAddr::from_str`, with the address read out as a number.
/// Claimed: the result is the named parse of the text; an IPv4 address fits
/// in 32 bits.
#[verifier::external_body]
pub(crate) fn parse_ip_addr(s: &str) -> (r: Option<IpAddress>)
    ensures
        r == parsed_addr(ip_addr_parse(s@)),
        r matches Some(a) ==> a.wf(),
{
    match s.parse::<core::net::IpAddr>() {
        Ok(core::net::IpAddr::V4(a)) => Some(IpAddress { is_v6: false, value: u32::from(a) as u128 }),
        Ok(core::net::IpAddr::V6(a)) => Some(IpAddress { is_v6: true, value: u128::from(a) }),
        Err(_) => None,
    }
}

/// `Display` of `core::net::Ipv6Addr::from(v)`: the text std writes for an
/// IPv6 address (the RFC 5952 form). Claimed: the result is `ipv6_text(v)`,
/// a function of `v`; and `IpAddr::from_str` reads that text back as the
/// IPv6 address `v` (the text holds a colon, so it is no IPv4 address, and
/// the IPv6 parser accepts every RFC 5952 form, an embedded IPv4 tail too).
#[verifier::external_body]
pub(crate) fn ipv6_to_string(v: u128) -> (s: String)
    ensures
        s@ == ipv6_text(v),
        ip_addr_parse(s@) == Some((true, v)),
{
    core::net::Ipv6Addr::from(v).to_string()
}

/// `url::Url::parse`, with the parsed URL read out by `Url::host_str`.
/// Claimed: the result is the named function of the text.
#[verifier::external_body]
pub(crate) fn parse_url_host(s: &str) -> (r: Option<Option<String>>)
    ensures
        match r {
            None => url_host_of(s@) is None,
            Some(None) => url_host_of(s@) == Some(None::<Seq<char>>),
            Some(Some(h)) => url_host_of(s@) == Some(Some(h@)),
        },
{
    match url::Url::parse(s) {
        Ok(u) => Some(u.host_str().map(String::from)),
        Err(_) => None,
    }
}

/// `String::from_utf8_lossy`: the bytes read as UTF-8, each invalid sequence
/// replaced by U+FFFD. Claimed: the result is the named function of the bytes.
#[verifier::external_body]
pub(crate) fn decode_lossy(bytes: &[u8]) -> (s: String)
    ensures
        s@ == utf8_lossy_text(bytes@),
{
    String::from_utf8_lossy(bytes).into_owned()
}

/// `rand::Rng::gen_range` over `lo..=hi` on the thread's generator (which
/// panics where `lo > hi`). Claimed: the number lies in the range; which one
/// comes out is left open.
#[verifier::external_body]
pub(crate) fn random_in(lo: u128, hi: u128) -> (r: u128)
    requires
        lo <= hi,
    ensures
        lo <= r <= hi,
{
    rand::thread_rng().gen_range(lo..=hi)
}

/// `rand::seq::SliceRandom::shuffle` on the thread's generator. Claimed: the
/// result is a rearrangement of the strings; their order is left open.
#[verifier::external_body]
pub(crate) fn shuffle_strings(v: &mut Vec<String>)
    ensures
        final(v)@.len() == old(v)@.len(),
        final(v)@.map_values(|s: String| s@).to_multiset() == old(v)@.map_values(
            |s: String| s@,
        ).to_multiset(),
{
    v.shuffle(&mut rand::thread_rng());
}

/// `String::push`: appends one character.
#[verifier::external_body]
pub(crate) fn push_char(s: &mut String, c: char)
    ensures
        final(s)@ == old(s)@.push(c),
{
    s.push(c);
}

} // verus!
