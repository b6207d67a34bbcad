use vstd::prelude::*;

use crate::address::{
    address_text, host_mask_of, ipv4_to_string, lemma_full_prefix, lemma_host_in_network,
    lemma_hosts_distinct, lemma_ipv4_text_injective, lemma_low_mask_bounds, network_of, IpNet,
};
use crate::outside::{
    ip_addr_parse, ip_network_parse, ipv6_text, ipv6_to_string, parse_ip_addr, parse_ip_network,
    parsed_addr, parsed_net, random_in, shuffle_strings,
};

verus! {

broadcast use {vstd::seq_lib::group_seq_properties, Seq::lemma_flatten_push, vstd::string::group_string_axioms};

/// The characters of each string.
pub open spec fn texts(v: Seq<String>) -> Seq<Seq<char>> {
    v.map_values(|s: String| s@)
}

/// `out` lists, in order, the texts of the addresses `vals` of `net`: no two
/// addresses alike, and no two texts alike.
pub open spec fn lists_addresses(net: IpNet, vals: Seq<u128>, out: Seq<Seq<char>>) -> bool {
    &&& vals.len() == out.len()
    &&& forall|i: int|
        0 <= i < vals.len() ==> net.contains(#[trigger] vals[i]) && out[i] == address_text(
            net.is_v6,
            vals[i],
        )
    &&& forall|i: int, j: int| 0 <= i < j < vals.len() ==> vals[i] != vals[j]
    &&& forall|i: int, j: int| 0 <= i < j < out.len() ==> out[i] != out[j]
}

/// `out` is the text of distinct addresses of `net`.
pub open spec fn distinct_addresses(net: IpNet, out: Seq<Seq<char>>) -> bool {
    exists|vals: Seq<u128>| #[trigger] lists_addresses(net, vals, out)
}

/// Picking `count` distinct addresses of a network terminates: an IPv6
/// network with a prefix below 119 must hold `count` addresses.
pub open spec fn sample_ok(net: IpNet, count: usize) -> bool {
    &&& net.wf()
    &&& net.is_v6 && net.prefix < 119 ==> count <= net.host_mask() + 1
}

/// How many addresses a sample of `count` gives: an IPv4 network gives at
/// most all of its addresses.
pub open spec fn sample_size(net: IpNet, count: usize) -> int {
    if !net.is_v6 && count > net.host_mask() + 1 {
        net.host_mask() + 1
    } else {
        count as int
    }
}

/// Every address of an IPv6 network, lowest first.
pub open spec fn every_address(net: IpNet) -> Seq<Seq<char>> {
    Seq::new((net.host_mask() + 1) as nat, |i: int| ipv6_text(net.host(i as u128)))
}

/// What a sample of `count` from `net` may give: every address of a small
/// IPv6 network in order, else `sample_size` distinct addresses.
pub open spec fn sample_outcome(net: IpNet, count: usize, out: Seq<Seq<char>>) -> bool {
    if net.is_v6 && net.prefix >= 119 {
        out == every_address(net)
    } else {
        out.len() == sample_size(net, count) && distinct_addresses(net, out)
    }
}

/// The text an entry stands for when it is no network: the canonical text
/// of an address, else the entry itself (a host name).
pub open spec fn plain_text(entry: Seq<char>) -> Seq<char> {
    match parsed_addr(ip_addr_parse(entry)) {
        Some(a) => address_text(a.is_v6, a.value),
        None => entry,
    }
}

/// What expanding an entry into one address may give.
pub open spec fn single_entry_outcome(entry: Seq<char>, out: Seq<Seq<char>>) -> bool {
    match parsed_net(ip_network_parse(entry)) {
        Some(net) => out.len() == 1 && distinct_addresses(net, out),
        None => out == seq![plain_text(entry)],
    }
}

/// Expanding an entry into `count` addresses is defined (see `sample_ok`).
pub open spec fn sampled_entry_ok(entry: Seq<char>, count: usize) -> bool {
    match parsed_net(ip_network_parse(entry)) {
        Some(net) => sample_ok(net, count),
        None => true,
    }
}

/// What expanding an entry into `count` addresses may give.
pub open spec fn sampled_entry_outcome(entry: Seq<char>, count: usize, out: Seq<Seq<char>>) -> bool {
    match parsed_net(ip_network_parse(entry)) {
        Some(net) => sample_outcome(net, count, out),
        None => out == seq![plain_text(entry)],
    }
}

/// An entry expands without fault: picking one address always does, a
/// sample of `count` where `sampled_entry_ok` allows it.
pub open spec fn entry_ok(entry: Seq<char>, count: usize) -> bool {
    count > 1 ==> sampled_entry_ok(entry, count)
}

/// What expanding an entry gives: one address where `count` is at most 1,
/// else a sample of `count`.
pub open spec fn entry_outcome(entry: Seq<char>, count: usize, out: Seq<Seq<char>>) -> bool {
    if count > 1 {
        sampled_entry_outcome(entry, count, out)
    } else {
        single_entry_outcome(entry, out)
    }
}

/// The text of an address of the given family.
pub fn address_string(is_v6: bool, v: u128) -> (s: String)
    requires
        !is_v6 ==> v <= u32::MAX,
    ensures
        s@ == address_text(is_v6, v),
        is_v6 ==> ip_addr_parse(s@) == Some((true, v)),
{
    if is_v6 {
        ipv6_to_string(v)
    } else {
        ipv4_to_string(v as u32)
    }
}

/// The text of host number `h` of the network: the network's lowest
/// address with `h` in its host bits.
pub fn host_address(net: &IpNet, h: u128) -> (s: String)
    requires
        net.wf(),
        h <= net.host_mask(),
    ensures
        s@ == address_text(net.is_v6, net.host(h)),
        net.is_v6 ==> ip_addr_parse(s@) == Some((true, net.host(h))),
{
    proof {
        lemma_host_in_network(*net, h);
    }
    address_string(net.is_v6, network_of(net) | h)
}

/// One address of the network, picked at random: the host number is drawn
/// evenly from the whole host range.
pub fn random_address(net: &IpNet) -> (s: String)
    requires
        net.wf(),
    ensures
        distinct_addresses(*net, seq![s@]),
{
    let m = host_mask_of(net);
    let h = random_in(0, m);
    let s = host_address(net, h);
    proof {
        lemma_host_in_network(*net, h);
    }
    assert(lists_addresses(*net, seq![net.host(h)], seq![s@]));
    s
}

/// `v` is the `r`-th smallest number (counting from 0) missing from the
/// increasing list `chosen`, and `p` the number of entries of `chosen` below it.
pub open spec fn is_nth_unused(chosen: Seq<u128>, r: int, v: int, p: int) -> bool {
    &&& 0 <= p <= chosen.len()
    &&& v == r + p
    &&& forall|j: int| 0 <= j < p ==> chosen[j] < v
    &&& forall|j: int| p <= j < chosen.len() ==> chosen[j] > v
}

/// The `r`-th smallest number missing from the increasing list `chosen`, and
/// where it goes into the list (see `is_nth_unused`).
fn nth_unused(chosen: &Vec<u128>, r: u128) -> (res: (u128, usize))
    requires
        forall|i: int, j: int| 0 <= i < j < chosen.len() ==> chosen@[i] < chosen@[j],
        r + chosen.len() <= u128::MAX,
    ensures
        is_nth_unused(chosen@, r as int, res.0 as int, res.1 as int),
{
    let n = chosen.len();
    let mut v = r;
    let mut p: usize = 0;
    while p < n && chosen[p] <= v
        invariant
            n == chosen.len(),
            r + n <= u128::MAX,
            p <= n,
            v == r + p,
            forall|j: int| 0 <= j < p ==> chosen@[j] < v,
        decreases n - p,
    {
        v = v + 1;
        p = p + 1;
    }
    assert forall|j: int| p <= j < n implies chosen@[j] > v by {
        assert(chosen@[p as int] > v);
        if j > p {
            assert(chosen@[p as int] < chosen@[j]);
        }
    }
    (v, p)
}

/// `k` distinct host numbers up to `max_host`, picked at random: each new one
/// is drawn evenly from those not yet drawn.
fn sample_hosts(max_host: u128, k: usize) -> (hosts: Vec<u128>)
    requires
        k <= max_host + 1,
    ensures
        hosts.len() == k,
        forall|i: int| 0 <= i < k ==> #[trigger] hosts@[i] <= max_host,
        forall|i: int, j: int| 0 <= i < j < k ==> hosts@[i] != hosts@[j],
{
    let mut chosen: Vec<u128> = Vec::new();
    let mut hosts: Vec<u128> = Vec::new();
    while hosts.len() < k
        invariant
            k <= max_host + 1,
            hosts.len() <= k,
            chosen.len() == hosts.len(),
            forall|i: int, j: int| 0 <= i < j < chosen.len() ==> chosen@[i] < chosen@[j],
            forall|i: int| 0 <= i < hosts.len() ==> chosen@.contains(#[trigger] hosts@[i]),
            forall|i: int| 0 <= i < hosts.len() ==> #[trigger] hosts@[i] <= max_host,
            forall|i: int, j: int| 0 <= i < j < hosts.len() ==> hosts@[i] != hosts@[j],
        decreases k - hosts.len(),
    {
        let n = chosen.len();
        let r = random_in(0, max_host - n as u128);
        let (v, p) = nth_unused(&chosen, r);
        assert forall|j: int| 0 <= j < n implies chosen@[j] != v by {
            if j >= p {
                assert(chosen@[j] > v);
            }
        }
        assert(!chosen@.contains(v));
        let ghost old_chosen = chosen@;
        chosen.insert(p, v);
        proof {
            old_chosen.insert_ensures(p as int, v);
            assert forall|i: int| 0 <= i < hosts.len() implies chosen@.contains(#[trigger] hosts@[i]) by {
                let j = choose|j: int| 0 <= j < old_chosen.len() && old_chosen[j] == hosts@[i];
                if j < p {
                    assert(chosen@[j] == hosts@[i]);
                } else {
                    assert(chosen@[j + 1] == hosts@[i]);
                }
            }
            assert forall|i: int, j: int| 0 <= i < j < chosen.len() implies chosen@[i] < chosen@[j] by {
                if i < p && j < p {
                } else if i < p && j == p {
                } else if i < p {
                    assert(chosen@[j] == old_chosen[j - 1]);
                } else if i == p {
                    assert(chosen@[j] == old_chosen[j - 1]);
                    if j - 1 > p {
                        assert(old_chosen[p as int] < old_chosen[j - 1]);
                    }
                } else {
                    assert(chosen@[j] == old_chosen[j - 1]);
                    assert(chosen@[i] == old_chosen[i - 1]);
                }
            }
            assert(chosen@[p as int] == v);
        }
        hosts.push(v);
    }
    hosts
}

/// `k` distinct addresses of the network, picked at random.
pub fn sample_addresses(net: &IpNet, k: usize) -> (out: Vec<String>)
    requires
        net.wf(),
        k <= net.host_mask() + 1,
    ensures
        out.len() == k,
        distinct_addresses(*net, texts(out@)),
{
    let m = host_mask_of(net);
    let hosts = sample_hosts(m, k);
    let mut out: Vec<String> = Vec::new();
    let ghost mut vals: Seq<u128> = Seq::empty();
    let mut i: usize = 0;
    while i < k
        invariant
            i <= k,
            hosts.len() == k,
            m == net.host_mask(),
            net.wf(),
            forall|a: int| 0 <= a < k ==> #[trigger] hosts@[a] <= m,
            forall|a: int, b: int| 0 <= a < b < k ==> hosts@[a] != hosts@[b],
            out.len() == i,
            vals.len() == i,
            forall|a: int| 0 <= a < i ==> #[trigger] vals[a] == net.host(hosts@[a]),
            net.is_v6 ==> forall|a: int|
                0 <= a < i ==> ip_addr_parse(#[trigger] texts(out@)[a]) == Some((true, vals[a])),
            lists_addresses(*net, vals, texts(out@)),
        decreases k - i,
    {
        let h = hosts[i];
        let s = host_address(net, h);
        let ghost v = net.host(h);
        proof {
            lemma_host_in_network(*net, h);
            assert forall|a: int| 0 <= a < i implies vals[a] != v by {
                lemma_hosts_distinct(*net, hosts@[a], h);
            }
            assert forall|a: int| 0 <= a < i implies texts(out@)[a] != s@ by {
                lemma_address_texts_differ(*net, vals[a], v, texts(out@)[a], s@);
            }
        }
        let ghost before = out@;
        out.push(s);
        proof {
            vals = vals.push(v);
            assert(texts(out@) == texts(before).push(s@));
        }
        i = i + 1;
    }
    assert(lists_addresses(*net, vals, texts(out@)));
    out
}

/// Every address of a small IPv6 network, lowest first.
pub fn every_address_of(net: &IpNet) -> (out: Vec<String>)
    requires
        net.wf(),
        net.is_v6,
        net.prefix >= 119,
    ensures
        texts(out@) == every_address(*net),
{
    proof {
        lemma_low_mask_bounds(net.host_bits());
    }
    let m = host_mask_of(net);
    let mut out: Vec<String> = Vec::new();
    let mut i: u128 = 0;
    while i <= m
        invariant
            net.wf(),
            net.is_v6,
            m == net.host_mask(),
            m <= 511,
            i <= m + 1,
            out.len() == i,
            forall|a: int| 0 <= a < i ==> #[trigger] texts(out@)[a] == ipv6_text(net.host(a as u128)),
        decreases m + 1 - i,
    {
        let s = host_address(net, i);
        let ghost before = out@;
        out.push(s);
        assert(texts(out@) == texts(before).push(s@));
        i = i + 1;
    }
    assert(texts(out@) =~= every_address(*net));
    out
}

/// A sample of `count` addresses of the network: distinct random addresses
/// (no more than the network holds, for IPv4), or every address of an IPv6
/// network with a prefix of at least 119.
pub fn sample_network(net: &IpNet, count: usize) -> (out: Vec<String>)
    requires
        sample_ok(*net, count),
    ensures
        sample_outcome(*net, count, texts(out@)),
{
    if net.is_v6 {
        if net.prefix < 119 {
            sample_addresses(net, count)
        } else {
            every_address_of(net)
        }
    } else {
        proof {
            lemma_low_mask_bounds(net.host_bits());
        }
        let m = host_mask_of(net);
        // Where `count` exceeds the host mask, the mask is below `usize::MAX`.
        let k: usize = if (count as u128) <= m {
            count
        } else {
            (m + 1) as usize
        };
        sample_addresses(net, k)
    }
}

/// The text of an entry that is no network: the canonical text of the
/// address it holds, else the entry unchanged.
pub fn plain_entry(entry: &str) -> (s: String)
    ensures
        s@ == plain_text(entry@),
{
    match parse_ip_addr(entry) {
        Some(a) => address_string(a.is_v6, a.value),
        None => entry.to_string(),
    }
}

/// Expands an entry into one address: a random address of a network in
/// CIDR notation, the canonical text of an address, or a host name as it is.
pub fn generate_ip_and_check_ip_type(ip_address: &str) -> (out: Vec<String>)
    ensures
        single_entry_outcome(ip_address@, texts(out@)),
        parsed_net(ip_network_parse(ip_address@)) matches Some(n) ==> (!ip_address@.contains('/')
            ==> texts(out@) == seq![address_text(n.is_v6, n.addr)]),
{
    match parse_ip_network(ip_address) {
        Some(net) => {
            let s = random_address(&net);
            let out = vec![s];
            assert(texts(out@) =~= seq![s@]);
            proof {
                if !ip_address@.contains('/') {
                    lemma_address_expands_to_itself(net, texts(out@));
                }
            }
            out
        },
        None => {
            let s = plain_entry(ip_address);
            let out = vec![s];
            assert(texts(out@) =~= seq![s@]);
            out
        },
    }
}

/// Expands an entry into `count` addresses: a sample of a network in CIDR
/// notation, the canonical text of an address, or a host name as it is.
pub fn generate_ip_and_check_ip_type2(ip_address: &str, count: usize) -> (out: Vec<String>)
    requires
        sampled_entry_ok(ip_address@, count),
    ensures
        sampled_entry_outcome(ip_address@, count, texts(out@)),
        parsed_net(ip_network_parse(ip_address@)) matches Some(n) ==> (!ip_address@.contains('/')
            && count >= 1 ==> texts(out@) == seq![address_text(n.is_v6, n.addr)]),
{
    match parse_ip_network(ip_address) {
        Some(net) => {
            let out = sample_network(&net, count);
            proof {
                if !ip_address@.contains('/') && count >= 1 {
                    lemma_full_prefix(net);
                    if net.is_v6 {
                        assert(texts(out@) =~= seq![address_text(net.is_v6, net.addr)]);
                    } else {
                        lemma_address_expands_to_itself(net, texts(out@));
                    }
                }
            }
            out
        },
        None => {
            let s = plain_entry(ip_address);
            let out = vec![s];
            assert(texts(out@) =~= seq![s@]);
            out
        },
    }
}

/// Whether an entry expands without fault (see `entry_ok`).
pub fn entry_expands(entry: &str, count: usize) -> (r: bool)
    ensures
        r == entry_ok(entry@, count),
{
    match parse_ip_network(entry) {
        Some(net) => {
            if count <= 1 || !net.is_v6 {
                true
            } else if net.prefix < 119 {
                let m = host_mask_of(&net);
                ((count - 1) as u128) <= m
            } else {
                true
            }
        },
        None => true,
    }
}

/// `parts` holds, for each entry, what expanding it gave: an outcome that
/// `entry_outcome` allows where the entry expands without fault, else nothing.
pub open spec fn expansions(entries: Seq<Seq<char>>, count: usize, parts: Seq<Seq<Seq<char>>>) -> bool {
    &&& parts.len() == entries.len()
    &&& forall|i: int|
        0 <= i < entries.len() ==> if entry_ok(#[trigger] entries[i], count) {
            entry_outcome(entries[i], count, parts[i])
        } else {
            parts[i] == Seq::<Seq<char>>::empty()
        }
}

/// Expands every entry (see `generate_ip_and_check_ip_type` and
/// `generate_ip_and_check_ip_type2`) and returns all results in random
/// order. An entry whose expansion would never end (an IPv6 network with a
/// prefix below 119 that holds fewer than `count` addresses) gives nothing.
/// `pool_size` is the parallelism of the expansion; the result does not
/// depend on it.
#[allow(unused_variables)]
pub fn process_ip_cidr_hosts(ip_addresses: Vec<String>, pool_size: usize, count: usize) -> (out: Vec<String>)
    ensures
        exists|parts: Seq<Seq<Seq<char>>>|
            #[trigger] expansions(texts(ip_addresses@), count, parts) && texts(out@).to_multiset()
                == parts.flatten().to_multiset(),
{
    let ghost entries = texts(ip_addresses@);
    let mut all: Vec<String> = Vec::new();
    let ghost mut parts: Seq<Seq<Seq<char>>> = Seq::empty();
    let mut i: usize = 0;
    while i < ip_addresses.len()
        invariant
            entries == texts(ip_addresses@),
            i <= ip_addresses.len(),
            parts.len() == i,
            forall|j: int|
                0 <= j < i ==> if entry_ok(#[trigger] entries[j], count) {
                    entry_outcome(entries[j], count, parts[j])
                } else {
                    parts[j] == Seq::<Seq<char>>::empty()
                },
            texts(all@) == parts.flatten(),
        decreases ip_addresses.len() - i,
    {
        let entry = ip_addresses[i].as_str();
        assert(entry@ == entries[i as int]);
        let ghost before = all@;
        if entry_expands(entry, count) {
            let mut part = if count > 1 {
                generate_ip_and_check_ip_type2(entry, count)
            } else {
                generate_ip_and_check_ip_type(entry)
            };
            let ghost p = texts(part@);
            all.append(&mut part);
            proof {
                assert(texts(all@) =~= texts(before) + p);
                parts = parts.push(p);
            }
        } else {
            proof {
                assert(texts(all@) =~= texts(before) + Seq::<Seq<char>>::empty());
                parts = parts.push(Seq::<Seq<char>>::empty());
            }
        }
        i = i + 1;
    }
    assert(expansions(entries, count, parts));
    let ghost joined = all@;
    shuffle_strings(&mut all);
    assert(texts(all@).to_multiset() == texts(joined).to_multiset());
    all
}

/// An address written without a prefix expands, one address at a time, to
/// itself: its network holds that one address.
pub proof fn lemma_address_expands_to_itself(net: IpNet, out: Seq<Seq<char>>)
    requires
        net.wf(),
        net.prefix == net.width(),
        out.len() == 1,
        distinct_addresses(net, out),
    ensures
        out == seq![address_text(net.is_v6, net.addr)],
{
    let vals = choose|vals: Seq<u128>| #[trigger] lists_addresses(net, vals, out);
    assert(net.contains(vals[0]));
    lemma_full_prefix(net);
    assert(out =~= seq![address_text(net.is_v6, net.addr)]);
}

/// The texts of two different addresses of a network differ: an IPv4 text is
/// read from its digits, and each IPv6 text reads back as its own address.
proof fn lemma_address_texts_differ(net: IpNet, v: u128, w: u128, t1: Seq<char>, t2: Seq<char>)
    requires
        net.wf(),
        net.contains(v),
        net.contains(w),
        v != w,
        t1 == address_text(net.is_v6, v),
        t2 == address_text(net.is_v6, w),
        net.is_v6 ==> ip_addr_parse(t1) == Some((true, v)) && ip_addr_parse(t2) == Some((true, w)),
    ensures
        t1 != t2,
{
    if !net.is_v6 && t1 == t2 {
        lemma_ipv4_text_injective(v as u32, w as u32);
    }
}

/// Texts of distinct addresses of a network are the texts of addresses of
/// the network, one address each, and no two of them are alike.
pub proof fn lemma_distinct_addresses(net: IpNet, out: Seq<Seq<char>>) -> (vals: Seq<u128>)
    requires
        distinct_addresses(net, out),
    ensures
        vals.len() == out.len(),
        forall|i: int|
            0 <= i < out.len() ==> net.contains(#[trigger] vals[i]) && out[i] == address_text(
                net.is_v6,
                vals[i],
            ),
        forall|i: int, j: int| 0 <= i < j < out.len() ==> out[i] != out[j],
{
    choose|vals: Seq<u128>| #[trigger] lists_addresses(net, vals, out)
}

/// What expanding an entry gives. An entry that is no network gives its
/// plain text. A network gives, where `count` is at most 1, the text of one
/// of its addresses; else, for IPv4, `count` distinct addresses, or all of
/// them where it holds fewer; for IPv6 with a prefix below 119, `count`
/// distinct addresses; for IPv6 with a prefix of at least 119, every address,
/// lowest first.
pub proof fn lemma_entry_expansion(e: Seq<char>, count: usize, out: Seq<Seq<char>>)
    requires
        entry_outcome(e, count, out),
    ensures
        parsed_net(ip_network_parse(e)) is None ==> out == seq![plain_text(e)],
        parsed_net(ip_network_parse(e)) matches Some(n) ==> {
            &&& count <= 1 ==> out.len() == 1 && distinct_addresses(n, out)
            &&& count >= 2 && !n.is_v6 ==> out.len() == (if count <= n.host_mask() + 1 {
                count as int
            } else {
                n.host_mask() + 1
            }) && distinct_addresses(n, out)
            &&& count >= 2 && n.is_v6 && n.prefix < 119 ==> out.len() == count && distinct_addresses(
                n,
                out,
            )
            &&& count >= 2 && n.is_v6 && n.prefix >= 119 ==> out.len() == n.host_mask() + 1
                && forall|i: int| 0 <= i < out.len() ==> #[trigger] out[i] == ipv6_text(n.host(i as u128))
        },
{
}

/// Every entry of valid parse expands without fault, but an IPv6 network
/// with a prefix below 119 sampled for more addresses than it holds.
pub proof fn lemma_entry_ok(e: Seq<char>, count: usize)
    requires
        parsed_net(ip_network_parse(e)) matches Some(n) ==> n.wf(),
    ensures
        entry_ok(e, count) <==> !(parsed_net(ip_network_parse(e)) matches Some(n) && count >= 2
            && n.is_v6 && n.prefix < 119 && count > n.host_mask() + 1),
{
}

} // verus!
