use std::collections::HashSet;

use cdn_scan::address::{decimal_string, host_mask_of, ipv4_to_string, network_of, IpNet};
use cdn_scan::network::{
    address_string, entry_expands, every_address_of, generate_ip_and_check_ip_type,
    generate_ip_and_check_ip_type2, host_address, plain_entry, process_ip_cidr_hosts, random_address,
    sample_addresses, sample_network,
};

fn parse_v4(s: &str) -> Option<u32> {
    let parts: Vec<&str> = s.split('.').collect();
    if parts.len() != 4 {
        return None;
    }
    let mut v: u32 = 0;
    for p in parts {
        if p.is_empty() || p.len() > 3 || !p.chars().all(|c| c.is_ascii_digit()) {
            return None;
        }
        let n: u32 = p.parse().ok()?;
        if n > 255 || (p.len() > 1 && p.starts_with('0')) {
            return None;
        }
        v = v * 256 + n;
    }
    Some(v)
}

fn v4(s: &str) -> u32 {
    parse_v4(s).unwrap()
}

fn in_v4_block(text: &str, base: &str, prefix: u32) -> bool {
    let v = v4(text);
    let mask = if prefix == 0 { 0 } else { u32::MAX << (32 - prefix) };
    v & mask == v4(base) & mask
}

fn looks_v6(text: &str) -> bool {
    text.contains(':') && text.chars().all(|c| c.is_ascii_hexdigit() || c == ':')
}

#[test]
fn decimal_and_ipv4_text() {
    assert_eq!(decimal_string(0), "0");
    assert_eq!(decimal_string(7), "7");
    assert_eq!(decimal_string(1234567890), "1234567890");
    assert_eq!(decimal_string(u128::MAX), u128::MAX.to_string());
    assert_eq!(ipv4_to_string(0), "0.0.0.0");
    assert_eq!(ipv4_to_string(u32::MAX), "255.255.255.255");
    assert_eq!(ipv4_to_string(v4("104.17.17.9")), "104.17.17.9");
    assert_eq!(ipv4_to_string(0x0A00_0001), "10.0.0.1");
}

#[test]
fn address_text_of_both_families() {
    assert_eq!(address_string(false, 0x7f00_0001), "127.0.0.1");
    assert_eq!(address_string(true, 1), "::1");
    assert_eq!(address_string(true, (0x2001_0db8u128 << 96) | 0xff), "2001:db8::ff");
    assert_eq!(address_string(true, 0), "::");
}

#[test]
fn masks_and_networks() {
    let n = IpNet { is_v6: false, addr: v4("10.1.9.32") as u128, prefix: 16 };
    assert_eq!(host_mask_of(&n), 0xffff);
    assert_eq!(network_of(&n), v4("10.1.0.0") as u128);
    let n = IpNet { is_v6: false, addr: v4("10.1.9.32") as u128, prefix: 32 };
    assert_eq!(host_mask_of(&n), 0);
    assert_eq!(network_of(&n), v4("10.1.9.32") as u128);
    let n = IpNet { is_v6: true, addr: 5, prefix: 0 };
    assert_eq!(host_mask_of(&n), u128::MAX);
    assert_eq!(network_of(&n), 0);
    let n = IpNet { is_v6: true, addr: u128::MAX, prefix: 120 };
    assert_eq!(host_mask_of(&n), 0xff);
    assert_eq!(network_of(&n), u128::MAX - 0xff);
}

#[test]
fn random_address_stays_in_network() {
    let n = IpNet { is_v6: false, addr: v4("104.17.17.0") as u128, prefix: 24 };
    for _ in 0..200 {
        let s = random_address(&n);
        assert!(in_v4_block(&s, "104.17.17.0", 24), "{}", s);
    }
    let n = IpNet { is_v6: true, addr: 0, prefix: 0 };
    let s = random_address(&n);
    assert!(looks_v6(&s), "{}", s);
}

#[test]
fn sample_addresses_are_distinct_and_in_network() {
    let n = IpNet { is_v6: false, addr: v4("192.168.1.0") as u128, prefix: 28 };
    let out = sample_addresses(&n, 16);
    assert_eq!(out.len(), 16);
    let set: HashSet<&String> = out.iter().collect();
    assert_eq!(set.len(), 16);
    assert!(out.iter().all(|s| in_v4_block(s, "192.168.1.0", 28)));
}

#[test]
fn every_address_of_small_ipv6_network() {
    let base = (0x2001_0db8u128 << 96) | 0x100;
    let n = IpNet { is_v6: true, addr: base + 3, prefix: 126 };
    assert_eq!(every_address_of(&n), vec!["2001:db8::100", "2001:db8::101", "2001:db8::102", "2001:db8::103"]);
}

#[test]
fn sample_network_sizes() {
    let n = IpNet { is_v6: false, addr: v4("10.0.0.0") as u128, prefix: 30 };
    let mut out = sample_network(&n, 10);
    out.sort();
    assert_eq!(out, vec!["10.0.0.0", "10.0.0.1", "10.0.0.2", "10.0.0.3"]);
    let n = IpNet { is_v6: true, addr: 0x2001_0db8 << 96, prefix: 64 };
    let out = sample_network(&n, 5);
    assert_eq!(out.len(), 5);
    assert_eq!(out.iter().collect::<HashSet<_>>().len(), 5);
    assert!(out.iter().all(|s| looks_v6(s) && s.starts_with("2001:db8:")));
    let n = IpNet { is_v6: true, addr: 0x2001_0db8 << 96, prefix: 120 };
    assert_eq!(sample_network(&n, 3).len(), 256);
}

#[test]
fn single_expansion_of_each_kind() {
    let out = generate_ip_and_check_ip_type("104.17.17.0/24");
    assert_eq!(out.len(), 1);
    assert!(in_v4_block(&out[0], "104.17.17.0", 24));
    assert_eq!(generate_ip_and_check_ip_type("1.2.3.4"), vec!["1.2.3.4"]);
    assert_eq!(generate_ip_and_check_ip_type("2001:db8:0::1"), vec!["2001:db8::1"]);
    assert_eq!(generate_ip_and_check_ip_type("github.com"), vec!["github.com"]);
    let out = generate_ip_and_check_ip_type("2606:4700::/32");
    assert_eq!(out.len(), 1);
    assert!(looks_v6(&out[0]) && out[0].starts_with("2606:4700:"), "{}", out[0]);
}

#[test]
fn sampled_expansion_of_each_kind() {
    let out = generate_ip_and_check_ip_type2("192.168.1.0/24", 50);
    assert_eq!(out.len(), 50);
    assert_eq!(out.iter().collect::<HashSet<_>>().len(), 50);
    assert!(out.iter().all(|s| in_v4_block(s, "192.168.1.0", 24)));
    assert_eq!(generate_ip_and_check_ip_type2("github.com", 1), vec!["github.com"]);
    assert_eq!(generate_ip_and_check_ip_type2("8.8.8.8", 3), vec!["8.8.8.8"]);
    let out = generate_ip_and_check_ip_type2("2001:db8::/32", 4);
    assert_eq!(out.len(), 4);
    assert!(out.iter().all(|s| looks_v6(s) && s.starts_with("2001:db8:")));
    assert_eq!(generate_ip_and_check_ip_type2("::1/127", 1), vec!["::", "::1"]);
}

#[test]
fn plain_entries() {
    assert_eq!(plain_entry("::0001"), "::1");
    assert_eq!(plain_entry("10.0.0.1"), "10.0.0.1");
    assert_eq!(plain_entry("example.com"), "example.com");
    assert_eq!(plain_entry("1.2.3.4/8"), "1.2.3.4/8");
}

#[test]
fn which_entries_expand() {
    assert!(entry_expands("1.2.3.0/24", 1));
    assert!(entry_expands("0.0.0.0/0", 1));
    assert!(entry_expands("::/0", 1));
    assert!(entry_expands("0.0.0.0/0", 5));
    assert!(entry_expands("::/0", 5));
    assert!(entry_expands("2001:db8::/118", 1024));
    assert!(!entry_expands("2001:db8::/118", 1025));
    assert!(entry_expands("2001:db8::/119", 100000));
    assert!(entry_expands("example.com", 0));
}

#[test]
fn process_expands_every_entry() {
    let entries = vec![
        "104.17.17.0/24".to_string(),
        "example.com".to_string(),
        "1.1.1.1".to_string(),
        "0.0.0.0/0".to_string(),
    ];
    let out = process_ip_cidr_hosts(entries, 20, 1);
    assert_eq!(out.len(), 4);
    assert!(out.contains(&"example.com".to_string()));
    assert!(out.contains(&"1.1.1.1".to_string()));
    assert_eq!(out.iter().filter(|s| parse_v4(s).is_some()).count(), 3);
    assert_eq!(out.iter().filter(|s| in_v4_block_opt(s, "104.17.17.0", 24)).count(), 1);
}

fn in_v4_block_opt(s: &str, base: &str, prefix: u32) -> bool {
    parse_v4(s).is_some() && in_v4_block(s, base, prefix)
}

#[test]
fn process_samples_networks() {
    let entries = vec!["10.0.0.0/29".to_string(), "::1".to_string(), "2001:db8::/118".to_string()];
    let out = process_ip_cidr_hosts(entries, 4, 2000);
    // 8 addresses of the IPv4 block, the IPv6 address; the IPv6 block is too small.
    assert_eq!(out.len(), 9);
    let mut v4s: Vec<&String> = out.iter().filter(|s| parse_v4(s).is_some()).collect();
    v4s.sort();
    assert_eq!(v4s.len(), 8);
    assert!(v4s.iter().all(|s| in_v4_block(s, "10.0.0.0", 29)));
    assert!(out.contains(&"::1".to_string()));
    assert!(out.iter().all(|s| parse_v4(s).is_some() || looks_v6(s)));
}

#[test]
fn host_address_sets_the_host_bits() {
    let n = IpNet { is_v6: false, addr: v4("104.17.17.200") as u128, prefix: 24 };
    assert_eq!(host_address(&n, 0), "104.17.17.0");
    assert_eq!(host_address(&n, 9), "104.17.17.9");
    assert_eq!(host_address(&n, 255), "104.17.17.255");
    let n = IpNet { is_v6: true, addr: (0x2001_0db8u128 << 96) | 0xabcd, prefix: 112 };
    assert_eq!(host_address(&n, 0x12), "2001:db8::12");
    let n = IpNet { is_v6: false, addr: 0, prefix: 0 };
    assert_eq!(host_address(&n, v4("8.8.4.4") as u128), "8.8.4.4");
}

#[test]
fn whole_space_networks_expand() {
    let out = generate_ip_and_check_ip_type("0.0.0.0/0");
    assert_eq!(out.len(), 1);
    assert!(parse_v4(&out[0]).is_some());
    let out = generate_ip_and_check_ip_type("::/0");
    assert_eq!(out.len(), 1);
    assert!(out[0].contains(':'));
    let out = generate_ip_and_check_ip_type2("0.0.0.0/0", 20);
    assert_eq!(out.len(), 20);
    assert_eq!(out.iter().collect::<HashSet<_>>().len(), 20);
    assert!(out.iter().all(|s| parse_v4(s).is_some()));
}

#[test]
fn ipv6_samples_have_distinct_texts() {
    let out = generate_ip_and_check_ip_type2("::ffff:0:0/96", 300);
    assert_eq!(out.len(), 300);
    assert_eq!(out.iter().collect::<HashSet<_>>().len(), 300);
    assert!(out.iter().all(|s| s.starts_with("::ffff:")));
}
