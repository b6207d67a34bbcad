use std::cmp::Ordering;

use cdn_scan::common::{duration_unit, sort_ips_and_hosts, whole_units, DurationUnit};
use cdn_scan::files::is_input_text_file;

fn cmp(a: &str, b: &str) -> Ordering {
    sort_ips_and_hosts(&a.to_string(), &b.to_string())
}

#[test]
fn addresses_then_names() {
    assert_eq!(cmp("1.2.3.4", "example.com"), Ordering::Less);
    assert_eq!(cmp("example.com", "::1"), Ordering::Greater);
    assert_eq!(cmp("example.com", "zzz.org"), Ordering::Equal);
    assert_eq!(cmp("255.255.255.255", "::"), Ordering::Less);
    assert_eq!(cmp("::1", "0.0.0.0"), Ordering::Greater);
    assert_eq!(cmp("9.0.0.1", "10.0.0.1"), Ordering::Less);
    assert_eq!(cmp("10.0.0.1", "10.0.0.1"), Ordering::Equal);
    assert_eq!(cmp("2001:db8::2", "2001:db8::1"), Ordering::Greater);
    assert_eq!(cmp("::0001", "::1"), Ordering::Equal);
    assert_eq!(cmp("1.2.3.0/24", "1.2.3.4"), Ordering::Greater);
}

#[test]
fn order_is_antisymmetric_and_transitive_on_samples() {
    let xs = ["1.2.3.4", "10.0.0.1", "::1", "2001:db8::", "a.com", "b.com", "9.9.9.9"];
    for a in xs {
        assert_eq!(cmp(a, a), Ordering::Equal);
        for b in xs {
            assert_eq!(cmp(a, b), cmp(b, a).reverse());
            for c in xs {
                if cmp(a, b) != Ordering::Greater && cmp(b, c) != Ordering::Greater {
                    assert_ne!(cmp(a, c), Ordering::Greater);
                }
            }
        }
    }
    let mut v: Vec<String> = xs.iter().map(|s| s.to_string()).collect();
    v.sort_by(sort_ips_and_hosts);
    assert_eq!(&v[..5], &["1.2.3.4", "9.9.9.9", "10.0.0.1", "::1", "2001:db8::"]);
}

#[test]
fn duration_units() {
    assert_eq!(duration_unit(0), DurationUnit::Nanoseconds);
    assert_eq!(duration_unit(999), DurationUnit::Nanoseconds);
    assert_eq!(duration_unit(1_000), DurationUnit::Microseconds);
    assert_eq!(duration_unit(999_999), DurationUnit::Microseconds);
    assert_eq!(duration_unit(1_000_000), DurationUnit::Milliseconds);
    assert_eq!(duration_unit(1_000_000_000), DurationUnit::Seconds);
    assert_eq!(DurationUnit::Seconds.label(), "秒");
    assert_eq!(DurationUnit::Milliseconds.label(), "毫秒");
    assert_eq!(DurationUnit::Microseconds.label(), "微秒");
    assert_eq!(DurationUnit::Nanoseconds.label(), "纳秒");
    assert_eq!(DurationUnit::Milliseconds.nanos(), 1_000_000);
}

#[test]
fn input_file_names() {
    assert!(is_input_text_file("ips-v4.txt"));
    assert!(is_input_text_file("a.b.txt"));
    assert!(!is_input_text_file("output.txt"));
    assert!(!is_input_text_file(".txt"));
    assert!(!is_input_text_file("notes.TXT"));
    assert!(!is_input_text_file("list.txt.bak"));
    assert!(!is_input_text_file("txt"));
    assert!(!is_input_text_file(".."));
    assert!(is_input_text_file("..txt"));
}

#[test]
fn whole_units_drop_the_remainder() {
    assert_eq!(whole_units(0), 0);
    assert_eq!(whole_units(999), 999);
    assert_eq!(whole_units(1_999), 1);
    assert_eq!(whole_units(2_500_000), 2);
    assert_eq!(whole_units(999_999_999), 999);
    assert_eq!(whole_units(3_700_000_000), 3);
}
