use cdn_scan::curl::{format_host, host_name, parse_curl_headers, process_curl_output, scan_url, ScanError};
use cdn_scan::models::Airport;

fn airport(iata: &str, cca2: &str, region: &str, city: &str) -> Airport {
    Airport { iata: iata.to_string(), cca2: cca2.to_string(), region: region.to_string(), city: city.to_string() }
}

fn airports() -> Vec<Airport> {
    vec![
        airport("LAX", "US", "North America", "Los Angeles"),
        airport("HKG", "HK", "Asia Pacific", "Hong Kong"),
        airport("LAX", "XX", "Duplicate", "Second"),
    ]
}

const CLOUDFLARE_ANSWER: &str = "HTTP/1.1 200 OK\r\nDate: Mon, 01 Jan 2024 00:00:00 GMT\r\nContent-Type: text/plain\r\nServer: cloudflare\r\nCF-RAY: 8a1b2c3d4e5f6a7b-LAX\r\n\r\n";

#[test]
fn formatted_hosts() {
    assert_eq!(format_host("1.2.3.4"), "1.2.3.4");
    assert_eq!(format_host("1.2.3.4/24"), "1.2.3.4");
    assert_eq!(format_host("2001:db8::1"), "[2001:db8::1]");
    assert_eq!(format_host("2001:db8::/32"), "[2001:db8::/32]");
    assert_eq!(format_host("example.com//"), "example.com");
    assert_eq!(format_host("example.com"), "example.com");
}

#[test]
fn host_names() {
    assert_eq!(host_name("https://example.com/path/"), "example.com");
    assert_eq!(host_name("http://Example.COM:8080"), "example.com");
    assert_eq!(host_name("cdn.example.org/"), "cdn.example.org");
}

#[test]
fn scan_urls() {
    assert_eq!(scan_url("1.2.3.4", false), Some("http://1.2.3.4/cdn-cgi/trace".to_string()));
    assert_eq!(scan_url("104.16.0.0/13", false), Some("http://104.16.0.0/cdn-cgi/trace".to_string()));
    assert_eq!(scan_url("2001:db8::1", false), Some("http://[2001:db8::1]/cdn-cgi/trace".to_string()));
    assert_eq!(scan_url("https://example.com/", false), Some("http://example.com/cdn-cgi/trace".to_string()));
    assert_eq!(scan_url("example.com", true), Some("example.com".to_string()));
    assert_eq!(scan_url("https://example.com/x", true), Some("https://example.com/x".to_string()));
    assert_eq!(scan_url("http://[::1", false), None);
    assert_eq!(scan_url("http://[::1", true), None);
}

#[test]
fn cloudflare_answer_gives_record() {
    let r = parse_curl_headers("104.16.1.1", &airports(), false, CLOUDFLARE_ANSWER, 42).unwrap();
    assert_eq!(r.ip, "104.16.1.1");
    assert_eq!(r.colo, "LAX");
    assert_eq!(r.country, "US");
    assert_eq!(r.region, "North America");
    assert_eq!(r.city, "Los Angeles");
    assert_eq!(r.delay_ms, 42);
    assert!(!r.is_jetbrains);
    assert_eq!(r.http_status_code, "200");
}

#[test]
fn status_code_is_the_last_seen_before_the_ray() {
    let text = "HTTP/1.1 301 Moved\nHTTP/1.1 403\nCF-RAY: abc-HKG\nHTTP/1.1 200 OK\n";
    let r = parse_curl_headers("h", &airports(), false, text, 7).unwrap();
    assert_eq!(r.http_status_code, "403");
    assert_eq!(r.colo, "HKG");
    assert_eq!(r.city, "Hong Kong");
    let text = "HTTP/1.1\nCF-RAY: abc-HKG";
    let r = parse_curl_headers("h", &airports(), false, text, 7).unwrap();
    assert_eq!(r.http_status_code, "");
    let text = "HTTP/2 200\nCF-RAY: abc-HKG";
    let r = parse_curl_headers("h", &airports(), false, text, 7).unwrap();
    assert_eq!(r.http_status_code, "");
}

#[test]
fn unknown_or_missing_ray_gives_error() {
    let text = "HTTP/1.1 200 OK\r\nCF-RAY: 8a1b2c3d-ZZZ\r\n";
    assert_eq!(parse_curl_headers("h", &airports(), false, text, 1).err(), Some(ScanError::NotMatched));
    let text = "HTTP/1.1 200 OK\r\nCF-RAY: nodash\r\n";
    assert_eq!(parse_curl_headers("h", &airports(), false, text, 1).err(), Some(ScanError::NotMatched));
    assert_eq!(parse_curl_headers("h", &airports(), false, "", 1).err(), Some(ScanError::NotMatched));
    assert_eq!(parse_curl_headers("h", &airports(), true, CLOUDFLARE_ANSWER, 1).err(), Some(ScanError::NotMatched));
}

#[test]
fn first_matching_airport_wins() {
    let r = parse_curl_headers("h", &airports(), false, "CF-RAY: x-y-LAX", 1).unwrap();
    assert_eq!(r.country, "US");
}

#[test]
fn jetbrains_answer_gives_record() {
    let text = "HTTP/1.1 302 Found\r\nLocation: https://account.jetbrains.com/fls-auth?x=1\r\nCF-RAY: 1-LAX\r\n";
    let r = parse_curl_headers("https://lic.example.com", &airports(), true, text, 99).unwrap();
    assert!(r.is_jetbrains);
    assert_eq!(r.ip, "https://lic.example.com");
    assert_eq!(r.colo, "");
    assert_eq!(r.country, "");
    assert_eq!(r.http_status_code, "302");
    assert_eq!(r.delay_ms, 99);
    let r = parse_curl_headers("h", &airports(), false, text, 99).unwrap();
    assert!(!r.is_jetbrains);
    assert_eq!(r.colo, "LAX");
}

#[test]
fn raw_output_is_decoded() {
    let mut bytes = b"HTTP/1.1 200 OK\r\nX: \xff\xfe\r\nCF-RAY: 1-HKG\r\n".to_vec();
    let r = process_curl_output("h", &airports(), false, &bytes, 5).unwrap();
    assert_eq!(r.colo, "HKG");
    bytes.truncate(17);
    assert!(process_curl_output("h", &airports(), false, &bytes, 5).is_err());
    let r = process_curl_output("h", &airports(), false, "CF-RAY: 1-HKG\u{fffd}".as_bytes(), 5);
    assert!(r.is_err());
    let r = process_curl_output("h", &airports(), false, b"CF-RAY: 1-HKG", 5).unwrap();
    assert_eq!(r.city, "Hong Kong");
}
