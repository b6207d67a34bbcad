use cdn_scan::models::Record;
use cdn_scan::report::{build_report, csv_line, record_to_row};

fn record(ip: &str, delay_ms: u128, status: &str) -> Record {
    Record {
        ip: ip.to_string(),
        colo: "LAX".to_string(),
        country: "US".to_string(),
        region: "North America".to_string(),
        city: "Los Angeles".to_string(),
        delay_ms,
        is_jetbrains: false,
        http_status_code: status.to_string(),
    }
}

fn strings(v: &[&str]) -> Vec<String> {
    v.iter().map(|s| s.to_string()).collect()
}

#[test]
fn row_of_a_record() {
    assert_eq!(
        record_to_row(&record("1.1.1.1", 120, "200")),
        strings(&["1.1.1.1", "LAX", "US", "North America", "Los Angeles", "120", "200"])
    );
}

#[test]
fn report_is_sorted_by_delay_with_stable_ties() {
    let records = vec![
        record("a", 300, "200"),
        record("b", 100, "403"),
        record("c", 300, "200"),
        record("d", 5_000_000_000, "200"),
        record("e", 2_147_483_647, "200"),
        record("f", 0, ""),
    ];
    let rows = build_report(&records, false);
    assert_eq!(rows.len(), 7);
    assert_eq!(rows[0], strings(&["IP地址", "数据中心", "alpha-2", "地区", "城市", "延迟(毫秒)", "HTTP状态码"]));
    let order: Vec<&str> = rows[1..].iter().map(|r| r[0].as_str()).collect();
    assert_eq!(order, vec!["f", "b", "a", "c", "d", "e"]);
    assert_eq!(rows[6][5], "2147483647");
    assert_eq!(rows[5][5], "5000000000");
}

#[test]
fn jetbrains_report_keeps_three_columns_and_a_mark() {
    let records = vec![record("x", 20, "302"), record("y", 10, "302")];
    let rows = build_report(&records, true);
    assert_eq!(rows[0], strings(&["IP地址", "延迟(毫秒)", "HTTP状态码", "jetBrains激活服务器"]));
    assert_eq!(rows[1], strings(&["y", "10", "302", "true"]));
    assert_eq!(rows[2], strings(&["x", "20", "302", "true"]));
}

#[test]
fn empty_report_has_only_the_header() {
    let rows = build_report(&Vec::new(), false);
    assert_eq!(rows.len(), 1);
}

#[test]
fn csv_lines_quote_when_needed() {
    assert_eq!(csv_line(&strings(&["a", "b", "c"])), "a,b,c\n");
    assert_eq!(csv_line(&strings(&["a,b", "say \"hi\"", "x\ny", ""])), "\"a,b\",\"say \"\"hi\"\"\",\"x\ny\",\n");
    assert_eq!(csv_line(&Vec::new()), "\n");
    assert_eq!(csv_line(&strings(&["IP地址", "延迟(毫秒)"])), "IP地址,延迟(毫秒)\n");
}
