use vstd::prelude::*;

use crate::address::{ipv4_text, ipv4_to_string, lemma_ipv4_text_first_digit};
use crate::models::{Airport, Record, RecordView};
use crate::outside::{
    decode_lossy, ip_network_parse, parse_ip_network, parse_url_host, parsed_net, url_host_of,
    utf8_lossy_text,
};
use crate::text::{
    chars_of, find_char_from, find_from, has_prefix, last_index_of, last_index_of_char,
    lemma_last_index_of,
    split_lines, starts_with, string_of, text_lines, trim_end, trimmed_end_len, lemma_trim_end,
};

verus! {

broadcast use vstd::string::group_string_axioms;

/// Why a host's answer gave no record.
#[derive(Debug, PartialEq, Eq, Structural)]
pub enum ScanError {
    /// No header named a known Cloudflare data centre (or, when scanning for
    /// JetBrains licence servers, the JetBrains sign-in location).
    NotMatched,
}

/// The host part of an entry as it goes into a URL: the address of an IPv4
/// network, the whole entry in brackets for IPv6, else the entry without the
/// slashes at its end.
pub open spec fn formatted_host(ip: Seq<char>) -> Seq<char> {
    match parsed_net(ip_network_parse(ip)) {
        Some(net) => if net.is_v6 {
            seq!['['] + ip + seq![']']
        } else {
            ipv4_text(net.addr as u32)
        },
        None => trim_end(ip, '/'),
    }
}

/// The formatted host is itself a URL, whose host name is taken.
pub open spec fn is_web_url(f: Seq<char>) -> bool {
    starts_with(f, "http://"@) || starts_with(f, "https://"@)
}

/// The host name of an entry can be worked out: where the entry is a URL,
/// the URL parses.
pub open spec fn host_name_ok(ip: Seq<char>) -> bool {
    is_web_url(formatted_host(ip)) ==> url_host_of(formatted_host(ip)) is Some
}

/// The host name of an entry: the host of the URL it is (empty where the URL
/// has none), else its formatted host.
pub open spec fn host_name_of(ip: Seq<char>) -> Seq<char> {
    let f = formatted_host(ip);
    if is_web_url(f) {
        match url_host_of(f) {
            Some(Some(h)) => h,
            _ => Seq::empty(),
        }
    } else {
        f
    }
}

/// The URL that is fetched for an entry: the entry itself when looking for
/// JetBrains licence servers, else the Cloudflare trace page of its host.
pub open spec fn scan_url_of(ip: Seq<char>, jetbrains: bool) -> Seq<char> {
    if jetbrains {
        ip
    } else {
        "http://"@ + host_name_of(ip) + "/cdn-cgi/trace"@
    }
}

/// The formatted host of an entry (see `formatted_host`).
pub fn format_host(ip: &str) -> (s: String)
    ensures
        s@ == formatted_host(ip@),
{
    match parse_ip_network(ip) {
        Some(net) => {
            if net.is_v6 {
                proof {
                    reveal_strlit("[");
                    reveal_strlit("]");
                }
                let mut s = "[".to_string();
                s.append(ip);
                s.append("]");
                s
            } else {
                ipv4_to_string(net.addr as u32)
            }
        },
        None => {
            let c = chars_of(ip);
            let e = trimmed_end_len(&c, '/');
            string_of(&c, 0, e)
        },
    }
}

/// Whether a formatted host is a URL.
fn web_url(f: &str) -> (r: bool)
    ensures
        r == is_web_url(f@),
{
    let c = chars_of(f);
    has_prefix(&c, "http://") || has_prefix(&c, "https://")
}

/// The host name of an entry (see `host_name_of`).
pub fn host_name(ip: &str) -> (h: String)
    requires
        host_name_ok(ip@),
    ensures
        h@ == host_name_of(ip@),
{
    let f = format_host(ip);
    if web_url(f.as_str()) {
        match parse_url_host(f.as_str()) {
            Some(Some(h)) => h,
            _ => String::new(),
        }
    } else {
        f
    }
}

/// The URL fetched for an entry (see `scan_url_of`), or `None` where the entry
/// is a URL that does not parse.
pub fn scan_url(ip: &str, jetbrains: bool) -> (r: Option<String>)
    ensures
        r is Some <==> host_name_ok(ip@),
        r matches Some(u) ==> u@ == scan_url_of(ip@, jetbrains),
{
    let f = format_host(ip);
    if web_url(f.as_str()) {
        if parse_url_host(f.as_str()).is_none() {
            return None;
        }
    }
    let h = host_name(ip);
    if jetbrains {
        Some(ip.to_string())
    } else {
        let mut u = "http://".to_string();
        u.append(h.as_str());
        u.append("/cdn-cgi/trace");
        Some(u)
    }
}

/// The URL fetched for an entry. When looking for JetBrains licence servers
/// it is the entry itself. Otherwise it is the Cloudflare trace page
/// `http://<host>/cdn-cgi/trace` of the host the entry names, and it can
/// always be built for: an IPv4 network, whose host is its address in
/// dotted decimal; an IPv6 network, whose host is the whole entry in
/// brackets; and a name that is no `http://` or `https://` URL, whose host
/// is the name without the slashes at its end.
pub proof fn lemma_scan_url_of_entry(e: Seq<char>)
    ensures
        scan_url_of(e, true) == e,
        parsed_net(ip_network_parse(e)) matches Some(n) ==> host_name_ok(e) && scan_url_of(e, false)
            == "http://"@ + (if n.is_v6 {
            seq!['['] + e + seq![']']
        } else {
            ipv4_text(n.addr as u32)
        }) + "/cdn-cgi/trace"@,
        parsed_net(ip_network_parse(e)) is None && !(e.len() >= 7 && e.subrange(0, 7) == "http://"@)
            && !(e.len() >= 8 && e.subrange(0, 8) == "https://"@) ==> host_name_ok(e) && exists|k: int|
            #![trigger e.subrange(0, k)]
            0 <= k <= e.len() && (forall|j: int| k <= j < e.len() ==> e[j] == '/') && (k == 0 || e[k
                - 1] != '/') && scan_url_of(e, false) == "http://"@ + e.subrange(0, k)
                + "/cdn-cgi/trace"@,
{
    reveal_strlit("http://");
    reveal_strlit("https://");
    let f = formatted_host(e);
    match parsed_net(ip_network_parse(e)) {
        Some(n) => {
            if n.is_v6 {
                assert(f[0] == '[');
            } else {
                lemma_ipv4_text_first_digit(n.addr as u32);
            }
            assert(!starts_with(f, "http://"@)) by {
                if starts_with(f, "http://"@) {
                    assert(f.subrange(0, 7)[0] == f[0]);
                }
            }
            assert(!starts_with(f, "https://"@)) by {
                if starts_with(f, "https://"@) {
                    assert(f.subrange(0, 8)[0] == f[0]);
                }
            }
        },
        None => {
            let k = lemma_trim_end(e, '/');
            if !(e.len() >= 7 && e.subrange(0, 7) == "http://"@) && !(e.len() >= 8 && e.subrange(0, 8)
                == "https://"@) {
                assert(!starts_with(f, "http://"@)) by {
                    if starts_with(f, "http://"@) {
                        assert(e.subrange(0, 7) =~= f.subrange(0, 7));
                    }
                }
                assert(!starts_with(f, "https://"@)) by {
                    if starts_with(f, "https://"@) {
                        assert(e.subrange(0, 8) =~= f.subrange(0, 8));
                    }
                }
                assert(scan_url_of(e, false) == "http://"@ + e.subrange(0, k) + "/cdn-cgi/trace"@);
            }
        },
    }
}

/// The location a JetBrains licence server sends its clients to.
pub open spec fn jetbrains_location() -> Seq<char> {
    "Location: https://account.jetbrains.com/fls-auth"@
}

/// The second field of a line split at each space, where it has one.
pub open spec fn second_field(line: Seq<char>) -> Option<Seq<char>> {
    let a = find_from(line, ' ', 0);
    if a >= line.len() {
        None
    } else {
        Some(line.subrange(a + 1, find_from(line, ' ', a + 1)))
    }
}

/// The index of the first airport, from `from` on, whose IATA code is `code`.
pub open spec fn find_airport(airports: Seq<Airport>, code: Seq<char>, from: int) -> Option<int>
    decreases airports.len() - from,
{
    if from < 0 || from >= airports.len() {
        None
    } else if airports[from].iata@ == code {
        Some(from)
    } else {
        find_airport(airports, code, from + 1)
    }
}

/// The data centre a `CF-RAY:` line names: the text after its last `-`.
pub open spec fn ray_colo(line: Seq<char>) -> Option<Seq<char>> {
    match last_index_of(line, '-') {
        Some(p) => Some(line.subrange(p + 1, line.len() as int)),
        None => None,
    }
}

/// What the headers of an answer say.
pub enum HeaderVerdict {
    /// Served by the Cloudflare data centre `colo`, the airport at index
    /// `airport`; `status` is the status code seen so far.
    Cloudflare { status: Seq<char>, colo: Seq<char>, airport: int },
    /// A JetBrains licence server; `status` is the status code seen so far.
    JetBrains { status: Seq<char> },
    /// Neither.
    Unmatched,
}

/// Reads the header lines from line `k` on, with `status` the status code
/// seen so far: a `HTTP/1.1` line sets the status code (to its second field,
/// where it has one); a `CF-RAY:` line that names a known data centre ends
/// the scan for Cloudflare; the JetBrains sign-in location ends the scan for
/// JetBrains licence servers.
pub open spec fn scan_headers(
    lines: Seq<Seq<char>>,
    k: int,
    status: Seq<char>,
    jetbrains: bool,
    airports: Seq<Airport>,
) -> HeaderVerdict
    decreases lines.len() - k,
{
    if k < 0 || k >= lines.len() {
        HeaderVerdict::Unmatched
    } else {
        let line = lines[k];
        if starts_with(line, "HTTP/1.1"@) {
            let next = match second_field(line) {
                Some(f) => f,
                None => status,
            };
            scan_headers(lines, k + 1, next, jetbrains, airports)
        } else if !jetbrains && starts_with(line, "CF-RAY:"@) {
            match ray_colo(line) {
                Some(colo) => match find_airport(airports, colo, 0) {
                    Some(a) => HeaderVerdict::Cloudflare { status, colo, airport: a },
                    None => scan_headers(lines, k + 1, status, jetbrains, airports),
                },
                None => scan_headers(lines, k + 1, status, jetbrains, airports),
            }
        } else if jetbrains && starts_with(line, jetbrains_location()) {
            HeaderVerdict::JetBrains { status }
        } else {
            scan_headers(lines, k + 1, status, jetbrains, airports)
        }
    }
}

/// The record that the headers `text` of the answer to a request for `ip`,
/// which took `delay_ms` milliseconds, give, if any.
pub open spec fn header_record(
    ip: Seq<char>,
    airports: Seq<Airport>,
    jetbrains: bool,
    text: Seq<char>,
    delay_ms: u128,
) -> Option<RecordView> {
    match scan_headers(text_lines(text), 0, Seq::empty(), jetbrains, airports) {
        HeaderVerdict::Cloudflare { status, colo, airport } => Some(
            RecordView {
                ip,
                colo,
                country: airports[airport].cca2@,
                region: airports[airport].region@,
                city: airports[airport].city@,
                delay_ms,
                is_jetbrains: false,
                http_status_code: status,
            },
        ),
        HeaderVerdict::JetBrains { status } => Some(
            RecordView {
                ip,
                colo: Seq::empty(),
                country: Seq::empty(),
                region: Seq::empty(),
                city: Seq::empty(),
                delay_ms,
                is_jetbrains: true,
                http_status_code: status,
            },
        ),
        HeaderVerdict::Unmatched => None,
    }
}

/// The second field of a line split at each space, where it has one.
fn second_field_of(line: &Vec<char>) -> (r: Option<Vec<char>>)
    ensures
        r matches Some(f) ==> second_field(line@) == Some(f@),
        r is None ==> second_field(line@) is None,
{
    let a = find_char_from(line, ' ', 0);
    if a >= line.len() {
        None
    } else {
        proof {
            crate::text::lemma_find_from_bounds(line@, ' ', a + 1);
        }
        let b = find_char_from(line, ' ', a + 1);
        let mut f: Vec<char> = Vec::new();
        let mut k = a + 1;
        while k < b
            invariant
                a + 1 <= k <= b <= line.len(),
                f@ == line@.subrange(a + 1, k as int),
            decreases b - k,
        {
            f.push(line[k]);
            k = k + 1;
        }
        Some(f)
    }
}

/// The index of the first airport whose IATA code is `code`.
fn find_airport_index(airports: &Vec<Airport>, code: &String) -> (r: Option<usize>)
    ensures
        r matches Some(a) ==> find_airport(airports@, code@, 0) == Some(a as int) && a < airports.len(),
        r is None ==> find_airport(airports@, code@, 0) is None,
{
    let mut i: usize = 0;
    while i < airports.len()
        invariant
            i <= airports.len(),
            find_airport(airports@, code@, 0) == find_airport(airports@, code@, i as int),
        decreases airports.len() - i,
    {
        if airports[i].iata == *code {
            return Some(i);
        }
        i = i + 1;
    }
    None
}

/// Reads the headers of the answer to a request for `ip` (see
/// `scan_headers`) into a record, which takes `delay_ms` as its delay.
pub fn parse_curl_headers(
    ip: &str,
    airports: &Vec<Airport>,
    jetbrains: bool,
    text: &str,
    delay_ms: u128,
) -> (r: Result<Record, ScanError>)
    ensures
        match r {
            Ok(rec) => header_record(ip@, airports@, jetbrains, text@, delay_ms) == Some(rec@),
            Err(e) => header_record(ip@, airports@, jetbrains, text@, delay_ms) is None
                && e == ScanError::NotMatched,
        },
{
    let chars = chars_of(text);
    let lines = split_lines(&chars);
    let ghost ls = text_lines(text@);
    let mut status: Vec<char> = Vec::new();
    let mut k: usize = 0;
    while k < lines.len()
        invariant
            lines@.map_values(|l: Vec<char>| l@) == ls,
            ls == text_lines(text@),
            k <= lines.len(),
            scan_headers(ls, 0, Seq::empty(), jetbrains, airports@) == scan_headers(
                ls,
                k as int,
                status@,
                jetbrains,
                airports@,
            ),
        decreases lines.len() - k,
    {
        let line = &lines[k];
        assert(line@ == ls[k as int]);
        if has_prefix(line, "HTTP/1.1") {
            match second_field_of(line) {
                Some(f) => {
                    status = f;
                },
                None => {},
            }
        } else if !jetbrains && has_prefix(line, "CF-RAY:") {
            match last_index_of_char(line, '-') {
                Some(p) => {
                    let colo = string_of(line, p + 1, line.len());
                    match find_airport_index(airports, &colo) {
                        Some(a) => {
                            let n = status.len();
                            assert(status@.subrange(0, n as int) =~= status@);
                            assert(ray_colo(line@) == Some(colo@));
                            assert(scan_headers(ls, k as int, status@, jetbrains, airports@)
                                == HeaderVerdict::Cloudflare { status: status@, colo: colo@, airport: a as int });
                            let rec = Record {
                                ip: ip.to_string(),
                                colo,
                                country: airports[a].cca2.clone(),
                                region: airports[a].region.clone(),
                                city: airports[a].city.clone(),
                                delay_ms,
                                is_jetbrains: false,
                                http_status_code: string_of(&status, 0, n),
                            };
                            return Ok(rec);
                        },
                        None => {},
                    }
                },
                None => {},
            }
        } else if jetbrains && has_prefix(line, "Location: https://account.jetbrains.com/fls-auth") {
            let n = status.len();
            assert(status@.subrange(0, n as int) =~= status@);
            assert(scan_headers(ls, k as int, status@, jetbrains, airports@)
                == HeaderVerdict::JetBrains { status: status@ });
            return Ok(
                Record {
                    ip: ip.to_string(),
                    colo: String::new(),
                    country: String::new(),
                    region: String::new(),
                    city: String::new(),
                    delay_ms,
                    is_jetbrains: true,
                    http_status_code: string_of(&status, 0, n),
                },
            );
        }
        k = k + 1;
    }
    Err(ScanError::NotMatched)
}

/// Reads the raw output of the request for `ip` (its bytes decoded as UTF-8,
/// invalid sequences replaced) into a record (see `parse_curl_headers`).
pub fn process_curl_output(
    ip: &str,
    airports: &Vec<Airport>,
    jetbrains: bool,
    stdout: &[u8],
    delay_ms: u128,
) -> (r: Result<Record, ScanError>)
    ensures
        match r {
            Ok(rec) => header_record(ip@, airports@, jetbrains, utf8_lossy_text(stdout@), delay_ms)
                == Some(rec@),
            Err(e) => header_record(ip@, airports@, jetbrains, utf8_lossy_text(stdout@), delay_ms)
                is None && e == ScanError::NotMatched,
        },
{
    let text = decode_lossy(stdout);
    parse_curl_headers(ip, airports, jetbrains, text.as_str(), delay_ms)
}

/// `line` is a `CF-RAY:` header line.
pub open spec fn ray_line(line: Seq<char>) -> bool {
    line.len() >= 7 && line.subrange(0, 7) == "CF-RAY:"@
}

/// `p` is the position of the last `-` in `line`.
pub open spec fn last_dash(line: Seq<char>, p: int) -> bool {
    &&& 0 <= p < line.len()
    &&& line[p] == '-'
    &&& forall|q: int| p < q < line.len() ==> line[q] != '-'
}

/// `line` is a `CF-RAY:` line whose text after its last `-` is the IATA
/// code of one of the airports.
pub open spec fn names_known_colo(line: Seq<char>, airports: Seq<Airport>) -> bool {
    &&& ray_line(line)
    &&& exists|p: int, i: int|
        #![trigger last_dash(line, p), airports[i]]
        last_dash(line, p) && 0 <= i < airports.len() && airports[i].iata@ == line.subrange(
            p + 1,
            line.len() as int,
        )
}

/// `line` is an `HTTP/1.1` status line with a space in it, which sets the
/// status code.
pub open spec fn status_line(line: Seq<char>) -> bool {
    &&& line.len() >= 8 && line.subrange(0, 8) == "HTTP/1.1"@
    &&& exists|q: int| 0 <= q < line.len() && #[trigger] line[q] == ' '
}

/// `f` is the second field of `line` split at spaces: the text between its
/// first space, at `a`, and the next space or the end, at `b`.
pub open spec fn second_field_at(line: Seq<char>, a: int, b: int, f: Seq<char>) -> bool {
    &&& 0 <= a < b <= line.len()
    &&& line[a] == ' '
    &&& forall|q: int| 0 <= q < a ==> line[q] != ' '
    &&& b == line.len() || line[b] == ' '
    &&& forall|q: int| a < q < b ==> line[q] != ' '
    &&& f == line.subrange(a + 1, b)
}

/// `st` is the status code after reading lines `from` up to `to`, starting
/// from `init`: the second field of the last status line among them, or
/// `init` where there is none.
pub open spec fn status_read(
    lines: Seq<Seq<char>>,
    from: int,
    to: int,
    init: Seq<char>,
    st: Seq<char>,
) -> bool {
    ||| exists|j: int, a: int, b: int|
        #![trigger second_field_at(lines[j], a, b, st)]
        from <= j < to && status_line(lines[j]) && second_field_at(lines[j], a, b, st) && forall|
            q: int,
        |
            j < q < to ==> !status_line(#[trigger] lines[q])
    ||| (forall|q: int| from <= q < to ==> !status_line(#[trigger] lines[q])) && st == init
}

/// `second_field` takes the text between the first space and the next one
/// (or the end), and finds none only in a line without a space.
proof fn lemma_second_field(line: Seq<char>) -> (ab: (int, int))
    ensures
        second_field(line) matches Some(f) ==> second_field_at(line, ab.0, ab.1, f),
        second_field(line) is None ==> forall|q: int| 0 <= q < line.len() ==> line[q] != ' ',
{
    crate::text::lemma_find_from_bounds(line, ' ', 0);
    let a = find_from(line, ' ', 0);
    if a < line.len() {
        crate::text::lemma_find_from_bounds(line, ' ', a + 1);
        (a, find_from(line, ' ', a + 1))
    } else {
        (0, 0)
    }
}

/// Reading a line that is no status line leaves the status code as the
/// lines after it leave it.
proof fn lemma_status_read_skip(
    lines: Seq<Seq<char>>,
    k: int,
    m: int,
    init: Seq<char>,
    st: Seq<char>,
)
    requires
        0 <= k < m,
        !status_line(lines[k]),
        status_read(lines, k + 1, m, init, st),
    ensures
        status_read(lines, k, m, init, st),
{
    if !(forall|q: int| k + 1 <= q < m ==> !status_line(#[trigger] lines[q])) || st != init {
        let (j, a, b) = choose|j: int, a: int, b: int|
            k + 1 <= j < m && status_line(lines[j]) && #[trigger] second_field_at(lines[j], a, b, st)
                && forall|q: int| j < q < m ==> !status_line(#[trigger] lines[q]);
        assert(second_field_at(lines[j], a, b, st));
    }
}

/// Reading a status line whose second field is `f` sets the status code to
/// `f`, unless a later status line sets it again.
proof fn lemma_status_read_set(
    lines: Seq<Seq<char>>,
    k: int,
    m: int,
    init: Seq<char>,
    f: Seq<char>,
    a: int,
    b: int,
    st: Seq<char>,
)
    requires
        0 <= k < m,
        status_line(lines[k]),
        second_field_at(lines[k], a, b, f),
        status_read(lines, k + 1, m, f, st),
    ensures
        status_read(lines, k, m, init, st),
{
    if (forall|q: int| k + 1 <= q < m ==> !status_line(#[trigger] lines[q])) && st == f {
        assert(second_field_at(lines[k], a, b, st));
    } else {
        let (j, a2, b2) = choose|j: int, a2: int, b2: int|
            k + 1 <= j < m && status_line(lines[j]) && #[trigger] second_field_at(lines[j], a2, b2, st)
                && forall|q: int| j < q < m ==> !status_line(#[trigger] lines[q]);
        assert(second_field_at(lines[j], a2, b2, st));
    }
}

/// Reading one line of the headers updates the status code as `scan_headers`
/// does: a status line sets it to its second field; another line keeps it.
proof fn lemma_status_step(
    lines: Seq<Seq<char>>,
    k: int,
    m: int,
    init: Seq<char>,
    st: Seq<char>,
)
    requires
        0 <= k < m,
        status_read(
            lines,
            k + 1,
            m,
            if starts_with(lines[k], "HTTP/1.1"@) {
                match second_field(lines[k]) {
                    Some(f) => f,
                    None => init,
                }
            } else {
                init
            },
            st,
        ),
    ensures
        status_read(lines, k, m, init, st),
{
    reveal_strlit("HTTP/1.1");
    let line = lines[k];
    let ab = lemma_second_field(line);
    if starts_with(line, "HTTP/1.1"@) {
        match second_field(line) {
            Some(f) => {
                assert(line[ab.0] == ' ');
                lemma_status_read_set(lines, k, m, init, f, ab.0, ab.1, st);
            },
            None => {
                lemma_status_read_skip(lines, k, m, init, st);
            },
        }
    } else {
        lemma_status_read_skip(lines, k, m, init, st);
    }
}

/// `rec` is the Cloudflare record that line `k` of `lines`, with its last
/// `-` at `p`, gives: its data centre is the text after that `-`, and its
/// country, region and city are those of airport `i`, the first whose IATA
/// code is exactly that text; no earlier line names a known data centre.
pub open spec fn record_from_line(
    lines: Seq<Seq<char>>,
    airports: Seq<Airport>,
    rec: RecordView,
    k: int,
    p: int,
    i: int,
) -> bool {
    &&& 0 <= k < lines.len()
    &&& ray_line(lines[k])
    &&& last_dash(lines[k], p)
    &&& rec.colo == lines[k].subrange(p + 1, lines[k].len() as int)
    &&& 0 <= i < airports.len()
    &&& airports[i].iata@ == rec.colo
    &&& forall|j: int| 0 <= j < i ==> airports[j].iata@ != rec.colo
    &&& rec.country == airports[i].cca2@
    &&& rec.region == airports[i].region@
    &&& rec.city == airports[i].city@
    &&& forall|m: int| 0 <= m < k ==> !names_known_colo(#[trigger] lines[m], airports)
    &&& status_read(lines, 0, k, Seq::empty(), rec.http_status_code)
}

/// `find_airport` finds the first airport, from `from` on, whose IATA code
/// is exactly `code`, and finds none only where no such airport follows.
proof fn lemma_find_airport(airports: Seq<Airport>, code: Seq<char>, from: int)
    requires
        0 <= from,
    ensures
        find_airport(airports, code, from) matches Some(i) ==> from <= i < airports.len()
            && airports[i].iata@ == code && forall|j: int| from <= j < i ==> airports[j].iata@ != code,
        find_airport(airports, code, from) is None ==> forall|j: int|
            from <= j < airports.len() ==> airports[j].iata@ != code,
    decreases airports.len() - from,
{
    if from < airports.len() && airports[from].iata@ != code {
        lemma_find_airport(airports, code, from + 1);
    }
}

/// The header scan for Cloudflare from line `k` on ends at the first line
/// that names a known data centre (returned with the position of its last
/// `-`), with that data centre and the first airport of that code; it finds
/// nothing only where no line from `k` on names one.
proof fn lemma_scan_for_colo(
    lines: Seq<Seq<char>>,
    k: int,
    status: Seq<char>,
    airports: Seq<Airport>,
) -> (res: (int, int))
    requires
        0 <= k,
    ensures
        match scan_headers(lines, k, status, false, airports) {
            HeaderVerdict::Cloudflare { status: found, colo, airport } => {
                &&& status_read(lines, k, res.0, status, found)
                &&& k <= res.0 < lines.len()
                &&& ray_line(lines[res.0])
                &&& last_dash(lines[res.0], res.1)
                &&& colo == lines[res.0].subrange(res.1 + 1, lines[res.0].len() as int)
                &&& 0 <= airport < airports.len()
                &&& airports[airport].iata@ == colo
                &&& forall|j: int| 0 <= j < airport ==> airports[j].iata@ != colo
                &&& forall|q: int| k <= q < res.0 ==> !names_known_colo(#[trigger] lines[q], airports)
            },
            HeaderVerdict::JetBrains { .. } => false,
            HeaderVerdict::Unmatched => forall|q: int|
                k <= q < lines.len() ==> !names_known_colo(#[trigger] lines[q], airports),
        },
    decreases lines.len() - k, 1int,
{
    reveal_strlit("CF-RAY:");
    reveal_strlit("HTTP/1.1");
    if k >= lines.len() {
        return (0, 0);
    }
    let line = lines[k];
    assert(starts_with(line, "CF-RAY:"@) <==> ray_line(line));
    if starts_with(line, "HTTP/1.1"@) {
        assert(!ray_line(line)) by {
            if ray_line(line) {
                assert(line.subrange(0, 7)[0] == line[0]);
                assert(line.subrange(0, 8)[0] == line[0]);
            }
        }
        let next = match second_field(line) {
            Some(f) => f,
            None => status,
        };
        let res = lemma_scan_for_colo(lines, k + 1, next, airports);
        if scan_headers(lines, k, status, false, airports) is Cloudflare {
            lemma_status_step(lines, k, res.0, status, scan_headers(lines, k, status, false, airports)->Cloudflare_status);
        }
        res
    } else if ray_line(line) {
        lemma_last_index_of(line, '-');
        match ray_colo(line) {
            Some(colo) => {
                let p = last_index_of(line, '-')->0;
                lemma_find_airport(airports, colo, 0);
                match find_airport(airports, colo, 0) {
                    Some(a) => (k, p),
                    None => {
                        assert(!names_known_colo(line, airports)) by {
                            assert forall|p2: int, i: int|
                                last_dash(line, p2) && 0 <= i < airports.len() implies airports[i].iata@
                                != line.subrange(p2 + 1, line.len() as int) by {
                                if p2 < p {
                                    assert(line[p] != '-');
                                } else if p2 > p {
                                    assert(line[p2] != '-');
                                }
                            }
                        }
                        lemma_scan_for_colo_next(lines, k, status, airports)
                    },
                }
            },
            None => {
                assert(!names_known_colo(line, airports));
                lemma_scan_for_colo_next(lines, k, status, airports)
            },
        }
    } else {
        lemma_scan_for_colo_next(lines, k, status, airports)
    }
}

/// The scan past line `k`, which is no status line, where line `k` does not
/// end it.
proof fn lemma_scan_for_colo_next(
    lines: Seq<Seq<char>>,
    k: int,
    status: Seq<char>,
    airports: Seq<Airport>,
) -> (res: (int, int))
    requires
        0 <= k < lines.len(),
        !starts_with(lines[k], "HTTP/1.1"@),
    ensures
        match scan_headers(lines, k + 1, status, false, airports) {
            HeaderVerdict::Cloudflare { status: found, colo, airport } => {
                &&& status_read(lines, k, res.0, status, found)
                &&& k < res.0 < lines.len()
                &&& ray_line(lines[res.0])
                &&& last_dash(lines[res.0], res.1)
                &&& colo == lines[res.0].subrange(res.1 + 1, lines[res.0].len() as int)
                &&& 0 <= airport < airports.len()
                &&& airports[airport].iata@ == colo
                &&& forall|j: int| 0 <= j < airport ==> airports[j].iata@ != colo
                &&& forall|q: int| k + 1 <= q < res.0 ==> !names_known_colo(#[trigger] lines[q], airports)
            },
            HeaderVerdict::JetBrains { .. } => false,
            HeaderVerdict::Unmatched => forall|q: int|
                k + 1 <= q < lines.len() ==> !names_known_colo(#[trigger] lines[q], airports),
        },
    decreases lines.len() - k, 0int,
{
    let res = lemma_scan_for_colo(lines, k + 1, status, airports);
    if scan_headers(lines, k + 1, status, false, airports) is Cloudflare {
        lemma_status_step(lines, k, res.0, status, scan_headers(lines, k + 1, status, false, airports)->Cloudflare_status);
    }
    res
}

/// A Cloudflare scan of an answer's headers gives a record exactly when a
/// `CF-RAY:` line names a known data centre, the text after its last `-`.
/// The record is taken from the first such line: its data centre is that
/// text, and its country, region and city are those of the first airport
/// whose IATA code is exactly that text. It keeps the host and the delay,
/// and is not marked as a JetBrains licence server.
pub proof fn lemma_cloudflare_record(
    ip: Seq<char>,
    airports: Seq<Airport>,
    text: Seq<char>,
    delay_ms: u128,
)
    ensures
        header_record(ip, airports, false, text, delay_ms) matches Some(rec) ==> {
            &&& rec.ip == ip
            &&& rec.delay_ms == delay_ms
            &&& !rec.is_jetbrains
            &&& exists|k: int, p: int, i: int|
                #[trigger] record_from_line(text_lines(text), airports, rec, k, p, i)
        },
        header_record(ip, airports, false, text, delay_ms) is None <==> forall|k: int|
            0 <= k < text_lines(text).len() ==> !names_known_colo(
                #[trigger] text_lines(text)[k],
                airports,
            ),
{
    let lines = text_lines(text);
    let res = lemma_scan_for_colo(lines, 0, Seq::empty(), airports);
    match scan_headers(lines, 0, Seq::empty(), false, airports) {
        HeaderVerdict::Cloudflare { status, colo, airport } => {
            let rec = header_record(ip, airports, false, text, delay_ms)->0;
            assert(record_from_line(lines, airports, rec, res.0, res.1, airport));
            assert(names_known_colo(lines[res.0], airports)) by {
                assert(last_dash(lines[res.0], res.1) && airports[airport] == airports[airport]);
            }
        },
        _ => {},
    }
}

/// `line` sends the client to the JetBrains sign-in location.
pub open spec fn location_line(line: Seq<char>) -> bool {
    line.len() >= 48 && line.subrange(0, 48) == "Location: https://account.jetbrains.com/fls-auth"@
}

/// `rec` is the JetBrains record that line `k` of `lines` gives: line `k`
/// is the first that sends the client to the JetBrains sign-in location, and
/// the record's status code is the one read before it.
pub open spec fn jetbrains_from_line(lines: Seq<Seq<char>>, rec: RecordView, k: int) -> bool {
    &&& 0 <= k < lines.len()
    &&& location_line(lines[k])
    &&& forall|m: int| 0 <= m < k ==> !location_line(#[trigger] lines[m])
    &&& status_read(lines, 0, k, Seq::empty(), rec.http_status_code)
}

/// The header scan for JetBrains licence servers from line `k` on ends at
/// the first line that sends the client to the sign-in location (returned),
/// and finds nothing only where no line from `k` on does.
proof fn lemma_scan_for_location(
    lines: Seq<Seq<char>>,
    k: int,
    status: Seq<char>,
    airports: Seq<Airport>,
) -> (m: int)
    requires
        0 <= k,
    ensures
        match scan_headers(lines, k, status, true, airports) {
            HeaderVerdict::JetBrains { status: found } => {
                &&& k <= m < lines.len()
                &&& location_line(lines[m])
                &&& forall|q: int| k <= q < m ==> !location_line(#[trigger] lines[q])
                &&& status_read(lines, k, m, status, found)
            },
            HeaderVerdict::Cloudflare { .. } => false,
            HeaderVerdict::Unmatched => forall|q: int|
                k <= q < lines.len() ==> !location_line(#[trigger] lines[q]),
        },
    decreases lines.len() - k,
{
    reveal_strlit("HTTP/1.1");
    reveal_strlit("Location: https://account.jetbrains.com/fls-auth");
    if k >= lines.len() {
        return 0;
    }
    let line = lines[k];
    assert(starts_with(line, jetbrains_location()) <==> location_line(line));
    if starts_with(line, jetbrains_location()) && !starts_with(line, "HTTP/1.1"@) {
        return k;
    }
    assert(!location_line(line)) by {
        if location_line(line) {
            assert(line.subrange(0, 48)[0] == line[0]);
            assert(line.subrange(0, 8)[0] == line[0]);
        }
    }
    let next = if starts_with(line, "HTTP/1.1"@) {
        match second_field(line) {
            Some(f) => f,
            None => status,
        }
    } else {
        status
    };
    let m = lemma_scan_for_location(lines, k + 1, next, airports);
    if scan_headers(lines, k, status, true, airports) is JetBrains {
        lemma_status_step(
            lines,
            k,
            m,
            status,
            scan_headers(lines, k, status, true, airports)->JetBrains_status,
        );
    }
    m
}

/// A scan of an answer's headers for JetBrains licence servers gives a
/// record exactly when a line sends the client to the JetBrains sign-in
/// location. The record is marked as a licence server, names no data
/// centre, country, region or city, keeps the host and the delay, and holds
/// the status code read before the first such line.
pub proof fn lemma_jetbrains_record(
    ip: Seq<char>,
    airports: Seq<Airport>,
    text: Seq<char>,
    delay_ms: u128,
)
    ensures
        header_record(ip, airports, true, text, delay_ms) matches Some(rec) ==> {
            &&& rec.ip == ip
            &&& rec.delay_ms == delay_ms
            &&& rec.is_jetbrains
            &&& rec.colo.len() == 0 && rec.country.len() == 0
            &&& rec.region.len() == 0 && rec.city.len() == 0
            &&& exists|k: int| #[trigger] jetbrains_from_line(text_lines(text), rec, k)
        },
        header_record(ip, airports, true, text, delay_ms) is None <==> forall|k: int|
            0 <= k < text_lines(text).len() ==> !location_line(#[trigger] text_lines(text)[k]),
{
    let lines = text_lines(text);
    let m = lemma_scan_for_location(lines, 0, Seq::empty(), airports);
    if let HeaderVerdict::JetBrains { status } = scan_headers(lines, 0, Seq::empty(), true, airports) {
        let rec = header_record(ip, airports, true, text, delay_ms)->0;
        assert(jetbrains_from_line(lines, rec, m));
    }
}

} // verus!
