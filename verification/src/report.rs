use vstd::prelude::*;

use crate::address::{decimal, decimal_string};
use crate::models::{Record, RecordView};
use crate::outside::push_char;
use crate::text::chars_of;

verus! {

broadcast use vstd::string::group_string_axioms;

/// The key by which report rows are ordered: the delay in milliseconds, read
/// back as an `i32`; a delay too large for an `i32` counts as `i32::MAX`.
pub open spec fn latency_key(delay_ms: u128) -> u32 {
    if delay_ms <= 0x7fff_ffff {
        delay_ms as u32
    } else {
        0x7fff_ffff
    }
}

/// Where index `x`'s key goes into `order`, searching from `p`: before the
/// first entry whose key is larger.
pub open spec fn insert_pos(keys: Seq<u32>, order: Seq<usize>, x: u32, p: int) -> int
    decreases order.len() - p,
{
    if p < 0 || p >= order.len() {
        order.len() as int
    } else if keys[order[p] as int] <= x {
        insert_pos(keys, order, x, p + 1)
    } else {
        p
    }
}

/// The indices `0..n` ordered by their keys, equal keys in index order: each
/// index is inserted after every earlier one whose key is not larger.
pub open spec fn stable_order(keys: Seq<u32>, n: nat) -> Seq<usize>
    decreases n,
{
    if n == 0 {
        Seq::empty()
    } else {
        let o = stable_order(keys, (n - 1) as nat);
        o.insert(insert_pos(keys, o, keys[n - 1], 0), (n - 1) as usize)
    }
}

/// `order` lists each of `0..n` exactly once.
pub open spec fn is_permutation(order: Seq<usize>, n: nat) -> bool {
    &&& order.len() == n
    &&& forall|i: int| 0 <= i < n ==> #[trigger] order[i] < n
    &&& forall|i: int, j: int| 0 <= i < j < n ==> order[i] != order[j]
}

/// Along `order` the keys never decrease, and indices with equal keys keep
/// their order.
pub open spec fn is_stably_sorted(keys: Seq<u32>, order: Seq<usize>) -> bool {
    &&& forall|i: int, j: int|
        0 <= i < j < order.len() ==> keys[order[i] as int] <= keys[order[j] as int]
    &&& forall|i: int, j: int|
        0 <= i < j < order.len() && keys[order[i] as int] == keys[order[j] as int] ==> order[i]
            < order[j]
}

proof fn lemma_insert_pos(keys: Seq<u32>, order: Seq<usize>, x: u32, p: int)
    requires
        0 <= p <= order.len(),
        forall|i: int| 0 <= i < order.len() ==> #[trigger] order[i] < keys.len(),
    ensures
        p <= insert_pos(keys, order, x, p) <= order.len(),
        forall|q: int| p <= q < insert_pos(keys, order, x, p) ==> keys[order[q] as int] <= x,
        insert_pos(keys, order, x, p) < order.len() ==> keys[order[insert_pos(
            keys,
            order,
            x,
            p,
        )] as int] > x,
    decreases order.len() - p,
{
    if p < order.len() && keys[order[p] as int] <= x {
        lemma_insert_pos(keys, order, x, p + 1);
    }
}

/// The stable order of `0..n` lists each index once and is stably sorted.
pub proof fn lemma_stable_order(keys: Seq<u32>, n: nat)
    requires
        n <= keys.len(),
        n <= usize::MAX,
    ensures
        is_permutation(stable_order(keys, n), n),
        is_stably_sorted(keys, stable_order(keys, n)),
    decreases n,
{
    if n > 0 {
        let m = (n - 1) as nat;
        let o = stable_order(keys, m);
        lemma_stable_order(keys, m);
        let x = keys[m as int];
        lemma_insert_pos(keys, o, x, 0);
        let p = insert_pos(keys, o, x, 0);
        let r = o.insert(p, m as usize);
        o.insert_ensures(p, m as usize);
        assert(r == stable_order(keys, n));
        assert forall|i: int| 0 <= i < n implies #[trigger] r[i] < n by {
            if i < p {
            } else if i > p {
                assert(r[i] == o[i - 1]);
            }
        }
        assert forall|i: int, j: int| 0 <= i < j < n implies r[i] != r[j] by {
            if j < p {
            } else if j == p {
            } else if i < p {
                assert(r[j] == o[j - 1]);
            } else if i == p {
                assert(r[j] == o[j - 1]);
            } else {
                assert(r[j] == o[j - 1]);
                assert(r[i] == o[i - 1]);
            }
        }
        assert forall|i: int, j: int| 0 <= i < j < r.len() implies keys[r[i] as int] <= keys[r[j]
            as int] && (keys[r[i] as int] == keys[r[j] as int] ==> r[i] < r[j]) by {
            if j < p {
            } else if j == p {
                assert(keys[o[i] as int] <= x);
            } else if i < p {
                assert(r[j] == o[j - 1]);
                if j - 1 > p {
                    assert(keys[o[p] as int] <= keys[o[j - 1] as int]);
                }
                assert(keys[o[j - 1] as int] > x);
                assert(keys[o[i] as int] <= x);
            } else if i == p {
                assert(r[j] == o[j - 1]);
                if j - 1 > p {
                    assert(keys[o[p] as int] <= keys[o[j - 1] as int]);
                }
                assert(keys[o[j - 1] as int] > x);
            } else {
                assert(r[j] == o[j - 1]);
                assert(r[i] == o[i - 1]);
            }
        }
    }
}

/// The indices of `keys` in stable order.
pub fn stable_order_of(keys: &Vec<u32>) -> (order: Vec<usize>)
    ensures
        order@ == stable_order(keys@, keys.len() as nat),
{
    let mut order: Vec<usize> = Vec::new();
    let mut i: usize = 0;
    while i < keys.len()
        invariant
            i <= keys.len(),
            order@ == stable_order(keys@, i as nat),
        decreases keys.len() - i,
    {
        proof {
            lemma_stable_order(keys@, i as nat);
        }
        let x = keys[i];
        let mut p: usize = 0;
        while p < order.len() && keys[order[p]] <= x
            invariant
                i < keys.len(),
                order@ == stable_order(keys@, i as nat),
                is_permutation(order@, i as nat),
                p <= order.len(),
                insert_pos(keys@, order@, x, 0) == insert_pos(keys@, order@, x, p as int),
            decreases order.len() - p,
        {
            p = p + 1;
        }
        proof {
            lemma_insert_pos(keys@, order@, x, 0);
        }
        order.insert(p, i);
        i = i + 1;
    }
    order
}

/// The cells of a string row.
pub open spec fn row_texts(row: Seq<String>) -> Seq<Seq<char>> {
    row.map_values(|s: String| s@)
}

/// The cells of every row of a table.
pub open spec fn table_texts(rows: Seq<Vec<String>>) -> Seq<Seq<Seq<char>>> {
    rows.map_values(|r: Vec<String>| row_texts(r@))
}

/// The row of a record: address, data centre, country, region, city, delay
/// in milliseconds and HTTP status code.
pub open spec fn record_row(r: RecordView) -> Seq<Seq<char>> {
    seq![r.ip, r.colo, r.country, r.region, r.city, decimal(r.delay_ms as nat), r.http_status_code]
}

pub open spec fn header_row() -> Seq<Seq<char>> {
    seq!["IP地址"@, "数据中心"@, "alpha-2"@, "地区"@, "城市"@, "延迟(毫秒)"@, "HTTP状态码"@]
}

pub open spec fn jetbrains_header_row() -> Seq<Seq<char>> {
    seq!["IP地址"@, "延迟(毫秒)"@, "HTTP状态码"@, "jetBrains激活服务器"@]
}

/// A row of the JetBrains report: the first and the last two cells of a
/// record row, and the mark that the host is a licence server.
pub open spec fn jetbrains_row(row: Seq<Seq<char>>) -> Seq<Seq<char>> {
    seq![row[0], row[row.len() - 2], row[row.len() - 1], "true"@]
}

/// The ordering keys of the records.
pub open spec fn record_keys(records: Seq<RecordView>) -> Seq<u32> {
    records.map_values(|r: RecordView| latency_key(r.delay_ms))
}

/// The record rows ordered by delay, equal delays in the order of the records.
pub open spec fn sorted_rows(records: Seq<RecordView>) -> Seq<Seq<Seq<char>>> {
    stable_order(record_keys(records), records.len()).map_values(
        |i: usize| record_row(records[i as int]),
    )
}

/// The report of a scan: a header row, then one row per record ordered by
/// delay; when scanning for JetBrains licence servers, only the address,
/// delay and status code of each record, and a column that marks it.
pub open spec fn report_of(records: Seq<RecordView>, jetbrains: bool) -> Seq<Seq<Seq<char>>> {
    if jetbrains {
        seq![jetbrains_header_row()] + sorted_rows(records).map_values(
            |row: Seq<Seq<char>>| jetbrains_row(row),
        )
    } else {
        seq![header_row()] + sorted_rows(records)
    }
}

/// The views of the records.
pub open spec fn record_views(records: Seq<Record>) -> Seq<RecordView> {
    records.map_values(|r: Record| r@)
}

/// The row of a record (see `record_row`).
pub fn record_to_row(r: &Record) -> (row: Vec<String>)
    ensures
        row.len() == 7,
        row_texts(row@) == record_row(r@),
{
    let row = vec![
        r.ip.clone(),
        r.colo.clone(),
        r.country.clone(),
        r.region.clone(),
        r.city.clone(),
        decimal_string(r.delay_ms),
        r.http_status_code.clone(),
    ];
    assert(row_texts(row@) =~= record_row(r@));
    row
}

fn header() -> (row: Vec<String>)
    ensures
        row_texts(row@) == header_row(),
{
    let row = vec![
        "IP地址".to_string(),
        "数据中心".to_string(),
        "alpha-2".to_string(),
        "地区".to_string(),
        "城市".to_string(),
        "延迟(毫秒)".to_string(),
        "HTTP状态码".to_string(),
    ];
    assert(row_texts(row@) =~= header_row());
    row
}

fn jetbrains_header() -> (row: Vec<String>)
    ensures
        row_texts(row@) == jetbrains_header_row(),
{
    let row = vec![
        "IP地址".to_string(),
        "延迟(毫秒)".to_string(),
        "HTTP状态码".to_string(),
        "jetBrains激活服务器".to_string(),
    ];
    assert(row_texts(row@) =~= jetbrains_header_row());
    row
}

/// The report of a scan (see `report_of`).
pub fn build_report(records: &Vec<Record>, jetbrains: bool) -> (rows: Vec<Vec<String>>)
    ensures
        table_texts(rows@) == report_of(record_views(records@), jetbrains),
{
    let ghost views = record_views(records@);
    let mut keys: Vec<u32> = Vec::new();
    let mut i: usize = 0;
    while i < records.len()
        invariant
            i <= records.len(),
            views == record_views(records@),
            keys@ == record_keys(views).subrange(0, i as int),
        decreases records.len() - i,
    {
        let d = records[i].delay_ms;
        let k: u32 = if d <= 0x7fff_ffff {
            d as u32
        } else {
            0x7fff_ffff
        };
        keys.push(k);
        i = i + 1;
    }
    assert(keys@ =~= record_keys(views));
    let order = stable_order_of(&keys);
    proof {
        lemma_stable_order(keys@, keys.len() as nat);
    }
    let ghost sorted = sorted_rows(views);
    let mut rows: Vec<Vec<String>> = Vec::new();
    if jetbrains {
        rows.push(jetbrains_header());
    } else {
        rows.push(header());
    }
    let mut j: usize = 0;
    while j < order.len()
        invariant
            views == record_views(records@),
            sorted == sorted_rows(views),
            order@ == stable_order(record_keys(views), views.len()),
            is_permutation(order@, views.len()),
            j <= order.len(),
            rows.len() == j + 1,
            table_texts(rows@)[0] == if jetbrains {
                jetbrains_header_row()
            } else {
                header_row()
            },
            forall|a: int|
                1 <= a <= j ==> #[trigger] table_texts(rows@)[a] == if jetbrains {
                    jetbrains_row(sorted[a - 1])
                } else {
                    sorted[a - 1]
                },
        decreases order.len() - j,
    {
        let r = &records[order[j]];
        let row = record_to_row(r);
        let ghost before = rows@;
        if jetbrains {
            let n = row.len();
            let jrow = vec![row[0].clone(), row[n - 2].clone(), row[n - 1].clone(), "true".to_string()];
            assert(row_texts(jrow@) =~= jetbrains_row(sorted[j as int]));
            rows.push(jrow);
        } else {
            rows.push(row);
        }
        assert(table_texts(rows@) =~= table_texts(before).push(table_texts(rows@)[j + 1]));
        j = j + 1;
    }
    assert(table_texts(rows@) =~= report_of(views, jetbrains));
    rows
}

/// A character that forces a CSV field into quotes.
pub open spec fn is_csv_special(c: char) -> bool {
    c == ',' || c == '"' || c == '\n' || c == '\r'
}

/// The field holds a character that forces it into quotes.
pub open spec fn has_csv_special(f: Seq<char>) -> bool
    decreases f.len(),
{
    f.len() > 0 && (has_csv_special(f.drop_last()) || is_csv_special(f.last()))
}

/// The field with each `"` doubled.
pub open spec fn csv_escaped(f: Seq<char>) -> Seq<char>
    decreases f.len(),
{
    if f.len() == 0 {
        Seq::empty()
    } else if f.last() == '"' {
        csv_escaped(f.drop_last()) + seq!['"', '"']
    } else {
        csv_escaped(f.drop_last()).push(f.last())
    }
}

/// A field as written into a CSV line: as it is, or in quotes with each `"`
/// doubled where it holds a comma, a quote or a line break.
pub open spec fn csv_field(f: Seq<char>) -> Seq<char> {
    if has_csv_special(f) {
        seq!['"'] + csv_escaped(f) + seq!['"']
    } else {
        f
    }
}

/// The fields written into CSV and joined by commas.
pub open spec fn csv_fields(fields: Seq<Seq<char>>) -> Seq<char>
    decreases fields.len(),
{
    if fields.len() == 0 {
        Seq::empty()
    } else if fields.len() == 1 {
        csv_field(fields[0])
    } else {
        csv_fields(fields.drop_last()) + seq![','] + csv_field(fields.last())
    }
}

/// A CSV line: the fields joined by commas, ended by a line feed.
pub open spec fn csv_line_of(fields: Seq<Seq<char>>) -> Seq<char> {
    csv_fields(fields).push('\n')
}

fn push_csv_field(out: &mut String, f: &String)
    ensures
        final(out)@ == old(out)@ + csv_field(f@),
{
    let c = chars_of(f.as_str());
    let mut special = false;
    let mut i: usize = 0;
    while i < c.len()
        invariant
            i <= c.len(),
            c@ == f@,
            special == has_csv_special(c@.subrange(0, i as int)),
        decreases c.len() - i,
    {
        assert(c@.subrange(0, i + 1).drop_last() =~= c@.subrange(0, i as int));
        special = special || c[i] == ',' || c[i] == '"' || c[i] == '\n' || c[i] == '\r';
        i = i + 1;
    }
    assert(c@.subrange(0, c.len() as int) =~= c@);
    if !special {
        out.append(f.as_str());
        return;
    }
    push_char(out, '"');
    let ghost start = out@;
    let mut k: usize = 0;
    while k < c.len()
        invariant
            k <= c.len(),
            c@ == f@,
            out@ == start + csv_escaped(c@.subrange(0, k as int)),
        decreases c.len() - k,
    {
        assert(c@.subrange(0, k + 1).drop_last() =~= c@.subrange(0, k as int));
        if c[k] == '"' {
            push_char(out, '"');
            push_char(out, '"');
        } else {
            push_char(out, c[k]);
        }
        k = k + 1;
    }
    push_char(out, '"');
}

/// The inside of a quoted CSV field read back: each `""` stands for one `"`.
pub open spec fn csv_unescape(e: Seq<char>) -> Seq<char>
    decreases e.len(),
{
    if e.len() == 0 {
        Seq::empty()
    } else if e.len() >= 2 && e.last() == '"' && e[e.len() - 2] == '"' {
        csv_unescape(e.subrange(0, e.len() - 2)).push('"')
    } else {
        csv_unescape(e.drop_last()).push(e.last())
    }
}

proof fn lemma_unescape_escaped(f: Seq<char>)
    ensures
        csv_unescape(csv_escaped(f)) == f,
    decreases f.len(),
{
    if f.len() > 0 {
        lemma_unescape_escaped(f.drop_last());
        let e = csv_escaped(f);
        let e0 = csv_escaped(f.drop_last());
        if f.last() == '"' {
            assert(e.subrange(0, e.len() - 2) =~= e0);
        } else {
            assert(e.drop_last() =~= e0);
        }
        assert(f.drop_last().push(f.last()) =~= f);
    }
}

proof fn lemma_has_csv_special(f: Seq<char>)
    ensures
        has_csv_special(f) <==> exists|i: int|
            0 <= i < f.len() && (#[trigger] f[i] == ',' || f[i] == '"' || f[i] == '\n' || f[i] == '\r'),
    decreases f.len(),
{
    if f.len() > 0 {
        lemma_has_csv_special(f.drop_last());
        if has_csv_special(f.drop_last()) {
            let i = choose|i: int|
                0 <= i < f.drop_last().len() && (#[trigger] f.drop_last()[i] == ',' || f.drop_last()[i]
                    == '"' || f.drop_last()[i] == '\n' || f.drop_last()[i] == '\r');
            assert(f[i] == f.drop_last()[i]);
        }
        if exists|i: int|
            0 <= i < f.len() && (#[trigger] f[i] == ',' || f[i] == '"' || f[i] == '\n' || f[i] == '\r') {
            let i = choose|i: int|
                0 <= i < f.len() && (#[trigger] f[i] == ',' || f[i] == '"' || f[i] == '\n' || f[i]
                    == '\r');
            if i < f.len() - 1 {
                assert(f.drop_last()[i] == f[i]);
            }
        }
    }
}

/// A field goes into a CSV line as it is where it holds no comma, quote or
/// line break; otherwise it goes in quotes, and what stands between them,
/// each `""` read as one `"`, is the field again.
pub proof fn lemma_csv_field(f: Seq<char>)
    ensures
        (forall|i: int|
            0 <= i < f.len() ==> #[trigger] f[i] != ',' && f[i] != '"' && f[i] != '\n' && f[i] != '\r')
            ==> csv_field(f) == f,
        (exists|i: int|
            0 <= i < f.len() && (#[trigger] f[i] == ',' || f[i] == '"' || f[i] == '\n' || f[i] == '\r'))
            ==> {
            let w = csv_field(f);
            &&& w.len() >= 2
            &&& w[0] == '"'
            &&& w[w.len() - 1] == '"'
            &&& csv_unescape(w.subrange(1, w.len() - 1)) == f
        },
{
    lemma_has_csv_special(f);
    lemma_unescape_escaped(f);
    if has_csv_special(f) {
        let w = csv_field(f);
        assert(w.subrange(1, w.len() - 1) =~= csv_escaped(f));
    }
}

/// A CSV line of the fields (see `csv_line_of`).
pub fn csv_line(fields: &Vec<String>) -> (line: String)
    ensures
        line@ == csv_line_of(row_texts(fields@)),
{
    let mut out = String::new();
    let mut i: usize = 0;
    while i < fields.len()
        invariant
            i <= fields.len(),
            out@ == csv_fields(row_texts(fields@).subrange(0, i as int)),
        decreases fields.len() - i,
    {
        let ghost done = row_texts(fields@).subrange(0, i as int);
        assert(row_texts(fields@).subrange(0, i + 1).drop_last() =~= done);
        if i > 0 {
            push_char(&mut out, ',');
        }
        push_csv_field(&mut out, &fields[i]);
        i = i + 1;
    }
    assert(row_texts(fields@).subrange(0, fields.len() as int) =~= row_texts(fields@));
    push_char(&mut out, '\n');
    out
}

/// The row a report holds for a record.
pub open spec fn report_row(r: RecordView, jetbrains: bool) -> Seq<Seq<char>> {
    if jetbrains {
        jetbrains_row(record_row(r))
    } else {
        record_row(r)
    }
}

/// `order` lists the records once each, ordered by delay with ties in the
/// order they were given in, and the report's rows below its header follow it.
pub open spec fn report_follows(records: Seq<RecordView>, jetbrains: bool, order: Seq<usize>) -> bool {
    &&& is_permutation(order, records.len())
    &&& is_stably_sorted(record_keys(records), order)
    &&& forall|i: int|
        0 <= i < records.len() ==> #[trigger] report_of(records, jetbrains)[i + 1] == report_row(
            records[order[i] as int],
            jetbrains,
        )
}

/// A report is its header row followed by one row per record: every record
/// exactly once, ordered by delay, records of equal delay in the order they
/// were given in.
pub proof fn lemma_report_rows(records: Seq<RecordView>, jetbrains: bool)
    requires
        records.len() <= usize::MAX,
    ensures
        report_of(records, jetbrains).len() == records.len() + 1,
        report_of(records, jetbrains)[0] == if jetbrains {
            jetbrains_header_row()
        } else {
            header_row()
        },
        exists|order: Seq<usize>| #[trigger] report_follows(records, jetbrains, order),
{
    let keys = record_keys(records);
    let order = stable_order(keys, records.len());
    lemma_stable_order(keys, records.len());
    assert(report_follows(records, jetbrains, order));
}

/// `order` lists each record once, the report's rows below its header follow
/// it, and along it the delays never decrease, where every delay of at least
/// `i32::MAX` milliseconds counts as `i32::MAX`: a record comes after one of
/// larger delay only when both delays reach that bound, and records whose
/// delays are equal (or both reach the bound) keep the order they were given in.
pub open spec fn rows_by_delay(records: Seq<RecordView>, jetbrains: bool, order: Seq<usize>) -> bool {
    &&& is_permutation(order, records.len())
    &&& forall|i: int|
        0 <= i < records.len() ==> #[trigger] report_of(records, jetbrains)[i + 1] == report_row(
            records[order[i] as int],
            jetbrains,
        )
    &&& forall|i: int, j: int|
        0 <= i < j < records.len() ==> {
            let di = #[trigger] records[order[i] as int].delay_ms;
            let dj = #[trigger] records[order[j] as int].delay_ms;
            &&& dj < di ==> dj >= 0x7fff_ffff
            &&& (di == dj || (di >= 0x7fff_ffff && dj >= 0x7fff_ffff)) ==> order[i] < order[j]
        }
}

/// The rows of a report below its header hold every record once, ordered
/// by delay (delays from `i32::MAX` milliseconds on counting as equal), with
/// records of equal delay in the order they were given in.
pub proof fn lemma_report_ordered_by_delay(records: Seq<RecordView>, jetbrains: bool)
    requires
        records.len() <= usize::MAX,
    ensures
        report_of(records, jetbrains).len() == records.len() + 1,
        exists|order: Seq<usize>| #[trigger] rows_by_delay(records, jetbrains, order),
{
    lemma_report_rows(records, jetbrains);
    let order = choose|order: Seq<usize>| #[trigger] report_follows(records, jetbrains, order);
    let keys = record_keys(records);
    assert forall|i: int, j: int| 0 <= i < j < records.len() implies {
        let di = #[trigger] records[order[i] as int].delay_ms;
        let dj = #[trigger] records[order[j] as int].delay_ms;
        &&& dj < di ==> dj >= 0x7fff_ffff
        &&& (di == dj || (di >= 0x7fff_ffff && dj >= 0x7fff_ffff)) ==> order[i] < order[j]
    } by {
        let di = records[order[i] as int].delay_ms;
        let dj = records[order[j] as int].delay_ms;
        assert(order[i] < records.len() && order[j] < records.len());
        assert(keys[order[i] as int] == latency_key(di));
        assert(keys[order[j] as int] == latency_key(dj));
        assert(keys[order[i] as int] <= keys[order[j] as int]);
    }
    assert(rows_by_delay(records, jetbrains, order));
}

} // verus!
