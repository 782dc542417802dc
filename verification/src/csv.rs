//! The CSV snapshot reader: the outside crate tokenizes the text into
//! rows of cells, and the verified mapping turns rows into records.
//! The first row names the columns; column 0 is the entry text, and
//! the nine recognised flag columns are read as booleans, a cell
//! counting as true when its trimmed, lowercased text is `true`, `1`
//! or `yes`.  Rows with an empty or absent entry cell are skipped.

use vstd::prelude::*;
use vstd::utf8::encode_utf8;

use crate::flags::ReputationFlags;

verus! {

/// One parsed snapshot row: the entry text and its flags.
#[derive(Debug)]
pub struct CsvRecord {
    pub ip: String,
    pub flags: ReputationFlags,
}

/// The rows of cells that the CSV tokenizer yields for a text,
/// header row included.
pub uninterp spec fn csv_rows_of(s: Seq<char>) -> Seq<Seq<Seq<char>>>;

/// Relies on `csv::ReaderBuilder` and `StringRecord`: tokenizes the
/// text by the CSV rules, flexibly in the number of cells per row,
/// yielding every row in order.  On in-memory, valid-UTF-8 input with
/// flexible row lengths the reader has nothing to fail on, so the
/// call always succeeds.
#[verifier::external_body]
fn csv_rows(content: &str) -> (r: Result<Vec<Vec<String>>, String>)
    ensures
        r is Ok,
        r matches Ok(v) ==> v.deep_view() == csv_rows_of(content@),
{
    let mut reader = csv::ReaderBuilder::new().has_headers(false).flexible(true).from_reader(
        content.as_bytes(),
    );
    let mut out: Vec<Vec<String>> = Vec::new();
    for rec in reader.records() {
        match rec {
            Ok(row) => out.push(row.iter().map(|c| c.to_string()).collect()),
            Err(e) => return Err(e.to_string()),
        }
    }
    Ok(out)
}

pub open spec fn spec_is_ws(b: u8) -> bool {
    b == 32 || b == 9 || b == 10 || b == 13
}

pub open spec fn spec_lower(b: u8) -> u8 {
    if 65 <= b <= 90 {
        (b + 32) as u8
    } else {
        b
    }
}

/// Position of the first byte at or after `i` that is not whitespace.
pub open spec fn ws_start(bs: Seq<u8>, i: int) -> int
    recommends
        0 <= i <= bs.len(),
    decreases bs.len() - i,
{
    if 0 <= i < bs.len() && spec_is_ws(bs[i]) {
        ws_start(bs, i + 1)
    } else {
        i
    }
}

/// Position after the last non-whitespace byte before `j`.
pub open spec fn ws_end(bs: Seq<u8>, j: int) -> int
    recommends
        0 <= j <= bs.len(),
    decreases j,
{
    if 0 < j <= bs.len() && spec_is_ws(bs[j - 1]) {
        ws_end(bs, j - 1)
    } else {
        j
    }
}

/// The trimmed, lowercased bytes of a cell.
pub open spec fn spec_norm_cell(bs: Seq<u8>) -> Seq<u8> {
    let s = ws_start(bs, 0);
    let e = ws_end(bs, bs.len() as int);
    if s <= e {
        bs.subrange(s, e).map_values(|b: u8| spec_lower(b))
    } else {
        Seq::empty()
    }
}

/// A cell reads as true when its normal form is `true`, `1` or `yes`.
pub open spec fn spec_parse_bool(bs: Seq<u8>) -> bool {
    ||| spec_norm_cell(bs) == seq![116u8, 114u8, 117u8, 101u8]
    ||| spec_norm_cell(bs) == seq![49u8]
    ||| spec_norm_cell(bs) == seq![121u8, 101u8, 115u8]
}

/// Whether a cell's text reads as true.
pub fn parse_bool(s: &str) -> (r: bool)
    ensures
        r == spec_parse_bool(encode_utf8(s@)),
{
    let bs = s.as_bytes();
    let n = bs.len();
    let mut st: usize = 0;
    while st < n && (bs[st] == 32 || bs[st] == 9 || bs[st] == 10 || bs[st] == 13)
        invariant
            st <= n,
            n == bs@.len(),
            ws_start(bs@, 0) == ws_start(bs@, st as int),
        decreases n - st,
    {
        st = st + 1;
    }
    let mut en: usize = n;
    while en > st && (bs[en - 1] == 32 || bs[en - 1] == 9 || bs[en - 1] == 10 || bs[en - 1] == 13)
        invariant
            st <= en <= n,
            n == bs@.len(),
            ws_start(bs@, 0) == st as int,
            ws_end(bs@, n as int) == ws_end(bs@, en as int),
        decreases en,
    {
        en = en - 1;
    }
    proof {
        lemma_ws_end_le(bs@, en as int);
        if en > st {
            assert(ws_end(bs@, en as int) == en as int);
        }
    }
    let mut norm: Vec<u8> = Vec::new();
    let mut i: usize = st;
    while i < en
        invariant
            st <= i <= en <= n,
            n == bs@.len(),
            norm@.len() == i - st,
            forall|j: int| 0 <= j < norm@.len() ==> norm@[j] == spec_lower(bs@[st + j]),
        decreases en - i,
    {
        let b = bs[i];
        let lb: u8 = if 65 <= b && b <= 90 {
            b + 32
        } else {
            b
        };
        norm.push(lb);
        i = i + 1;
    }
    proof {
        if st < en {
            assert(norm@ =~= bs@.subrange(st as int, en as int).map_values(
                |b: u8| spec_lower(b),
            ));
            assert(norm@ =~= spec_norm_cell(bs@));
        } else {
            let e = ws_end(bs@, bs@.len() as int);
            assert(e == ws_end(bs@, en as int));
            assert(e <= en);
            if st as int <= e {
                assert(e == st as int);
                assert(bs@.subrange(st as int, e).map_values(|b: u8| spec_lower(b)) =~= Seq::<
                    u8,
                >::empty());
            }
            assert(norm@ =~= spec_norm_cell(bs@));
        }
    }
    let r = (norm.len() == 4 && norm[0] == 116 && norm[1] == 114 && norm[2] == 117 && norm[3]
        == 101) || (norm.len() == 1 && norm[0] == 49) || (norm.len() == 3 && norm[0] == 121
        && norm[1] == 101 && norm[2] == 115);
    proof {
        if r {
            if norm@.len() == 4 {
                assert(norm@ =~= seq![116u8, 114u8, 117u8, 101u8]);
            } else if norm@.len() == 1 {
                assert(norm@ =~= seq![49u8]);
            } else {
                assert(norm@ =~= seq![121u8, 101u8, 115u8]);
            }
        } else {
            assert(norm@ != seq![116u8, 114u8, 117u8, 101u8] && norm@ != seq![49u8] && norm@
                != seq![121u8, 101u8, 115u8]) by {
                if norm@.len() == 4 {
                    assert(seq![116u8, 114u8, 117u8, 101u8].len() == 4);
                    assert(seq![49u8].len() == 1);
                    assert(seq![121u8, 101u8, 115u8].len() == 3);
                } else if norm@.len() == 1 {
                } else if norm@.len() == 3 {
                }
            }
        }
    }
    r
}

/// Trimming from the right never grows the range.
proof fn lemma_ws_end_le(bs: Seq<u8>, j: int)
    requires
        0 <= j <= bs.len(),
    ensures
        ws_end(bs, j) <= j,
    decreases j,
{
    if 0 < j <= bs.len() && spec_is_ws(bs[j - 1]) {
        lemma_ws_end_le(bs, j - 1);
    }
}

/// First column index whose header text is `name`, if any.
pub open spec fn spec_find_hdr(hdr: Seq<Seq<char>>, name: Seq<char>, i: int) -> Option<int>
    recommends
        0 <= i <= hdr.len(),
    decreases hdr.len() - i,
{
    if 0 <= i < hdr.len() {
        if hdr[i] == name {
            Some(i)
        } else {
            spec_find_hdr(hdr, name, i + 1)
        }
    } else {
        None
    }
}

/// The boolean a row's cell denotes under an optional column index.
pub open spec fn spec_cell_bool(row: Seq<Seq<char>>, o: Option<int>) -> bool {
    match o {
        Some(i) => if 0 <= i < row.len() {
            spec_parse_bool(encode_utf8(row[i]))
        } else {
            false
        },
        None => false,
    }
}

/// The flags a row denotes under a header row.
pub open spec fn spec_row_flags(hdr: Seq<Seq<char>>, row: Seq<Seq<char>>) -> ReputationFlags {
    ReputationFlags {
        anonblock: spec_cell_bool(row, spec_find_hdr(hdr, "anonblock"@, 0)),
        proxy: spec_cell_bool(row, spec_find_hdr(hdr, "proxy"@, 0)),
        vpn: spec_cell_bool(row, spec_find_hdr(hdr, "vpn"@, 0)),
        cdn: spec_cell_bool(row, spec_find_hdr(hdr, "cdn"@, 0)),
        public_wifi: spec_cell_bool(row, spec_find_hdr(hdr, "public-wifi"@, 0)),
        rangeblock: spec_cell_bool(row, spec_find_hdr(hdr, "rangeblock"@, 0)),
        school_block: spec_cell_bool(row, spec_find_hdr(hdr, "school-block"@, 0)),
        tor: spec_cell_bool(row, spec_find_hdr(hdr, "tor"@, 0)),
        webhost: spec_cell_bool(row, spec_find_hdr(hdr, "webhost"@, 0)),
    }
}

/// What the parsed snapshot holds: the records are exactly the rows
/// after the header whose entry cell is non-empty, in order, each
/// with its entry text and its flags under the header row.
pub open spec fn spec_csv_ok(rows: Seq<Seq<Seq<char>>>, v: Seq<CsvRecord>) -> bool {
    exists|sel: Seq<int>|
        {
            &&& sel.len() == v.len()
            &&& forall|j: int| 0 <= j < sel.len() ==> 1 <= #[trigger] sel[j] < rows.len()
            &&& forall|j1: int, j2: int| 0 <= j1 < j2 < sel.len() ==> sel[j1] < sel[j2]
            &&& forall|j: int|
                0 <= j < sel.len() ==> {
                    let row = rows[#[trigger] sel[j]];
                    &&& row.len() > 0
                    &&& row[0].len() > 0
                    &&& v[j].ip@ == row[0]
                    &&& v[j].flags == spec_row_flags(rows[0], row)
                }
            &&& forall|r: int|
                1 <= r < rows.len() && rows[r].len() > 0 && (#[trigger] rows[r])[0].len() > 0
                    ==> exists|j: int| 0 <= j < sel.len() && sel[j] == r
        }
}

/// Find a header column by name.
fn find_hdr(hdr: &Vec<String>, name: &str) -> (r: Option<usize>)
    ensures
        match r {
            Some(i) => Some(i as int) == spec_find_hdr(hdr.deep_view(), name@, 0),
            None => spec_find_hdr(hdr.deep_view(), name@, 0) is None,
        },
{
    let mut i: usize = 0;
    while i < hdr.len()
        invariant
            i <= hdr@.len(),
            spec_find_hdr(hdr.deep_view(), name@, 0) == spec_find_hdr(
                hdr.deep_view(),
                name@,
                i as int,
            ),
            hdr.deep_view().len() == hdr@.len(),
            forall|j: int| 0 <= j < hdr@.len() ==> hdr.deep_view()[j] == hdr@[j]@,
        decreases hdr@.len() - i,
    {
        let nm = String::from_str(name);
        if hdr[i].eq(&nm) {
            return Some(i);
        }
        i = i + 1;
    }
    None
}

/// Read one optional flag cell of a row.
fn cell_bool(row: &Vec<String>, o: Option<usize>) -> (r: bool)
    ensures
        r == spec_cell_bool(
            row.deep_view(),
            match o {
                Some(i) => Some(i as int),
                None => None,
            },
        ),
{
    proof {
        assert(row.deep_view().len() == row@.len());
        assert(forall|j: int| 0 <= j < row@.len() ==> row.deep_view()[j] == row@[j]@);
    }
    match o {
        Some(i) => {
            if i < row.len() {
                parse_bool(row[i].as_str())
            } else {
                false
            }
        },
        None => false,
    }
}

/// Map tokenized rows to records: skip the header and every row with
/// an empty entry cell; read the flags under the header.
pub fn csv_records_of_rows(rows: &Vec<Vec<String>>) -> (v: Vec<CsvRecord>)
    ensures
        spec_csv_ok(rows.deep_view(), v@),
{
    let mut v: Vec<CsvRecord> = Vec::new();
    let ghost rowsv = rows.deep_view();
    let ghost mut sel: Seq<int> = Seq::empty();
    if rows.len() == 0 {
        proof {
            assert(spec_csv_ok(rowsv, v@)) by {
                assert(sel.len() == v@.len());
            }
        }
        return v;
    }
    let hdr = &rows[0];
    let anonblock = find_hdr(hdr, "anonblock");
    let proxy = find_hdr(hdr, "proxy");
    let vpn = find_hdr(hdr, "vpn");
    let cdn = find_hdr(hdr, "cdn");
    let public_wifi = find_hdr(hdr, "public-wifi");
    let rangeblock = find_hdr(hdr, "rangeblock");
    let school_block = find_hdr(hdr, "school-block");
    let tor = find_hdr(hdr, "tor");
    let webhost = find_hdr(hdr, "webhost");
    let mut r: usize = 1;
    while r < rows.len()
        invariant
            1 <= r <= rows@.len(),
            rowsv == rows.deep_view(),
            rowsv.len() == rows@.len(),
            forall|j: int| 0 <= j < rows@.len() ==> #[trigger] rowsv[j] == rows@[j].deep_view(),
            sel.len() == v@.len(),
            forall|j: int| 0 <= j < sel.len() ==> 1 <= #[trigger] sel[j] < r,
            forall|j1: int, j2: int| 0 <= j1 < j2 < sel.len() ==> sel[j1] < sel[j2],
            forall|j: int|
                0 <= j < sel.len() ==> {
                    let row = rowsv[#[trigger] sel[j]];
                    &&& row.len() > 0
                    &&& row[0].len() > 0
                    &&& v@[j].ip@ == row[0]
                    &&& v@[j].flags == spec_row_flags(rowsv[0], row)
                },
            forall|r2: int|
                1 <= r2 < r && rowsv[r2].len() > 0 && (#[trigger] rowsv[r2])[0].len() > 0
                    ==> exists|j: int| 0 <= j < sel.len() && sel[j] == r2,
            Some(anonblock is Some) == Some(spec_find_hdr(rowsv[0], "anonblock"@, 0) is Some),
            match anonblock {
                Some(i) => Some(i as int) == spec_find_hdr(rowsv[0], "anonblock"@, 0),
                None => spec_find_hdr(rowsv[0], "anonblock"@, 0) is None,
            },
            match proxy {
                Some(i) => Some(i as int) == spec_find_hdr(rowsv[0], "proxy"@, 0),
                None => spec_find_hdr(rowsv[0], "proxy"@, 0) is None,
            },
            match vpn {
                Some(i) => Some(i as int) == spec_find_hdr(rowsv[0], "vpn"@, 0),
                None => spec_find_hdr(rowsv[0], "vpn"@, 0) is None,
            },
            match cdn {
                Some(i) => Some(i as int) == spec_find_hdr(rowsv[0], "cdn"@, 0),
                None => spec_find_hdr(rowsv[0], "cdn"@, 0) is None,
            },
            match public_wifi {
                Some(i) => Some(i as int) == spec_find_hdr(rowsv[0], "public-wifi"@, 0),
                None => spec_find_hdr(rowsv[0], "public-wifi"@, 0) is None,
            },
            match rangeblock {
                Some(i) => Some(i as int) == spec_find_hdr(rowsv[0], "rangeblock"@, 0),
                None => spec_find_hdr(rowsv[0], "rangeblock"@, 0) is None,
            },
            match school_block {
                Some(i) => Some(i as int) == spec_find_hdr(rowsv[0], "school-block"@, 0),
                None => spec_find_hdr(rowsv[0], "school-block"@, 0) is None,
            },
            match tor {
                Some(i) => Some(i as int) == spec_find_hdr(rowsv[0], "tor"@, 0),
                None => spec_find_hdr(rowsv[0], "tor"@, 0) is None,
            },
            match webhost {
                Some(i) => Some(i as int) == spec_find_hdr(rowsv[0], "webhost"@, 0),
                None => spec_find_hdr(rowsv[0], "webhost"@, 0) is None,
            },
        decreases rows@.len() - r,
    {
        let ghost sel0 = sel;
        let row = &rows[r];
        let nonempty = row.len() > 0 && !row[0].as_str().is_empty();
        if nonempty {
            let flags = ReputationFlags {
                anonblock: cell_bool(row, anonblock),
                proxy: cell_bool(row, proxy),
                vpn: cell_bool(row, vpn),
                cdn: cell_bool(row, cdn),
                public_wifi: cell_bool(row, public_wifi),
                rangeblock: cell_bool(row, rangeblock),
                school_block: cell_bool(row, school_block),
                tor: cell_bool(row, tor),
                webhost: cell_bool(row, webhost),
            };
            let ip = row[0].clone();
            v.push(CsvRecord { ip, flags });
            proof {
                sel = sel0.push(r as int);
                assert(rowsv[r as int] == rows@[r as int].deep_view());
                assert(flags == spec_row_flags(rowsv[0], rowsv[r as int]));
            }
        }
        proof {
            assert(rowsv[r as int] == rows@[r as int].deep_view());
            assert forall|r2: int|
                1 <= r2 < r + 1 && rowsv[r2].len() > 0 && (#[trigger] rowsv[r2])[0].len() > 0
                implies exists|j: int| 0 <= j < sel.len() && sel[j] == r2 by {
                if r2 < r {
                    let j0 = choose|j: int| 0 <= j < sel0.len() && sel0[j] == r2;
                    assert(sel[j0] == r2);
                } else {
                    assert(nonempty);
                    assert(sel[sel.len() - 1] == r2);
                }
            }
        }
        r = r + 1;
    }
    proof {
        assert(spec_csv_ok(rowsv, v@)) by {
            assert(sel.len() == v@.len());
        }
    }
    v
}

/// Parse a whole snapshot text into its records.
pub fn parse_csv_parallel(content: &str) -> (r: Result<Vec<CsvRecord>, String>)
    ensures
        r is Ok,
        r matches Ok(v) ==> spec_csv_ok(csv_rows_of(content@), v@),
{
    let rows = match csv_rows(content) {
        Ok(rows) => rows,
        Err(e) => {
            return Err(e);
        },
    };
    Ok(csv_records_of_rows(&rows))
}

} // verus!
