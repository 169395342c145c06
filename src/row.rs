use vstd::prelude::*;

use crate::decimal::{append_decimal, append_signed_decimal, decimal, signed_decimal};

verus! {

/// One cell of a row result: column family, qualifier, value and the
/// store-assigned timestamp. The byte fields are copies of the buffers the
/// store hands out.
#[allow(non_camel_case_types)]
pub struct hb_cell_type {
    pub row: Vec<u8>,
    pub family: Vec<u8>,
    pub qualifier: Vec<u8>,
    pub value: Vec<u8>,
    pub ts: i64,
    pub flags_: i64,
}

/// The field whose bytes were not valid UTF-8, with the index of its cell.
#[derive(PartialEq, Eq, Structural, Clone, Copy, Debug)]
pub enum DecodeFailure {
    Key,
    Family(usize),
    Qualifier(usize),
    Value(usize),
}

/// The text that `std::str::from_utf8` decodes from `b`, or `None` where `b`
/// is not valid UTF-8.
pub uninterp spec fn utf8_text(b: Seq<u8>) -> Option<Seq<char>>;

/// Relies on std::str::from_utf8: it accepts exactly the valid UTF-8 byte
/// sequences, and its result depends on the bytes alone.
#[verifier::external_body]
fn decode_utf8(b: &[u8]) -> (r: Option<String>)
    ensures
        match r {
            Some(s) => utf8_text(b@) == Some(s@),
            None => utf8_text(b@).is_none(),
        },
{
    std::str::from_utf8(b).ok().map(|s| s.to_string())
}

/// `Row <key>,cell count <count>`
pub open spec fn header_text(key: Seq<char>, count: nat) -> Seq<char> {
    seq!['R', 'o', 'w', ' '] + key + seq![',', 'c', 'e', 'l', 'l', ' ', 'c', 'o', 'u', 'n', 't', ' ']
        + decimal(count)
}

/// `Cell <i> family=<f> qualifier=<q> value=<v> timestamp=<ts> `
pub open spec fn cell_text(i: nat, f: Seq<char>, q: Seq<char>, v: Seq<char>, ts: int) -> Seq<
    char,
> {
    seq!['C', 'e', 'l', 'l', ' '] + decimal(i) + seq![' ', 'f', 'a', 'm', 'i', 'l', 'y', '=']
        + f + seq![' ', 'q', 'u', 'a', 'l', 'i', 'f', 'i', 'e', 'r', '='] + q + seq![
        ' ',
        'v',
        'a',
        'l',
        'u',
        'e',
        '=',
    ] + v + seq![' ', 't', 'i', 'm', 'e', 's', 't', 'a', 'm', 'p', '='] + signed_decimal(ts)
        + seq![' ']
}

/// The line for cell `i`, or the first of its fields (family, qualifier,
/// value) that does not decode.
pub open spec fn cell_line(i: nat, c: hb_cell_type) -> Result<Seq<char>, DecodeFailure> {
    match utf8_text(c.family@) {
        None => Err(DecodeFailure::Family(i as usize)),
        Some(f) => match utf8_text(c.qualifier@) {
            None => Err(DecodeFailure::Qualifier(i as usize)),
            Some(q) => match utf8_text(c.value@) {
                None => Err(DecodeFailure::Value(i as usize)),
                Some(v) => Ok(cell_text(i, f, q, v, c.ts as int)),
            },
        },
    }
}

/// The lines for the first `n` cells, stopping before the first cell that
/// does not decode, and that cell's failure.
pub open spec fn cell_lines(cells: Seq<hb_cell_type>, n: nat) -> (Seq<Seq<char>>, Option<
    DecodeFailure,
>)
    decreases n,
{
    if n == 0 {
        (seq![], None)
    } else {
        let (lines, fail) = cell_lines(cells, (n - 1) as nat);
        if fail.is_some() {
            (lines, fail)
        } else {
            match cell_line((n - 1) as nat, cells[n - 1]) {
                Ok(l) => (lines.push(l), None),
                Err(e) => (lines, Some(e)),
            }
        }
    }
}

/// The report of one row: the header line, then one line per cell, up to the
/// first field that is not valid UTF-8, and that failure if there is one.
pub open spec fn row_report(key: Seq<u8>, count: nat, cells: Seq<hb_cell_type>) -> (
    Seq<Seq<char>>,
    Option<DecodeFailure>,
) {
    match utf8_text(key) {
        None => (seq![], Some(DecodeFailure::Key)),
        Some(k) => {
            let (lines, fail) = cell_lines(cells, cells.len());
            (seq![header_text(k, count)] + lines, fail)
        },
    }
}

/// What materializing a row produced: the lines to emit, in order, and the
/// decoding failure that ends the run, if any.
pub struct RowReport {
    pub lines: Vec<String>,
    pub failure: Option<DecodeFailure>,
}

impl RowReport {
    pub open spec fn lines_view(&self) -> Seq<Seq<char>> {
        self.lines@.map_values(|s: String| s@)
    }
}

/// The header line of a row whose key decoded to `key`.
pub fn header_line(key: &str, cell_count: usize) -> (r: String)
    ensures
        r@ == header_text(key@, cell_count as nat),
{
    proof {
        reveal_strlit("Row ");
        reveal_strlit(",cell count ");
    }
    let mut s = String::from_str("Row ");
    s.append(key);
    s.append(",cell count ");
    append_decimal(&mut s, cell_count as u64);
    assert(s@ =~= header_text(key@, cell_count as nat));
    s
}

/// The line of cell `index` whose fields decoded to `family`, `qualifier`
/// and `value`.
pub fn cell_line_text(index: usize, family: &str, qualifier: &str, value: &str, ts: i64) -> (r:
    String)
    ensures
        r@ == cell_text(index as nat, family@, qualifier@, value@, ts as int),
{
    proof {
        reveal_strlit("Cell ");
        reveal_strlit(" family=");
        reveal_strlit(" qualifier=");
        reveal_strlit(" value=");
        reveal_strlit(" timestamp=");
        reveal_strlit(" ");
    }
    let mut s = String::from_str("Cell ");
    append_decimal(&mut s, index as u64);
    s.append(" family=");
    s.append(family);
    s.append(" qualifier=");
    s.append(qualifier);
    s.append(" value=");
    s.append(value);
    s.append(" timestamp=");
    append_signed_decimal(&mut s, ts);
    s.append(" ");
    assert(s@ =~= cell_text(index as nat, family@, qualifier@, value@, ts as int));
    s
}

/// Decodes one cell and renders its line.
pub fn render_cell(index: usize, c: &hb_cell_type) -> (r: Result<String, DecodeFailure>)
    ensures
        match (r, cell_line(index as nat, *c)) {
            (Ok(s), Ok(l)) => s@ == l,
            (Err(e), Err(f)) => e == f,
            _ => false,
        },
{
    let family = match decode_utf8(c.family.as_slice()) {
        Some(f) => f,
        None => return Err(DecodeFailure::Family(index)),
    };
    let qualifier = match decode_utf8(c.qualifier.as_slice()) {
        Some(q) => q,
        None => return Err(DecodeFailure::Qualifier(index)),
    };
    let value = match decode_utf8(c.value.as_slice()) {
        Some(v) => v,
        None => return Err(DecodeFailure::Value(index)),
    };
    Ok(cell_line_text(index, family.as_str(), qualifier.as_str(), value.as_str(), c.ts))
}

/// Materializes one row result: its key and cell count as a header line,
/// then each cell in order. Decoding stops at the first field that is not
/// valid UTF-8; the lines rendered before it are kept.
pub fn render_row(key: &[u8], cell_count: usize, cells: &[hb_cell_type]) -> (r: RowReport)
    ensures
        (r.lines_view(), r.failure) == row_report(key@, cell_count as nat, cells@),
{
    let k = match decode_utf8(key) {
        Some(k) => k,
        None => {
            let r = RowReport { lines: Vec::new(), failure: Some(DecodeFailure::Key) };
            assert(r.lines_view() =~= seq![]);
            return r;
        },
    };
    let mut lines: Vec<String> = Vec::new();
    lines.push(header_line(k.as_str(), cell_count));
    let ghost head = header_text(k@, cell_count as nat);
    let mut i: usize = 0;
    while i < cells.len()
        invariant
            i <= cells@.len(),
            utf8_text(key@) == Some(k@),
            head == header_text(k@, cell_count as nat),
            cell_lines(cells@, i as nat).1.is_none(),
            lines@.map_values(|s: String| s@) == seq![head] + cell_lines(cells@, i as nat).0,
        decreases cells@.len() - i,
    {
        let ghost before = lines@.map_values(|s: String| s@);
        match render_cell(i, &cells[i]) {
            Ok(l) => {
                lines.push(l);
                proof {
                    assert(lines@.map_values(|s: String| s@) =~= before.push(l@));
                    assert(seq![head] + cell_lines(cells@, (i + 1) as nat).0 =~= before.push(l@));
                }
            },
            Err(e) => {
                let r = RowReport { lines, failure: Some(e) };
                proof {
                    assert(cell_lines(cells@, (i + 1) as nat).1 == Some(e));
                    lemma_failure_sticks(cells@, (i + 1) as nat, cells@.len());
                }
                return r;
            },
        }
        i += 1;
    }
    RowReport { lines, failure: None }
}

proof fn lemma_failure_sticks(cells: Seq<hb_cell_type>, m: nat, n: nat)
    requires
        m <= n,
        cell_lines(cells, m).1.is_some(),
    ensures
        cell_lines(cells, n) == cell_lines(cells, m),
    decreases n - m,
{
    if m < n {
        lemma_failure_sticks(cells, m, (n - 1) as nat);
    }
}

} // verus!
