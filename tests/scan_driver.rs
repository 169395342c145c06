use hbase_scan::decimal::{append_decimal, append_signed_decimal};
use hbase_scan::row::{cell_line_text, header_line, hb_cell_type, render_cell, render_row, DecodeFailure};
use hbase_scan::scan::{ScanAction, ScanLoop, ScanPhase};

fn cell(family: &[u8], qualifier: &[u8], value: &[u8], ts: i64) -> hb_cell_type {
    hb_cell_type {
        row: Vec::new(),
        family: family.to_vec(),
        qualifier: qualifier.to_vec(),
        value: value.to_vec(),
        ts,
        flags_: 0,
    }
}

/// Runs a scan over successful pages of the given sizes, returning every step
/// in order and the final state.
fn drive(pages: &[usize]) -> (Vec<ScanAction>, ScanLoop) {
    let mut s = ScanLoop::new();
    let mut trace = Vec::new();
    for &n in pages {
        assert!(s.accepts(n));
        trace.extend(s.on_page(0, n));
    }
    (trace, s)
}

#[test]
fn decimal_rendering() {
    let mut s = String::new();
    append_decimal(&mut s, 0);
    s.push(' ');
    append_decimal(&mut s, 1200);
    s.push(' ');
    append_decimal(&mut s, u64::MAX);
    assert_eq!(s, "0 1200 18446744073709551615");
    let mut t = String::new();
    append_signed_decimal(&mut t, -42);
    t.push(' ');
    append_signed_decimal(&mut t, i64::MIN);
    t.push(' ');
    append_signed_decimal(&mut t, 7);
    assert_eq!(t, "-42 -9223372036854775808 7");
}

#[test]
fn header_and_cell_lines() {
    assert_eq!(header_line("r1", 1), "Row r1,cell count 1");
    assert_eq!(
        cell_line_text(0, "f", "q", "v1", 100),
        "Cell 0 family=f qualifier=q value=v1 timestamp=100 "
    );
    assert_eq!(
        cell_line_text(12, "", "", "", -5),
        "Cell 12 family= qualifier= value= timestamp=-5 "
    );
}

#[test]
fn render_cell_decodes_fields() {
    let c = cell("fam".as_bytes(), "é".as_bytes(), b"", 3);
    assert_eq!(render_cell(2, &c), Ok("Cell 2 family=fam qualifier=é value= timestamp=3 ".to_string()));
    assert_eq!(render_cell(1, &cell(&[0xff], b"q", b"v", 0)), Err(DecodeFailure::Family(1)));
    assert_eq!(render_cell(4, &cell(b"f", &[0xc3], b"v", 0)), Err(DecodeFailure::Qualifier(4)));
    assert_eq!(render_cell(0, &cell(b"f", b"q", &[0x80, 0x41], 0)), Err(DecodeFailure::Value(0)));
}

#[test]
fn scenario_one_page_two_rows() {
    let (trace, s) = drive(&[2, 0]);
    assert_eq!(
        trace,
        vec![
            ScanAction::Materialize { page: 0, row: 0 },
            ScanAction::Release { page: 0, row: 0 },
            ScanAction::Materialize { page: 0, row: 1 },
            ScanAction::Release { page: 0, row: 1 },
            ScanAction::FetchNext,
            ScanAction::SignalDone,
        ]
    );
    assert!(s.is_drained());
    assert_eq!(s.rows, 2);

    let r1 = render_row(b"r1", 1, &[cell(b"f", b"q", b"v1", 100)]);
    assert_eq!(r1.failure, None);
    assert_eq!(
        r1.lines,
        vec![
            "Row r1,cell count 1".to_string(),
            "Cell 0 family=f qualifier=q value=v1 timestamp=100 ".to_string(),
        ]
    );
    let r2 = render_row(b"r2", 0, &[]);
    assert_eq!(r2.failure, None);
    assert_eq!(r2.lines, vec!["Row r2,cell count 0".to_string()]);
}

#[test]
fn scenario_empty_first_page() {
    let (trace, s) = drive(&[0]);
    assert_eq!(trace, vec![ScanAction::SignalDone]);
    assert!(s.is_drained());
    assert_eq!(s.pages, 0);
    assert_eq!(s.rows, 0);
    assert!(!s.accepts(0));
}

#[test]
fn scenario_three_single_row_pages() {
    let (trace, s) = drive(&[1, 1, 1, 0]);
    let releases: Vec<&ScanAction> =
        trace.iter().filter(|a| matches!(a, ScanAction::Release { .. })).collect();
    assert_eq!(releases.len(), 3);
    let materialized: Vec<u64> = trace
        .iter()
        .filter_map(|a| match a {
            ScanAction::Materialize { page, row: 0 } => Some(*page),
            _ => None,
        })
        .collect();
    assert_eq!(materialized, vec![0, 1, 2]);
    let signals = trace.iter().filter(|a| **a == ScanAction::SignalDone).count();
    assert_eq!(signals, 1);
    assert_eq!(trace.last(), Some(&ScanAction::SignalDone));
    let fetches = trace.iter().filter(|a| **a == ScanAction::FetchNext).count();
    assert_eq!(fetches, 3);
    assert_eq!(s.pages, 3);
    assert_eq!(s.rows, 3);
}

#[test]
fn scenario_fetch_failure_aborts() {
    let mut s = ScanLoop::new();
    let plan = s.on_page(-3, 4);
    assert_eq!(plan, vec![ScanAction::Abort(-3)]);
    assert_eq!(s.phase, ScanPhase::Failed(-3));
    assert!(!s.is_drained());
    assert!(!s.accepts(0));
}

#[test]
fn scenario_bad_key_aborts_before_release() {
    let r = render_row(&[0x72, 0xff], 1, &[cell(b"f", b"q", b"v", 1)]);
    assert_eq!(r.failure, Some(DecodeFailure::Key));
    assert!(r.lines.is_empty());
    let mut s = ScanLoop::new();
    let plan = s.on_page(0, 1);
    assert_eq!(plan[0], ScanAction::Materialize { page: 0, row: 0 });
    assert_eq!(plan[1], ScanAction::Release { page: 0, row: 0 });
}

#[test]
fn bad_cell_keeps_earlier_lines() {
    let cells = [cell(b"a", b"b", b"c", 9), cell(b"f", b"q", &[0xfe], 2), cell(b"x", b"y", b"z", 3)];
    let r = render_row(b"k", 3, &cells);
    assert_eq!(r.failure, Some(DecodeFailure::Value(1)));
    assert_eq!(
        r.lines,
        vec![
            "Row k,cell count 3".to_string(),
            "Cell 0 family=a qualifier=b value=c timestamp=9 ".to_string(),
        ]
    );
}

#[test]
fn accepts_guards_counters() {
    let s = ScanLoop { phase: ScanPhase::AwaitingPage, pages: 0, rows: u64::MAX - 1 };
    assert!(s.accepts(1));
    assert!(!s.accepts(2));
    let t = ScanLoop { phase: ScanPhase::AwaitingPage, pages: u64::MAX, rows: 0 };
    assert!(!t.accepts(0));
    let d = ScanLoop { phase: ScanPhase::Drained, pages: 0, rows: 0 };
    assert!(!d.accepts(1));
}

#[test]
fn release_follows_materialize_across_pages() {
    let (trace, s) = drive(&[3, 2, 0]);
    assert_eq!(trace.len(), 7 + 5 + 1);
    let mut expected = Vec::new();
    for (page, n) in [(0u64, 3usize), (1, 2)] {
        for row in 0..n {
            expected.push(ScanAction::Materialize { page, row });
            expected.push(ScanAction::Release { page, row });
        }
        expected.push(ScanAction::FetchNext);
    }
    expected.push(ScanAction::SignalDone);
    assert_eq!(trace, expected);
    assert_eq!(s.rows, 5);
    assert_eq!(s.pages, 2);
}
