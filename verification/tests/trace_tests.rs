use tracecfg::parsing::parse_trace;
use tracecfg::trace::{Bb, ForeignInfo, TraceStmt};

fn new_trace(addr: usize) -> TraceStmt {
    TraceStmt { addr, hex: String::new(), text: String::new(), isbr: false, foreign: None }
}

fn traces() -> Vec<TraceStmt> {
    vec![
        TraceStmt {
            addr: 4195392,
            hex: "31ED".to_string(),
            text: "xor ebp, ebp".to_string(),
            isbr: false,
            foreign: None,
        },
        TraceStmt {
            addr: 4195394,
            hex: "4989D1".to_string(),
            text: "mov r9, rdx".to_string(),
            isbr: false,
            foreign: None,
        },
        TraceStmt {
            addr: 4195397,
            hex: "5E".to_string(),
            text: "call 0x4195398".to_string(),
            isbr: true,
            foreign: None,
        },
        TraceStmt {
            addr: 4195398,
            hex: "4889E2".to_string(),
            text: "mov rdx, rsp".to_string(),
            isbr: false,
            foreign: None,
        },
        TraceStmt {
            addr: 4195401,
            hex: "4883E4F0".to_string(),
            text: "and rsp, 0xfffffffffffffff0".to_string(),
            isbr: false,
            foreign: None,
        },
        TraceStmt {
            addr: 4195405,
            hex: "50".to_string(),
            text: "push rax".to_string(),
            isbr: false,
            foreign: None,
        },
        TraceStmt {
            addr: 4195406,
            hex: "54".to_string(),
            text: "ret".to_string(),
            isbr: true,
            foreign: None,
        },
    ]
}

fn json_traces<'a>() -> &'a str {
    r#"[{ "address": 4195392, "hexDump": "31ED", "text": "xor ebp, ebp" },
        { "address": 4195394, "hexDump": "4989D1", "text": "mov r9, rdx" },
        { "address": 4195397, "hexDump": "5E", "text": "call 0x4195398", "isBranch": true },
        { "address": 4195398, "hexDump": "4889E2", "text": "mov rdx, rsp" },
        { "address": 4195401, "hexDump": "4883E4F0", "text": "and rsp, 0xfffffffffffffff0" },
        { "address": 4195405, "hexDump": "50", "text": "push rax" },
        { "address": 4195406, "hexDump": "54", "text": "ret", "isBranch": true }]"#
}

fn stmt_eq(l: &TraceStmt, r: &TraceStmt) -> bool {
    let foreign_eq = match (&l.foreign, &r.foreign) {
        (None, None) => true,
        (Some(a), Some(b)) => {
            a.foreign_addr == b.foreign_addr && a.foreign_name == b.foreign_name
        }
        _ => false,
    };
    l.addr == r.addr && l.hex == r.hex && l.text == r.text && l.isbr == r.isbr && foreign_eq
}

#[test]
fn trace_parsing() {
    let trace = parse_trace(json_traces());
    let expected = traces();
    assert_eq!(trace.len(), expected.len());
    for (l, r) in trace.iter().zip(expected.iter()) {
        assert!(stmt_eq(l, r));
    }
}

#[test]
fn from_traces() {
    let bbs = Bb::new(traces());
    assert_eq!(bbs.len(), 2);
    assert_eq!(bbs[0].stmts.len(), 3);
    assert_eq!(bbs[1].stmts.len(), 4);
}

#[test]
fn trace_split() {
    let block = Bb { stmts: (10..18).map(new_trace).collect() };
    let (l, r) = block.split(14).unwrap();
    let laddrs: Vec<usize> = l.stmts.iter().map(|x| x.addr).collect();
    let raddrs: Vec<usize> = r.stmts.iter().map(|x| x.addr).collect();
    assert_eq!(laddrs, (10..14).collect::<Vec<usize>>());
    assert_eq!(raddrs, (14..18).collect::<Vec<usize>>());
}

#[test]
fn addr() {
    assert_eq!(Bb { stmts: vec![new_trace(11)] }.addr().unwrap(), 11);
}

#[test]
fn trace_split_miss_returns_block() {
    let block = Bb { stmts: (10..18).map(new_trace).collect() };
    let back = match block.split(42) {
        Err(b) => b,
        Ok(_) => panic!("split at a missing address must fail"),
    };
    assert_eq!(back.stmts.len(), 8);
    assert_eq!(back.stmts[0].addr, 10);
}

#[test]
fn trailing_partial_block_is_kept() {
    // The last run carries no branch and still becomes a block.
    let mut stmts: Vec<TraceStmt> = (0..4).map(new_trace).collect();
    stmts[1].isbr = true;
    let bbs = Bb::new(stmts);
    assert_eq!(bbs.len(), 2);
    assert_eq!(bbs[0].stmts.len(), 2);
    assert_eq!(bbs[1].stmts.len(), 2);
    assert!(bbs[0].stmts[1].isbr);
    assert!(!bbs[1].stmts[1].isbr);
}

#[test]
fn empty_trace_gives_no_blocks() {
    let bbs = Bb::new(Vec::new());
    assert_eq!(bbs.len(), 0);
}

#[test]
fn parsing_foreign_branch() {
    let json = r#"[{ "address": 16, "hexDump": "E8", "text": "call qword [rip]",
                     "isBranch": true, "isForeignBranch": true,
                     "foreignTargetAddress": 4096, "foreignTargetName": "memcpy" }]"#;
    let trace = parse_trace(json);
    assert_eq!(trace.len(), 1);
    assert!(trace[0].isbr);
    let f = trace[0].foreign.as_ref().unwrap();
    assert_eq!(f.foreign_addr, 4096);
    assert_eq!(f.foreign_name, "memcpy");
}

#[test]
fn parsing_drops_malformed_records() {
    // The middle record lacks its text and is skipped.
    let json = r#"[{ "address": 1, "hexDump": "90", "text": "nop" },
                   { "address": 2, "hexDump": "90" },
                   { "address": 3, "hexDump": "90", "text": "nop" }]"#;
    let trace = parse_trace(json);
    assert_eq!(trace.len(), 2);
    assert_eq!(trace[0].addr, 1);
    assert_eq!(trace[1].addr, 3);
}

#[test]
fn parsing_rejects_non_array() {
    assert_eq!(parse_trace("{}").len(), 0);
    assert_eq!(parse_trace("not json").len(), 0);
}

#[test]
fn stmt_from_fields_defaults() {
    let s = TraceStmt::from_fields(
        Some(7),
        Some("90".to_string()),
        Some("nop".to_string()),
        None,
        None,
    )
    .unwrap();
    assert_eq!(s.addr, 7);
    assert_eq!(s.hex, "90");
    assert_eq!(s.text, "nop");
    assert!(!s.isbr);
    assert!(s.foreign.is_none());
    assert!(TraceStmt::from_fields(None, Some("90".to_string()), Some("nop".to_string()),
        Some(true), None).is_none());
}

#[test]
fn foreign_from_fields_needs_all_three() {
    let f = ForeignInfo::from_fields(Some(false), Some(64), Some("strlen".to_string())).unwrap();
    assert_eq!(f.foreign_addr, 64);
    assert_eq!(f.foreign_name, "strlen");
    assert!(ForeignInfo::from_fields(None, Some(64), Some("strlen".to_string())).is_none());
    assert!(ForeignInfo::from_fields(Some(true), None, Some("strlen".to_string())).is_none());
    assert!(ForeignInfo::from_fields(Some(true), Some(64), None).is_none());
}

#[test]
fn parsing_survives_malformed_numerals() {
    // Dangling numeric tokens at the end of the text.
    assert_eq!(parse_trace("-e").len(), 0);
    assert_eq!(parse_trace("[1e").len(), 0);
    assert_eq!(parse_trace("-").len(), 0);
    // An oversized numeral (20 digits) in an address field.
    let json = r#"[{ "address": 99999999999999999999, "hexDump": "90", "text": "nop" }]"#;
    assert_eq!(parse_trace(json).len(), 0);
    // A negative numeral of 19 digits.
    assert_eq!(parse_trace("[-9999999999999999999]").len(), 0);
}

#[test]
fn parsing_survives_surrogate_escape() {
    let json = r#"[{ "address": 1, "hexDump": "90", "text": "a\uD800b" }]"#;
    assert_eq!(parse_trace(json).len(), 0);
    let json2 = r#"[{ "address": 1, "hexDump": "90", "text": "a\ud9ffb" }]"#;
    assert_eq!(parse_trace(json2).len(), 0);
}

#[test]
fn parsing_accepts_large_addresses() {
    // 19 digits fit the parser's unsigned conversion and pass the scan.
    let json = r#"[{ "address": 9999999999999999999, "hexDump": "90", "text": "nop" }]"#;
    let t = parse_trace(json);
    assert_eq!(t.len(), 1);
    assert_eq!(t[0].addr, 9999999999999999999usize);
}

#[test]
fn parsing_skips_negative_address() {
    let json = r#"[{ "address": -5, "hexDump": "90", "text": "nop" },
                   { "address": 6, "hexDump": "90", "text": "nop" }]"#;
    let t = parse_trace(json);
    assert_eq!(t.len(), 1);
    assert_eq!(t[0].addr, 6);
}

#[test]
fn parsing_allows_long_digit_strings() {
    // Digit runs inside quoted strings are content, not numerals.
    let json = r#"[{ "address": 1, "hexDump": "000000000000000000000000", "text": "nop" }]"#;
    let t = parse_trace(json);
    assert_eq!(t.len(), 1);
    assert_eq!(t[0].hex, "000000000000000000000000");
}
