//! Decoding of the JSON trace into trace statements.
//!
//! The JSON tree itself comes from the `simple_json` crate and stays
//! behind a trusted boundary; what this module pins down is, first, a
//! verified pre-scan that keeps out the few texts on which that
//! crate's parser could abort, and second, how the plain field values
//! read off each record are assembled into statements: one statement
//! per well-formed record, in input order, malformed records dropped.

use vstd::prelude::*;
use vstd::string::StringSliceAdditionalSpecFns;

pub use crate::trace::ForeignInfo;
pub use crate::trace::TraceStmt;

verus! {

// The pre-scan walks the raw bytes of the trace text once.  Byte
// values spelled out below: 34 '"', 43 '+', 45 '-', 46 '.', 48..57
// '0'..'9', 65..70 'A'..'F', 68 'D', 69 'E', 91 '[', 92 backslash,
// 93 ']', 97..102 'a'..'f', 100 'd', 101 'e', 117 'u', 123 '{',
// 125 '}'.

/// State of the safety pre-scan over the trace text.
pub ghost struct ScanState {
    /// A pattern that could make the JSON parser abort, or leave its
    /// scanning position out of step with this scan, was seen.
    pub bad: bool,
    /// Inside a quoted string.
    pub in_str: bool,
    /// The previous character opened an escape sequence.
    pub esc: bool,
    /// Progress through a `\u` escape: 1 right after `\u`; 2 after a
    /// first hex digit `d`; 3 after another first hex digit; 4 and 5
    /// after the second and third digit; 6 after the fourth, where a
    /// further hex digit would overrun the escape; else 0.
    pub ustate: int,
    /// Progress through a `true`, `false` or `null` keyword outside
    /// strings, as the code of the suffix still expected; 0 when not
    /// inside a keyword.
    pub kw: int,
    /// Length of the current digit run outside strings.
    pub run: int,
    /// The current digit run directly follows a minus sign.
    pub neg: bool,
    /// The previous character was a minus sign outside strings.
    pub prev_minus: bool,
    /// Bracket nesting depth outside strings.
    pub depth: int,
}

pub open spec fn scan_init() -> ScanState {
    ScanState {
        bad: false,
        in_str: false,
        esc: false,
        ustate: 0,
        kw: 0,
        run: 0,
        neg: false,
        prev_minus: false,
        depth: 0,
    }
}

/// An integer numeral this long could overflow the parser's 64-bit
/// conversions: 20 or more digits unsigned, 19 or more after a minus.
pub open spec fn run_too_long(run: int, neg: bool) -> bool {
    run >= 20 || (run == 19 && neg)
}

/// A hex digit.
pub open spec fn hex_digit(b: u8) -> bool {
    (48 <= b && b <= 57) || (97 <= b && b <= 102) || (65 <= b && b <= 70)
}

/// A hex digit of value 8 or more: after `\u d` it completes the
/// prefix of a surrogate code point (U+D800 through U+DFFF).
pub open spec fn high_hex(b: u8) -> bool {
    (56 <= b && b <= 57) || (97 <= b && b <= 102) || (65 <= b && b <= 70)
}

/// The escape characters the parser accepts after a backslash.
pub open spec fn escape_char(b: u8) -> bool {
    b == 117 || b == 34 || b == 92 || b == 47 || b == 98 || b == 102 || b == 110 || b == 114
        || b == 116
}

/// A text ending in one of these characters ends inside a numeric
/// token whose final float conversion could fail.
pub open spec fn dangling_numeral(b: u8) -> bool {
    b == 45 || b == 43 || b == 46 || b == 101 || b == 69
}

/// The keyword suffix still expected after the byte `b`, in the
/// keyword-progress encoding of `ScanState::kw`: `rue`, `ue`, `e`
/// (1 to 3), `alse`, `lse`, `se` (4 to 6, then 3), `ull`, `ll`, `l`
/// (7 to 9).  -1 stands for a mismatch.
pub open spec fn kw_step(kw: int, b: u8) -> int {
    if kw == 1 && b == 114 {
        2
    } else if kw == 2 && b == 117 {
        3
    } else if kw == 3 && b == 101 {
        0
    } else if kw == 4 && b == 97 {
        5
    } else if kw == 5 && b == 108 {
        6
    } else if kw == 6 && b == 115 {
        3
    } else if kw == 7 && b == 117 {
        8
    } else if kw == 8 && b == 108 {
        9
    } else if kw == 9 && b == 108 {
        0
    } else {
        -1
    }
}

/// One step of the pre-scan.
pub open spec fn scan_byte(st: ScanState, b: u8) -> ScanState {
    if st.bad {
        st
    } else if st.in_str {
        if st.esc {
            if !escape_char(b) {
                ScanState { bad: true, ..st }
            } else {
                ScanState { esc: false, ustate: if b == 117 { 1int } else { 0int }, ..st }
            }
        } else if st.ustate == 1 {
            if b == 100 || b == 68 {
                ScanState { ustate: 2, ..st }
            } else if hex_digit(b) {
                ScanState { ustate: 3, ..st }
            } else {
                ScanState { bad: true, ..st }
            }
        } else if st.ustate == 2 {
            if high_hex(b) {
                ScanState { bad: true, ..st }
            } else if hex_digit(b) {
                ScanState { ustate: 4, ..st }
            } else {
                ScanState { bad: true, ..st }
            }
        } else if st.ustate == 3 {
            if hex_digit(b) {
                ScanState { ustate: 4, ..st }
            } else {
                ScanState { bad: true, ..st }
            }
        } else if st.ustate == 4 {
            if hex_digit(b) {
                ScanState { ustate: 5, ..st }
            } else {
                ScanState { bad: true, ..st }
            }
        } else if st.ustate == 5 {
            if hex_digit(b) {
                ScanState { ustate: 6, ..st }
            } else {
                ScanState { bad: true, ..st }
            }
        } else if st.ustate == 6 {
            if hex_digit(b) {
                ScanState { bad: true, ..st }
            } else if b == 92 {
                ScanState { ustate: 0, esc: true, ..st }
            } else if b == 34 {
                ScanState { ustate: 0, in_str: false, ..st }
            } else {
                ScanState { ustate: 0, ..st }
            }
        } else if b == 92 {
            ScanState { esc: true, ..st }
        } else if b == 34 {
            ScanState { in_str: false, ..st }
        } else {
            st
        }
    } else if st.kw != 0 {
        if kw_step(st.kw, b) == -1 {
            ScanState { bad: true, ..st }
        } else {
            ScanState { kw: kw_step(st.kw, b), ..st }
        }
    } else if 48 <= b && b <= 57 {
        ScanState {
            run: st.run + 1,
            neg: if st.run == 0 {
                st.prev_minus
            } else {
                st.neg
            },
            prev_minus: false,
            ..st
        }
    } else if run_too_long(st.run, st.neg) {
        ScanState { bad: true, ..st }
    } else if b == 34 {
        ScanState {
            in_str: true,
            esc: false,
            ustate: 0,
            run: 0,
            neg: false,
            prev_minus: false,
            ..st
        }
    } else if b == 91 || b == 123 {
        if st.depth >= 64 {
            ScanState { bad: true, ..st }
        } else {
            ScanState { depth: st.depth + 1, run: 0, neg: false, prev_minus: false, ..st }
        }
    } else if b == 93 || b == 125 {
        ScanState {
            depth: if st.depth > 0 {
                st.depth - 1
            } else {
                0
            },
            run: 0,
            neg: false,
            prev_minus: false,
            ..st
        }
    } else if b == 116 {
        ScanState { kw: 1, run: 0, neg: false, prev_minus: false, ..st }
    } else if b == 102 {
        ScanState { kw: 4, run: 0, neg: false, prev_minus: false, ..st }
    } else if b == 110 {
        ScanState { kw: 7, run: 0, neg: false, prev_minus: false, ..st }
    } else if b == 45 {
        ScanState { run: 0, neg: false, prev_minus: true, ..st }
    } else {
        ScanState { run: 0, neg: false, prev_minus: false, ..st }
    }
}

pub open spec fn scan_bytes(s: Seq<u8>) -> ScanState
    decreases s.len(),
{
    if s.len() == 0 {
        scan_init()
    } else {
        scan_byte(scan_bytes(s.drop_last()), s.last())
    }
}

/// The texts this library hands to the JSON parser: ASCII; integer
/// numerals short enough for the parser's 64-bit conversions; every
/// string escape from the parser's own escape set; every `\u` escape
/// exactly four hex digits long and no surrogate; `true`, `false` and
/// `null` spelled out; bracket nesting bounded; and no trailing
/// half-finished numeric token.  On every such text the parser's
/// scanning stays in step with this scan and returns instead of
/// aborting; anything else counts as malformed and yields the empty
/// trace.
pub open spec fn safe_json_text(s: &str) -> bool {
    let st = scan_bytes(s.spec_bytes());
    &&& vstd::string::is_ascii(s)
    &&& !st.bad
    &&& !run_too_long(st.run, st.neg)
    &&& (s.spec_bytes().len() == 0 || !dangling_numeral(s.spec_bytes().last()))
}

/// Run the safety pre-scan over the trace text.
pub fn json_text_is_safe(s: &str) -> (r: bool)
    ensures
        r == safe_json_text(s),
{
    if !s.is_ascii() {
        return false;
    }
    let bytes = s.as_bytes();
    let ghost bs = s.spec_bytes();
    let n = bytes.len();
    let mut bad = false;
    let mut in_str = false;
    let mut esc = false;
    let mut ustate: usize = 0;
    let mut kw: i8 = 0;
    let mut run: usize = 0;
    let mut neg = false;
    let mut prev_minus = false;
    let mut depth: usize = 0;
    proof {
        assert(bs.take(0) =~= Seq::<u8>::empty());
    }
    let mut i: usize = 0;
    while i < n
        invariant
            bytes@ == bs,
            n == bs.len(),
            0 <= i <= n,
            run <= i,
            depth <= 64,
            0 <= kw <= 9,
            ({
                let st = scan_bytes(bs.take(i as int));
                &&& bad == st.bad
                &&& in_str == st.in_str
                &&& esc == st.esc
                &&& ustate as int == st.ustate
                &&& kw as int == st.kw
                &&& run as int == st.run
                &&& neg == st.neg
                &&& prev_minus == st.prev_minus
                &&& depth as int == st.depth
            }),
        decreases n - i,
    {
        let b = bytes[i];
        proof {
            assert(bs.take(i + 1).drop_last() =~= bs.take(i as int));
            assert(bs.take(i + 1).last() == bs[i as int]);
        }
        let is_hex = (48 <= b && b <= 57) || (97 <= b && b <= 102) || (65 <= b && b <= 70);
        let is_high = (56 <= b && b <= 57) || (97 <= b && b <= 102) || (65 <= b && b <= 70);
        if bad {
        } else if in_str {
            if esc {
                let ok = b == 117 || b == 34 || b == 92 || b == 47 || b == 98 || b == 102
                    || b == 110 || b == 114 || b == 116;
                if !ok {
                    bad = true;
                } else {
                    esc = false;
                    ustate = if b == 117 {
                        1
                    } else {
                        0
                    };
                }
            } else if ustate == 1 {
                if b == 100 || b == 68 {
                    ustate = 2;
                } else if is_hex {
                    ustate = 3;
                } else {
                    bad = true;
                }
            } else if ustate == 2 {
                if is_high {
                    bad = true;
                } else if is_hex {
                    ustate = 4;
                } else {
                    bad = true;
                }
            } else if ustate == 3 {
                if is_hex {
                    ustate = 4;
                } else {
                    bad = true;
                }
            } else if ustate == 4 {
                if is_hex {
                    ustate = 5;
                } else {
                    bad = true;
                }
            } else if ustate == 5 {
                if is_hex {
                    ustate = 6;
                } else {
                    bad = true;
                }
            } else if ustate == 6 {
                if is_hex {
                    bad = true;
                } else if b == 92 {
                    ustate = 0;
                    esc = true;
                } else if b == 34 {
                    ustate = 0;
                    in_str = false;
                } else {
                    ustate = 0;
                }
            } else if b == 92 {
                esc = true;
            } else if b == 34 {
                in_str = false;
            }
        } else if kw != 0 {
            let next: i8 = if kw == 1 && b == 114 {
                2
            } else if kw == 2 && b == 117 {
                3
            } else if kw == 3 && b == 101 {
                0
            } else if kw == 4 && b == 97 {
                5
            } else if kw == 5 && b == 108 {
                6
            } else if kw == 6 && b == 115 {
                3
            } else if kw == 7 && b == 117 {
                8
            } else if kw == 8 && b == 108 {
                9
            } else if kw == 9 && b == 108 {
                0
            } else {
                -1
            };
            if next == -1 {
                bad = true;
            } else {
                kw = next;
            }
        } else if 48 <= b && b <= 57 {
            if run == 0 {
                neg = prev_minus;
            }
            run = run + 1;
            prev_minus = false;
        } else if run >= 20 || (run == 19 && neg) {
            bad = true;
        } else if b == 34 {
            in_str = true;
            esc = false;
            ustate = 0;
            run = 0;
            neg = false;
            prev_minus = false;
        } else if b == 91 || b == 123 {
            if depth >= 64 {
                bad = true;
            } else {
                depth = depth + 1;
                run = 0;
                neg = false;
                prev_minus = false;
            }
        } else if b == 93 || b == 125 {
            if depth > 0 {
                depth = depth - 1;
            }
            run = 0;
            neg = false;
            prev_minus = false;
        } else if b == 116 {
            kw = 1;
            run = 0;
            neg = false;
            prev_minus = false;
        } else if b == 102 {
            kw = 4;
            run = 0;
            neg = false;
            prev_minus = false;
        } else if b == 110 {
            kw = 7;
            run = 0;
            neg = false;
            prev_minus = false;
        } else if b == 45 {
            run = 0;
            neg = false;
            prev_minus = true;
        } else {
            run = 0;
            neg = false;
            prev_minus = false;
        }
        i += 1;
    }
    proof {
        assert(bs.take(n as int) =~= bs);
    }
    if bad {
        return false;
    }
    if run >= 20 || (run == 19 && neg) {
        return false;
    }
    if n > 0 {
        let last = bytes[n - 1];
        if last == 45 || last == 43 || last == 46 || last == 101 || last == 69 {
            return false;
        }
    }
    true
}

/// Number of elements of the top-level JSON array of the text, if the
/// text parses as one.
pub uninterp spec fn json_array_len(s: Seq<char>) -> Option<int>;

/// Element by element of the top-level array: the unsigned number
/// stored under `key`, where the element is an object holding one.
pub uninterp spec fn json_unsigned_fields(s: Seq<char>, key: Seq<char>) -> Seq<Option<usize>>;

/// Element by element of the top-level array: the string stored under
/// `key`, where the element is an object holding one.
pub uninterp spec fn json_string_fields(s: Seq<char>, key: Seq<char>) -> Seq<Option<String>>;

/// Element by element of the top-level array: the boolean stored
/// under `key`, where the element is an object holding one.
pub uninterp spec fn json_bool_fields(s: Seq<char>, key: Seq<char>) -> Seq<Option<bool>>;

/// Relies on simple_json's `Json::parse` and std's `HashMap::get`:
/// one entry per element of the top-level array, holding the unsigned
/// number stored under `key` when the element is an object with one
/// there, else nothing.  `safe_json_text` keeps out the inputs on
/// which the parser's integer conversions could abort.
#[verifier::external_body]
fn unsigned_fields(s: &str, key: &str) -> (r: Option<Vec<Option<usize>>>)
    requires
        safe_json_text(s),
    ensures
        r is Some <==> json_array_len(s@) is Some,
        r matches Some(v) ==> v@ == json_unsigned_fields(s@, key@)
            && v@.len() == json_array_len(s@)->0,
{
    let arr = match simple_json::Json::parse(s) {
        Ok(simple_json::Json::Array(v)) => v,
        _ => return None,
    };
    Some(arr.iter().map(|j| match j {
        simple_json::Json::Object(m) => match m.get(key) {
            Some(simple_json::Json::Number(simple_json::Number::Unsigned(u))) => {
                Some(*u as usize)
            },
            _ => None,
        },
        _ => None,
    }).collect())
}

/// Relies on simple_json's `Json::parse` and std's `HashMap::get`:
/// one entry per element of the top-level array, holding the string
/// stored under `key` when the element is an object with one there,
/// else nothing.  `safe_json_text` keeps out the inputs on which the
/// parser's escape decoding could abort.
#[verifier::external_body]
fn string_fields(s: &str, key: &str) -> (r: Option<Vec<Option<String>>>)
    requires
        safe_json_text(s),
    ensures
        r is Some <==> json_array_len(s@) is Some,
        r matches Some(v) ==> v@ == json_string_fields(s@, key@)
            && v@.len() == json_array_len(s@)->0,
{
    let arr = match simple_json::Json::parse(s) {
        Ok(simple_json::Json::Array(v)) => v,
        _ => return None,
    };
    Some(arr.iter().map(|j| match j {
        simple_json::Json::Object(m) => match m.get(key) {
            Some(simple_json::Json::String(st)) => Some(st.clone()),
            _ => None,
        },
        _ => None,
    }).collect())
}

/// Relies on simple_json's `Json::parse` and std's `HashMap::get`:
/// one entry per element of the top-level array, holding the boolean
/// stored under `key` when the element is an object with one there,
/// else nothing.  `safe_json_text` keeps out the inputs on which the
/// parser could abort.
#[verifier::external_body]
fn bool_fields(s: &str, key: &str) -> (r: Option<Vec<Option<bool>>>)
    requires
        safe_json_text(s),
    ensures
        r is Some <==> json_array_len(s@) is Some,
        r matches Some(v) ==> v@ == json_bool_fields(s@, key@)
            && v@.len() == json_array_len(s@)->0,
{
    let arr = match simple_json::Json::parse(s) {
        Ok(simple_json::Json::Array(v)) => v,
        _ => return None,
    };
    Some(arr.iter().map(|j| match j {
        simple_json::Json::Object(m) => match m.get(key) {
            Some(simple_json::Json::Boolean(b)) => Some(*b),
            _ => None,
        },
        _ => None,
    }).collect())
}

/// The foreign marker assembled from one record's field values: all
/// three fields must be present (the flag's own value is not
/// inspected).
pub open spec fn foreign_of_fields(
    isforeign: Option<bool>,
    addr: Option<usize>,
    name: Option<String>,
) -> Option<ForeignInfo> {
    match (isforeign, addr, name) {
        (Some(_), Some(a), Some(n)) => Some(ForeignInfo { foreign_addr: a, foreign_name: n }),
        _ => None,
    }
}

/// The statement assembled from one record's field values: address,
/// hex dump and text must be present, the branch flag defaults to
/// false, and the foreign marker is optional.
pub open spec fn stmt_of_fields(
    addr: Option<usize>,
    hex: Option<String>,
    text: Option<String>,
    isbr: Option<bool>,
    foreign: Option<ForeignInfo>,
) -> Option<TraceStmt> {
    match (addr, hex, text) {
        (Some(a), Some(h), Some(x)) => Some(
            TraceStmt {
                addr: a,
                hex: h,
                text: x,
                isbr: if isbr is Some {
                    isbr->0
                } else {
                    false
                },
                foreign,
            },
        ),
        _ => None,
    }
}

/// The statements assembled from the first `n` records' field
/// columns, in order, records without the three required fields
/// dropped.
pub open spec fn assembled(
    addrs: Seq<Option<usize>>,
    hexes: Seq<Option<String>>,
    texts: Seq<Option<String>>,
    brs: Seq<Option<bool>>,
    fbrs: Seq<Option<bool>>,
    faddrs: Seq<Option<usize>>,
    fnames: Seq<Option<String>>,
    n: int,
) -> Seq<TraceStmt>
    decreases n,
{
    if n <= 0 {
        Seq::empty()
    } else {
        assembled(addrs, hexes, texts, brs, fbrs, faddrs, fnames, n - 1) + match stmt_of_fields(
            addrs[n - 1],
            hexes[n - 1],
            texts[n - 1],
            brs[n - 1],
            foreign_of_fields(fbrs[n - 1], faddrs[n - 1], fnames[n - 1]),
        ) {
            Some(st) => seq![st],
            None => Seq::empty(),
        }
    }
}

impl ForeignInfo {
    /// Assemble a foreign marker from the field values read off one
    /// record.
    pub fn from_fields(isforeign: Option<bool>, addr: Option<usize>, name: Option<String>) -> (r:
        Option<ForeignInfo>)
        ensures
            r == foreign_of_fields(isforeign, addr, name),
    {
        match (isforeign, addr, name) {
            (Some(_), Some(a), Some(n)) => Some(
                ForeignInfo { foreign_addr: a, foreign_name: n },
            ),
            _ => None,
        }
    }
}

impl TraceStmt {
    /// Assemble a trace statement from the field values read off one
    /// record.
    pub fn from_fields(
        addr: Option<usize>,
        hex: Option<String>,
        text: Option<String>,
        isbr: Option<bool>,
        foreign: Option<ForeignInfo>,
    ) -> (r: Option<TraceStmt>)
        ensures
            r == stmt_of_fields(addr, hex, text, isbr, foreign),
    {
        match (addr, hex, text) {
            (Some(a), Some(h), Some(x)) => Some(
                TraceStmt {
                    addr: a,
                    hex: h,
                    text: x,
                    isbr: match isbr {
                        Some(b) => b,
                        None => false,
                    },
                    foreign,
                },
            ),
            _ => None,
        }
    }
}

/// Assemble the decoded field columns into statements, one per
/// well-formed record, in input order, malformed records dropped.
fn parse_stmts(
    addrs: Vec<Option<usize>>,
    hexes: Vec<Option<String>>,
    texts: Vec<Option<String>>,
    brs: Vec<Option<bool>>,
    fbrs: Vec<Option<bool>>,
    faddrs: Vec<Option<usize>>,
    fnames: Vec<Option<String>>,
) -> (r: Vec<TraceStmt>)
    requires
        hexes@.len() == addrs@.len(),
        texts@.len() == addrs@.len(),
        brs@.len() == addrs@.len(),
        fbrs@.len() == addrs@.len(),
        faddrs@.len() == addrs@.len(),
        fnames@.len() == addrs@.len(),
    ensures
        r@ == assembled(
            addrs@,
            hexes@,
            texts@,
            brs@,
            fbrs@,
            faddrs@,
            fnames@,
            addrs@.len() as int,
        ),
{
    let ghost a0 = addrs@;
    let ghost h0 = hexes@;
    let ghost t0 = texts@;
    let ghost b0 = brs@;
    let ghost fb0 = fbrs@;
    let ghost fa0 = faddrs@;
    let ghost fn0 = fnames@;
    let mut addrs = addrs;
    let mut hexes = hexes;
    let mut texts = texts;
    let mut brs = brs;
    let mut fbrs = fbrs;
    let mut faddrs = faddrs;
    let mut fnames = fnames;
    let mut out: Vec<TraceStmt> = Vec::new();
    let ghost mut i: int = 0;
    proof {
        assert(a0.skip(0) =~= a0);
        assert(h0.skip(0) =~= h0);
        assert(t0.skip(0) =~= t0);
        assert(b0.skip(0) =~= b0);
        assert(fb0.skip(0) =~= fb0);
        assert(fa0.skip(0) =~= fa0);
        assert(fn0.skip(0) =~= fn0);
    }
    while addrs.len() > 0
        invariant
            0 <= i <= a0.len(),
            h0.len() == a0.len(),
            t0.len() == a0.len(),
            b0.len() == a0.len(),
            fb0.len() == a0.len(),
            fa0.len() == a0.len(),
            fn0.len() == a0.len(),
            addrs@ == a0.skip(i),
            hexes@ == h0.skip(i),
            texts@ == t0.skip(i),
            brs@ == b0.skip(i),
            fbrs@ == fb0.skip(i),
            faddrs@ == fa0.skip(i),
            fnames@ == fn0.skip(i),
            out@ == assembled(a0, h0, t0, b0, fb0, fa0, fn0, i),
        decreases addrs@.len(),
    {
        let a = addrs.remove(0);
        let h = hexes.remove(0);
        let t = texts.remove(0);
        let b = brs.remove(0);
        let fb = fbrs.remove(0);
        let fa = faddrs.remove(0);
        let fnm = fnames.remove(0);
        proof {
            assert(a == a0[i]);
            assert(h == h0[i]);
            assert(t == t0[i]);
            assert(b == b0[i]);
            assert(fb == fb0[i]);
            assert(fa == fa0[i]);
            assert(fnm == fn0[i]);
            assert(addrs@ =~= a0.skip(i + 1));
            assert(hexes@ =~= h0.skip(i + 1));
            assert(texts@ =~= t0.skip(i + 1));
            assert(brs@ =~= b0.skip(i + 1));
            assert(fbrs@ =~= fb0.skip(i + 1));
            assert(faddrs@ =~= fa0.skip(i + 1));
            assert(fnames@ =~= fn0.skip(i + 1));
        }
        let foreign = ForeignInfo::from_fields(fb, fa, fnm);
        let ghost out_before = out@;
        match TraceStmt::from_fields(a, h, t, b, foreign) {
            Some(st) => {
                out.push(st);
            },
            None => {},
        }
        proof {
            assert(out@ =~= assembled(a0, h0, t0, b0, fb0, fa0, fn0, i + 1));
            i = i + 1;
        }
    }
    proof {
        assert(a0.skip(i).len() == 0);
    }
    out
}

/// What decoding a trace text yields: for a safe text holding a JSON
/// array, the statements of its well-formed records in order; the
/// empty trace otherwise.
pub open spec fn spec_parse_trace(s: &str) -> Seq<TraceStmt> {
    if safe_json_text(s) && json_array_len(s@) is Some {
        assembled(
            json_unsigned_fields(s@, "address"@),
            json_string_fields(s@, "hexDump"@),
            json_string_fields(s@, "text"@),
            json_bool_fields(s@, "isBranch"@),
            json_bool_fields(s@, "isForeignBranch"@),
            json_unsigned_fields(s@, "foreignTargetAddress"@),
            json_string_fields(s@, "foreignTargetName"@),
            json_array_len(s@)->0,
        )
    } else {
        Seq::empty()
    }
}

/// Decode a JSON trace: the text must hold an array of records; each
/// well-formed record yields one statement, in input order; malformed
/// records are dropped; text that is no JSON array, or that fails the
/// safety pre-scan, yields the empty trace.
pub fn parse_trace(s: &str) -> (r: Vec<TraceStmt>)
    ensures
        r@ == spec_parse_trace(s),
{
    if !json_text_is_safe(s) {
        return Vec::new();
    }
    let addrs = match unsigned_fields(s, "address") {
        Some(v) => v,
        None => {
            return Vec::new();
        },
    };
    let hexes = string_fields(s, "hexDump").unwrap();
    let texts = string_fields(s, "text").unwrap();
    let brs = bool_fields(s, "isBranch").unwrap();
    let fbrs = bool_fields(s, "isForeignBranch").unwrap();
    let faddrs = unsigned_fields(s, "foreignTargetAddress").unwrap();
    let fnames = string_fields(s, "foreignTargetName").unwrap();
    parse_stmts(addrs, hexes, texts, brs, fbrs, faddrs, fnames)
}

} // verus!
