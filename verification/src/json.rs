//! A fixed-shape JSON codec for port records.
//!
//! A record is rendered as one JSON object with the fields `port`,
//! `processName`, `pid`, `protocol`, `state` and `address`, in that order;
//! quotes and backslashes inside text fields are escaped with a backslash.
//! The reader accepts exactly that shape and yields the record back.
//!
//! The shape is the codec's own: only quotes and backslashes are escaped,
//! so a text field holding a control character renders it verbatim, which
//! a strict JSON reader may reject; this codec's own reader takes it back
//! unchanged, and field values free of control characters render as plain
//! JSON.

use vstd::prelude::*;
use vstd::string::StrSliceExecFns;
use vstd::string::StringExecFns;
use crate::parse::{
    digit_val, digits_val, is_digit, is_digit_char, lemma_digits_val_nonneg,
    lemma_digits_val_prefix,
};
use crate::record::{Port, PortModel};

verus! {

// ----- escaping text -----

/// How one character is rendered inside a JSON string.
pub open spec fn esc_char(c: char) -> Seq<char> {
    if c == '"' || c == '\\' {
        seq!['\\', c]
    } else {
        seq![c]
    }
}

/// A text with quotes and backslashes escaped.
pub open spec fn esc(s: Seq<char>) -> Seq<char>
    decreases s.len(),
{
    if s.len() == 0 {
        Seq::empty()
    } else {
        esc(s.drop_last()) + esc_char(s.last())
    }
}

proof fn lemma_esc_concat(a: Seq<char>, b: Seq<char>)
    ensures
        esc(a + b) == esc(a) + esc(b),
    decreases b.len(),
{
    if b.len() == 0 {
        assert(a + b =~= a);
        assert(esc(a) + esc(b) =~= esc(a));
    } else {
        let whole = a + b;
        assert(whole.drop_last() =~= a + b.drop_last());
        assert(whole.last() == b.last());
        lemma_esc_concat(a, b.drop_last());
        assert(esc(whole) == esc(a) + esc(b.drop_last()) + esc_char(b.last()));
        assert(esc(b) == esc(b.drop_last()) + esc_char(b.last()));
        assert(esc(a) + esc(b.drop_last()) + esc_char(b.last())
            =~= esc(a) + (esc(b.drop_last()) + esc_char(b.last())));
    }
}

// ----- decimal digits -----

/// The character of one decimal digit.
pub open spec fn digit_char(d: int) -> char {
    if d == 0 {
        '0'
    } else if d == 1 {
        '1'
    } else if d == 2 {
        '2'
    } else if d == 3 {
        '3'
    } else if d == 4 {
        '4'
    } else if d == 5 {
        '5'
    } else if d == 6 {
        '6'
    } else if d == 7 {
        '7'
    } else if d == 8 {
        '8'
    } else {
        '9'
    }
}

/// The decimal rendering of a non-negative number, most significant digit
/// first.
pub open spec fn dec_of(n: int) -> Seq<char>
    decreases n,
{
    if n < 10 {
        seq![digit_char(n)]
    } else {
        dec_of(n / 10) + seq![digit_char(n % 10)]
    }
}

proof fn lemma_dec_of(n: int)
    requires
        n >= 0,
    ensures
        dec_of(n).len() >= 1,
        forall|i: int| 0 <= i < dec_of(n).len() ==> is_digit(#[trigger] dec_of(n)[i]),
        digits_val(dec_of(n)) == n,
    decreases n,
{
    if n < 10 {
        let d = dec_of(n);
        assert(d.len() == 1);
        assert(is_digit(d[0]));
        assert(d.drop_last() =~= Seq::<char>::empty());
        assert(digits_val(Seq::<char>::empty()) == 0);
        assert(d.last() == digit_char(n));
        assert(digits_val(d) == digit_val(digit_char(n)));
        assert(digit_val(digit_char(n)) == n);
    } else {
        assert(n / 10 >= 1 && n / 10 < n) by (nonlinear_arith)
            requires
                n >= 10,
        ;
        lemma_dec_of(n / 10);
        let d = dec_of(n);
        let head = dec_of(n / 10);
        assert(d.drop_last() =~= head);
        assert(d.last() == digit_char(n % 10));
        assert(0 <= n % 10 < 10) by (nonlinear_arith)
            requires
                n >= 10,
        ;
        assert(digit_val(digit_char(n % 10)) == n % 10);
        assert(digits_val(d) == (n / 10) * 10 + n % 10);
        vstd::arithmetic::div_mod::lemma_fundamental_div_mod(n, 10);
        assert forall|i: int| 0 <= i < d.len() implies is_digit(#[trigger] d[i]) by {
            if i < head.len() {
                assert(d[i] == head[i]);
            }
        }
    }
}

// ----- rendering a record -----

/// The JSON object of a record: its fields in declaration order, with the
/// process name under the key `processName`.
pub open spec fn json_of(m: PortModel) -> Seq<char> {
    "{\"port\":"@ + dec_of(m.port as int) + ",\"processName\":\""@ + esc(m.process_name)
        + "\",\"pid\":"@ + dec_of(m.pid as int) + ",\"protocol\":\""@ + esc(m.protocol)
        + "\",\"state\":\""@ + esc(m.state) + "\",\"address\":\""@ + esc(m.address) + "\"}"@
}

fn append_digit(out: &mut String, d: u32)
    requires
        d < 10,
    ensures
        final(out)@ == old(out)@ + seq![digit_char(d as int)],
{
    let ghost base = out@;
    if d == 0 {
        proof {
            reveal_strlit("0");
        }
        out.append("0");
    } else if d == 1 {
        proof {
            reveal_strlit("1");
        }
        out.append("1");
    } else if d == 2 {
        proof {
            reveal_strlit("2");
        }
        out.append("2");
    } else if d == 3 {
        proof {
            reveal_strlit("3");
        }
        out.append("3");
    } else if d == 4 {
        proof {
            reveal_strlit("4");
        }
        out.append("4");
    } else if d == 5 {
        proof {
            reveal_strlit("5");
        }
        out.append("5");
    } else if d == 6 {
        proof {
            reveal_strlit("6");
        }
        out.append("6");
    } else if d == 7 {
        proof {
            reveal_strlit("7");
        }
        out.append("7");
    } else if d == 8 {
        proof {
            reveal_strlit("8");
        }
        out.append("8");
    } else {
        proof {
            reveal_strlit("9");
        }
        out.append("9");
    }
    proof {
        assert(out@ =~= base + seq![digit_char(d as int)]);
    }
}

/// Appends the decimal rendering of `n`.
fn append_dec(out: &mut String, n: u32)
    ensures
        final(out)@ == old(out)@ + dec_of(n as int),
    decreases n,
{
    let ghost base = out@;
    if n < 10 {
        append_digit(out, n);
    } else {
        proof {
            assert(n / 10 < n) by (nonlinear_arith)
                requires
                    n >= 10,
            ;
        }
        append_dec(out, n / 10);
        append_digit(out, n % 10);
        proof {
            assert(base + dec_of(n as int / 10) + seq![digit_char(n as int % 10)]
                =~= base + (dec_of(n as int / 10) + seq![digit_char(n as int % 10)]));
        }
    }
}

/// Appends the text with quotes and backslashes escaped.
fn append_escaped(out: &mut String, s: &str)
    ensures
        final(out)@ == old(out)@ + esc(s@),
{
    let ghost base = out@;
    let n: usize = s.unicode_len();
    let mut i: usize = 0;
    proof {
        assert(s@.take(0) =~= Seq::<char>::empty());
        assert(out@ =~= base + esc(s@.take(0)));
    }
    while i < n
        invariant
            n == s@.len(),
            i <= n,
            out@ == base + esc(s@.take(i as int)),
        decreases n - i,
    {
        let ghost before = out@;
        let c = s.get_char(i);
        if c == '"' {
            proof {
                reveal_strlit("\\\"");
            }
            out.append("\\\"");
        } else if c == '\\' {
            proof {
                reveal_strlit("\\\\");
            }
            out.append("\\\\");
        } else {
            let piece: &str = s.substring_char(i, i + 1);
            proof {
                assert(piece@ =~= seq![s@[i as int]]);
            }
            out.append(piece);
        }
        proof {
            let t = s@.take(i + 1);
            assert(t.drop_last() =~= s@.take(i as int));
            assert(t.last() == s@[i as int]);
            assert(esc(t) == esc(s@.take(i as int)) + esc_char(s@[i as int]));
            assert(out@ =~= before + esc_char(s@[i as int]));
            assert(out@ =~= base + esc(t));
        }
        i = i + 1;
    }
    proof {
        assert(s@.take(n as int) =~= s@);
    }
}

// ----- reading the object back -----

/// Does `lit` stand verbatim in `s` at position `i`?
pub open spec fn match_lit(s: Seq<char>, i: int, lit: Seq<char>) -> bool {
    0 <= i && i + lit.len() <= s.len() && s.subrange(i, i + lit.len()) == lit
}

/// Position of the first non-digit at or after `i`, or the end.
pub open spec fn digits_end(s: Seq<char>, i: int) -> int
    decreases s.len() - i,
{
    if i < 0 || i >= s.len() || !is_digit(s[i]) {
        i
    } else {
        digits_end(s, i + 1)
    }
}

/// `digits_end` is the unique end of the all-digit run at `i`.
proof fn lemma_digits_end_run(s: Seq<char>, i: int, e: int)
    requires
        0 <= i <= e <= s.len(),
        forall|j: int| i <= j < e ==> is_digit(s[j]),
        e == s.len() || !is_digit(s[e]),
    ensures
        digits_end(s, i) == e,
    decreases e - i,
{
    if i < e {
        lemma_digits_end_run(s, i + 1, e);
    }
}

/// The content of a JSON string, read from `i` up to its closing quote,
/// and the position just past that quote.
pub open spec fn scan_str(s: Seq<char>, i: int) -> Option<(Seq<char>, int)>
    decreases s.len() - i,
{
    if i < 0 || i >= s.len() {
        None
    } else if s[i] == '"' {
        Some((Seq::empty(), i + 1))
    } else if s[i] == '\\' {
        if i + 1 < s.len() && (s[i + 1] == '"' || s[i + 1] == '\\') {
            match scan_str(s, i + 2) {
                None => None,
                Some((body, end)) => Some((seq![s[i + 1]] + body, end)),
            }
        } else {
            None
        }
    } else {
        match scan_str(s, i + 1) {
            None => None,
            Some((body, end)) => Some((seq![s[i]] + body, end)),
        }
    }
}

/// Reading an escaped text followed by a closing quote yields the text
/// back and stops just past the quote.
proof fn lemma_scan_esc(s: Seq<char>, i: int, raw: Seq<char>)
    requires
        0 <= i,
        i + esc(raw).len() + 1 <= s.len(),
        s.subrange(i, i + esc(raw).len()) == esc(raw),
        s[i + esc(raw).len()] == '"',
    ensures
        scan_str(s, i) == Some((raw, i + esc(raw).len() + 1)),
    decreases raw.len(),
{
    if raw.len() == 0 {
        assert(esc(raw) =~= Seq::<char>::empty());
        assert(s[i] == '"');
        assert(scan_str(s, i) == Some((Seq::<char>::empty(), i + 1)));
        assert(Seq::<char>::empty() =~= raw);
    } else {
        let c = raw[0];
        let r2 = raw.drop_first();
        assert(raw =~= seq![c] + r2);
        lemma_esc_concat(seq![c], r2);
        assert(esc(seq![c]) == esc(Seq::<char>::empty()) + esc_char(c)) by {
            assert(seq![c].drop_last() =~= Seq::<char>::empty());
            assert(seq![c].last() == c);
        }
        assert(esc(seq![c]) =~= esc_char(c));
        assert(esc(raw) == esc_char(c) + esc(r2));
        let el = esc(raw).len();
        if c == '"' || c == '\\' {
            assert(esc_char(c) == seq!['\\', c]);
            assert(el == 2 + esc(r2).len());
            assert(s[i] == '\\') by {
                assert(s.subrange(i, i + el)[0] == esc(raw)[0]);
            }
            assert(s[i + 1] == c) by {
                assert(s.subrange(i, i + el)[1] == esc(raw)[1]);
            }
            assert forall|j: int| 0 <= j < esc(r2).len()
                implies #[trigger] s.subrange(i + 2, i + 2 + esc(r2).len())[j] == esc(r2)[j] by {
                assert(s.subrange(i, i + el)[j + 2] == esc(raw)[j + 2]);
            }
            assert(s.subrange(i + 2, i + 2 + esc(r2).len()) =~= esc(r2));
            lemma_scan_esc(s, i + 2, r2);
            assert(scan_str(s, i) == Some((seq![c] + r2, i + el + 1)));
        } else {
            assert(esc_char(c) == seq![c]);
            assert(el == 1 + esc(r2).len());
            assert(s[i] == c) by {
                assert(s.subrange(i, i + el)[0] == esc(raw)[0]);
            }
            assert(s[i] != '"' && s[i] != '\\');
            assert forall|j: int| 0 <= j < esc(r2).len()
                implies #[trigger] s.subrange(i + 1, i + 1 + esc(r2).len())[j] == esc(r2)[j] by {
                assert(s.subrange(i, i + el)[j + 1] == esc(raw)[j + 1]);
            }
            assert(s.subrange(i + 1, i + 1 + esc(r2).len()) =~= esc(r2));
            lemma_scan_esc(s, i + 1, r2);
            assert(scan_str(s, i) == Some((seq![c] + r2, i + el + 1)));
        }
    }
}

/// What reading a record's JSON object back yields, if anything: exactly
/// the shape the renderer emits, with the same fields in the same order.
pub open spec fn parse_json(s: Seq<char>) -> Option<PortModel> {
    if !match_lit(s, 0, "{\"port\":"@) {
        None
    } else {
        let i1 = "{\"port\":"@.len() as int;
        let e1 = digits_end(s, i1);
        if e1 == i1 || digits_val(s.subrange(i1, e1)) > u32::MAX {
            None
        } else {
            let port = digits_val(s.subrange(i1, e1)) as u32;
            if !match_lit(s, e1, ",\"processName\":\""@) {
                None
            } else {
                let i2 = e1 + ",\"processName\":\""@.len();
                match scan_str(s, i2) {
                    None => None,
                    Some((name, e2)) => {
                        if !match_lit(s, e2, ",\"pid\":"@) {
                            None
                        } else {
                            let i3 = e2 + ",\"pid\":"@.len();
                            let e3 = digits_end(s, i3);
                            if e3 == i3 || digits_val(s.subrange(i3, e3)) > u32::MAX {
                                None
                            } else {
                                let pid = digits_val(s.subrange(i3, e3)) as u32;
                                parse_json_rest(s, e3, port, name, pid)
                            }
                        }
                    },
                }
            }
        }
    }
}

/// The tail of `parse_json`: the three remaining text fields and the
/// closing brace.
pub open spec fn parse_json_rest(
    s: Seq<char>,
    e3: int,
    port: u32,
    name: Seq<char>,
    pid: u32,
) -> Option<PortModel> {
    if !match_lit(s, e3, ",\"protocol\":\""@) {
        None
    } else {
        match scan_str(s, e3 + ",\"protocol\":\""@.len()) {
            None => None,
            Some((protocol, e4)) => {
                if !match_lit(s, e4, ",\"state\":\""@) {
                    None
                } else {
                    match scan_str(s, e4 + ",\"state\":\""@.len()) {
                        None => None,
                        Some((state, e5)) => {
                            if !match_lit(s, e5, ",\"address\":\""@) {
                                None
                            } else {
                                match scan_str(s, e5 + ",\"address\":\""@.len()) {
                                    None => None,
                                    Some((address, e6)) => {
                                        if match_lit(s, e6, "}"@) && e6 + 1 == s.len() {
                                            Some(PortModel {
                                                port,
                                                process_name: name,
                                                pid,
                                                protocol,
                                                state,
                                                address,
                                            })
                                        } else {
                                            None
                                        }
                                    },
                                }
                            }
                        },
                    }
                }
            },
        }
    }
}

/// Renders a record as its JSON object.
pub fn port_to_json(p: &Port) -> (r: String)
    ensures
        r@ == json_of(p@),
{
    let mut out: String = String::new();
    out.append("{\"port\":");
    append_dec(&mut out, p.port);
    out.append(",\"processName\":\"");
    append_escaped(&mut out, p.process_name.as_str());
    out.append("\",\"pid\":");
    append_dec(&mut out, p.pid);
    out.append(",\"protocol\":\"");
    append_escaped(&mut out, p.protocol.as_str());
    out.append("\",\"state\":\"");
    append_escaped(&mut out, p.state.as_str());
    out.append("\",\"address\":\"");
    append_escaped(&mut out, p.address.as_str());
    out.append("\"}");
    proof {
        assert(out@ =~= json_of(p@));
    }
    out
}

// ----- the executable reader -----

/// Does `lit` stand at position `i`? Yields the position just past it.
fn expect_lit(s: &str, i: usize, lit: &str) -> (r: Option<usize>)
    requires
        i <= s@.len(),
    ensures
        r matches Some(j) ==> match_lit(s@, i as int, lit@) && j == i + lit@.len(),
        r is None ==> !match_lit(s@, i as int, lit@),
{
    let n: usize = s.unicode_len();
    let m: usize = lit.unicode_len();
    if m > n - i {
        return None;
    }
    let mut k: usize = 0;
    while k < m
        invariant
            n == s@.len(),
            m == lit@.len(),
            i + m <= n,
            k <= m,
            forall|t: int| 0 <= t < k ==> s@[i + t] == lit@[t],
        decreases m - k,
    {
        if s.get_char(i + k) != lit.get_char(k) {
            proof {
                if match_lit(s@, i as int, lit@) {
                    assert(s@.subrange(i as int, i + lit@.len())[k as int] == lit@[k as int]);
                }
            }
            return None;
        }
        k = k + 1;
    }
    proof {
        assert(s@.subrange(i as int, i + lit@.len()) =~= lit@);
    }
    Some(i + m)
}

/// Reads the digit run at `i` as an unsigned 32-bit number.
fn read_u32_at(s: &str, i: usize) -> (r: Option<(u32, usize)>)
    requires
        i <= s@.len(),
    ensures
        r is Some <==> (digits_end(s@, i as int) > i && digits_val(
            s@.subrange(i as int, digits_end(s@, i as int)),
        ) <= u32::MAX),
        r matches Some(p) ==> p.1 == digits_end(s@, i as int) && p.0 as int == digits_val(
            s@.subrange(i as int, digits_end(s@, i as int)),
        ) && i < p.1 <= s@.len(),
        i <= digits_end(s@, i as int) <= s@.len(),
{
    let n: usize = s.unicode_len();
    let mut e: usize = i;
    while e < n && is_digit_char(s.get_char(e))
        invariant
            n == s@.len(),
            i <= e <= n,
            forall|j: int| i <= j < e ==> is_digit(s@[j]),
        decreases n - e,
    {
        e = e + 1;
    }
    proof {
        lemma_digits_end_run(s@, i as int, e as int);
    }
    if e == i {
        return None;
    }
    let ghost run = s@.subrange(i as int, e as int);
    proof {
        assert(forall|j: int| 0 <= j < run.len() ==> is_digit(run[j]));
    }
    let mut val: u64 = 0;
    let mut j2: usize = i;
    proof {
        assert(run.take(0) =~= Seq::<char>::empty());
    }
    while j2 < e
        invariant
            n == s@.len(),
            i <= j2 <= e <= n,
            e as int == digits_end(s@, i as int),
            run == s@.subrange(i as int, e as int),
            forall|j: int| 0 <= j < run.len() ==> is_digit(run[j]),
            val == digits_val(run.take(j2 - i)),
            val <= u32::MAX,
        decreases e - j2,
    {
        let c = s.get_char(j2);
        proof {
            assert(run[j2 - i] == s@[j2 as int]);
            assert(is_digit(c));
            assert(run.take(j2 - i + 1).drop_last() =~= run.take(j2 - i));
            assert(run.take(j2 - i + 1).last() == run[j2 - i]);
        }
        let d: u64 = (c as u32 as u64) - 48;
        let next: u64 = val * 10 + d;
        if next > 0xffff_ffff {
            proof {
                assert(digits_val(run.take(j2 - i + 1)) > u32::MAX);
                lemma_digits_val_prefix(run, j2 - i + 1);
            }
            return None;
        }
        val = next;
        j2 = j2 + 1;
    }
    proof {
        assert(run.take(e - i) =~= run);
        lemma_digits_val_nonneg(run);
    }
    Some((val as u32, e))
}

/// Reads the JSON string whose content starts at `i`, up to its closing
/// quote.
fn scan_string_at(s: &str, i: usize) -> (r: Option<(String, usize)>)
    requires
        i <= s@.len(),
    ensures
        r is Some <==> scan_str(s@, i as int) is Some,
        r matches Some(p) ==> scan_str(s@, i as int) == Some((p.0@, p.1 as int)) && p.1
            <= s@.len(),
{
    let n: usize = s.unicode_len();
    let mut out: String = String::new();
    let mut q: usize = i;
    proof {
        assert(out@ =~= Seq::<char>::empty());
        if scan_str(s@, q as int) is Some {
            let t = scan_str(s@, q as int).unwrap();
            assert(out@ + t.0 =~= t.0);
        }
    }
    while q < n
        invariant
            n == s@.len(),
            i <= q <= n,
            scan_str(s@, i as int) is Some <==> scan_str(s@, q as int) is Some,
            scan_str(s@, q as int) matches Some(t) ==> scan_str(s@, i as int) == Some(
                (out@ + t.0, t.1),
            ),
        decreases n - q,
    {
        let ghost before = out@;
        let c = s.get_char(q);
        if c == '"' {
            proof {
                assert(scan_str(s@, q as int) == Some((Seq::<char>::empty(), q + 1)));
                assert(before + Seq::<char>::empty() =~= before);
            }
            return Some((out, q + 1));
        } else if c == '\\' {
            if q + 1 < n {
                let c2 = s.get_char(q + 1);
                if c2 == '"' || c2 == '\\' {
                    let piece: &str = s.substring_char(q + 1, q + 2);
                    proof {
                        assert(piece@ =~= seq![s@[q + 1]]);
                    }
                    out.append(piece);
                    proof {
                        if scan_str(s@, q as int + 2) is Some {
                            let t2 = scan_str(s@, q as int + 2).unwrap();
                            assert(scan_str(s@, q as int) == Some(
                                (seq![s@[q + 1]] + t2.0, t2.1),
                            ));
                            assert(out@ + t2.0 =~= before + (seq![s@[q + 1]] + t2.0));
                        } else {
                            assert(scan_str(s@, q as int) is None);
                        }
                    }
                    q = q + 2;
                } else {
                    proof {
                        assert(scan_str(s@, q as int) is None);
                    }
                    return None;
                }
            } else {
                proof {
                    assert(scan_str(s@, q as int) is None);
                }
                return None;
            }
        } else {
            let piece: &str = s.substring_char(q, q + 1);
            proof {
                assert(piece@ =~= seq![s@[q as int]]);
            }
            out.append(piece);
            proof {
                if scan_str(s@, q as int + 1) is Some {
                    let t2 = scan_str(s@, q as int + 1).unwrap();
                    assert(scan_str(s@, q as int) == Some((seq![s@[q as int]] + t2.0, t2.1)));
                    assert(out@ + t2.0 =~= before + (seq![s@[q as int]] + t2.0));
                } else {
                    assert(scan_str(s@, q as int) is None);
                }
            }
            q = q + 1;
        }
    }
    proof {
        assert(scan_str(s@, q as int) is None);
    }
    None
}

/// Reads a record back from its JSON object; anything but the renderer's
/// exact shape is rejected.
pub fn port_from_json(s: &str) -> (r: Option<Port>)
    ensures
        r is Some <==> parse_json(s@) is Some,
        r matches Some(p) ==> p@ == parse_json(s@).unwrap(),
{
    let n: usize = s.unicode_len();
    let i1 = match expect_lit(s, 0, "{\"port\":") {
        Some(j) => j,
        None => {
            return None;
        },
    };
    let (port, e1) = match read_u32_at(s, i1) {
        Some(p) => p,
        None => {
            return None;
        },
    };
    let i2 = match expect_lit(s, e1, ",\"processName\":\"") {
        Some(j) => j,
        None => {
            return None;
        },
    };
    let (name, e2) = match scan_string_at(s, i2) {
        Some(p) => p,
        None => {
            return None;
        },
    };
    let i3 = match expect_lit(s, e2, ",\"pid\":") {
        Some(j) => j,
        None => {
            return None;
        },
    };
    let (pid, e3) = match read_u32_at(s, i3) {
        Some(p) => p,
        None => {
            return None;
        },
    };
    let i4 = match expect_lit(s, e3, ",\"protocol\":\"") {
        Some(j) => j,
        None => {
            return None;
        },
    };
    let (protocol, e4) = match scan_string_at(s, i4) {
        Some(p) => p,
        None => {
            return None;
        },
    };
    let i5 = match expect_lit(s, e4, ",\"state\":\"") {
        Some(j) => j,
        None => {
            return None;
        },
    };
    let (state, e5) = match scan_string_at(s, i5) {
        Some(p) => p,
        None => {
            return None;
        },
    };
    let i6 = match expect_lit(s, e5, ",\"address\":\"") {
        Some(j) => j,
        None => {
            return None;
        },
    };
    let (address, e6) = match scan_string_at(s, i6) {
        Some(p) => p,
        None => {
            return None;
        },
    };
    let i7 = match expect_lit(s, e6, "}") {
        Some(j) => j,
        None => {
            return None;
        },
    };
    proof {
        reveal_strlit("}");
    }
    if i7 != n {
        return None;
    }
    Some(Port { port, process_name: name, pid, protocol, state, address })
}

// ----- the stated round trip -----

/// Rendering any record and reading it back yields the record unchanged,
/// field for field.
#[verifier::rlimit(50)]
pub proof fn lemma_json_round_trip(m: PortModel)
    ensures
        parse_json(json_of(m)) == Some(m),
{
    let s = json_of(m);
    reveal_strlit("{\"port\":");
    reveal_strlit(",\"processName\":\"");
    reveal_strlit("\",\"pid\":");
    reveal_strlit(",\"pid\":");
    reveal_strlit(",\"protocol\":\"");
    reveal_strlit("\",\"state\":\"");
    reveal_strlit(",\"state\":\"");
    reveal_strlit("\",\"address\":\"");
    reveal_strlit(",\"address\":\"");
    reveal_strlit("\"}");
    reveal_strlit("}");
    lemma_dec_of(m.port as int);
    lemma_dec_of(m.pid as int);
    let dp = dec_of(m.port as int);
    let en = esc(m.process_name);
    let dd = dec_of(m.pid as int);
    let ep = esc(m.protocol);
    let es = esc(m.state);
    let ea = esc(m.address);
    let i1: int = 8;
    let e1 = i1 + dp.len() as int;
    let i2 = e1 + 16;
    let q2 = i2 + en.len() as int;
    let e2 = q2 + 1;
    let i3 = e2 + 7;
    let e3 = i3 + dd.len() as int;
    let i4 = e3 + 13;
    let q4 = i4 + ep.len() as int;
    let e4 = q4 + 1;
    let i5 = e4 + 10;
    let q5 = i5 + es.len() as int;
    let e5 = q5 + 1;
    let i6 = e5 + 12;
    let q6 = i6 + ea.len() as int;
    let e6 = q6 + 1;
    assert(s.len() == e6 + 1);
    // the opening brace and the port key
    assert(s.subrange(0, i1) =~= "{\"port\":"@);
    assert(match_lit(s, 0, "{\"port\":"@));
    // the port digits, ended by the comma that follows them
    assert(s.subrange(i1, e1) =~= dp);
    assert(s[e1] == ',');
    lemma_digits_end_run(s, i1, e1);
    assert(digits_val(s.subrange(i1, e1)) == m.port);
    // the processName key and its string
    assert(s.subrange(e1, i2) =~= ",\"processName\":\""@);
    assert(match_lit(s, e1, ",\"processName\":\""@));
    assert(s.subrange(i2, q2) =~= en);
    assert(s[q2] == '"');
    lemma_scan_esc(s, i2, m.process_name);
    assert(scan_str(s, i2) == Some((m.process_name, e2)));
    // the pid key and digits
    assert(s.subrange(e2, i3) =~= ",\"pid\":"@);
    assert(match_lit(s, e2, ",\"pid\":"@));
    assert(s.subrange(i3, e3) =~= dd);
    assert(s[e3] == ',');
    lemma_digits_end_run(s, i3, e3);
    assert(digits_val(s.subrange(i3, e3)) == m.pid);
    // the protocol key and its string
    assert(s.subrange(e3, i4) =~= ",\"protocol\":\""@);
    assert(match_lit(s, e3, ",\"protocol\":\""@));
    assert(s.subrange(i4, q4) =~= ep);
    assert(s[q4] == '"');
    lemma_scan_esc(s, i4, m.protocol);
    assert(scan_str(s, i4) == Some((m.protocol, e4)));
    // the state key and its string
    assert(s.subrange(e4, i5) =~= ",\"state\":\""@);
    assert(match_lit(s, e4, ",\"state\":\""@));
    assert(s.subrange(i5, q5) =~= es);
    assert(s[q5] == '"');
    lemma_scan_esc(s, i5, m.state);
    assert(scan_str(s, i5) == Some((m.state, e5)));
    // the address key and its string
    assert(s.subrange(e5, i6) =~= ",\"address\":\""@);
    assert(match_lit(s, e5, ",\"address\":\""@));
    assert(s.subrange(i6, q6) =~= ea);
    assert(s[q6] == '"');
    lemma_scan_esc(s, i6, m.address);
    assert(scan_str(s, i6) == Some((m.address, e6)));
    // the closing brace ends the text
    assert(s.subrange(e6, e6 + 1) =~= "}"@);
    assert(match_lit(s, e6, "}"@));
    assert(parse_json(s) == Some(m));
}

} // verus!
