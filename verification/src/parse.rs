//! Parsing one line of the socket-listing facility's output.
//!
//! A line is split on runs of whitespace; a well-formed line carries at
//! least ten tokens: process name, pid, six unused columns, protocol, an
//! `address:port` segment, and an optional parenthesized state. Lines that
//! do not fit are rejected as a whole: no partial record is ever built.

use vstd::prelude::*;
use vstd::string::StrSliceExecFns;
use crate::record::{Port, PortModel};

verus! {

// ----- characters -----

/// The Unicode white-space characters, as the tokenizer recognises them.
pub open spec fn is_space(c: char) -> bool {
    ||| c == ' '
    ||| ('\u{9}' <= c && c <= '\u{d}')
    ||| c == '\u{85}'
    ||| c == '\u{a0}'
    ||| c == '\u{1680}'
    ||| ('\u{2000}' <= c && c <= '\u{200a}')
    ||| c == '\u{2028}'
    ||| c == '\u{2029}'
    ||| c == '\u{202f}'
    ||| c == '\u{205f}'
    ||| c == '\u{3000}'
}

fn is_space_char(c: char) -> (b: bool)
    ensures
        b == is_space(c),
{
    c == ' ' || ('\u{9}' <= c && c <= '\u{d}') || c == '\u{85}' || c == '\u{a0}'
        || c == '\u{1680}' || ('\u{2000}' <= c && c <= '\u{200a}') || c == '\u{2028}'
        || c == '\u{2029}' || c == '\u{202f}' || c == '\u{205f}' || c == '\u{3000}'
}

pub open spec fn is_digit(c: char) -> bool {
    '0' <= c && c <= '9'
}

pub(crate) fn is_digit_char(c: char) -> (b: bool)
    ensures
        b == is_digit(c),
{
    '0' <= c && c <= '9'
}

/// Numeric value of a decimal digit character.
pub open spec fn digit_val(c: char) -> int {
    c as int - '0' as int
}

// ----- first and last occurrence of a character -----

/// Index of the first occurrence of `c` in `s`, or `s.len()` if absent.
pub open spec fn first_idx(s: Seq<char>, c: char) -> int
    decreases s.len(),
{
    if s.len() == 0 {
        0
    } else if s[0] == c {
        0
    } else {
        1 + first_idx(s.drop_first(), c)
    }
}

/// Index of the last occurrence of `c` in `s`, or `-1` if absent.
pub open spec fn last_idx(s: Seq<char>, c: char) -> int
    decreases s.len(),
{
    if s.len() == 0 {
        -1
    } else if s.last() == c {
        s.len() - 1
    } else {
        last_idx(s.drop_last(), c)
    }
}

pub open spec fn has_char(s: Seq<char>, c: char) -> bool {
    exists|i: int| 0 <= i < s.len() && s[i] == c
}

/// `first_idx` is the unique position with nothing equal to `c` before it.
pub proof fn lemma_first_idx_is(s: Seq<char>, c: char, f: int)
    requires
        0 <= f <= s.len(),
        forall|j: int| 0 <= j < f ==> s[j] != c,
        f == s.len() || s[f] == c,
    ensures
        first_idx(s, c) == f,
    decreases s.len(),
{
    if s.len() == 0 {
    } else if s[0] == c {
        assert(f == 0);
    } else {
        assert(f >= 1);
        let t = s.drop_first();
        assert(forall|j: int| 0 <= j < f - 1 ==> t[j] != c);
        assert(f - 1 == t.len() || t[f - 1] == c);
        lemma_first_idx_is(t, c, f - 1);
    }
}

/// `last_idx` is the unique position with nothing equal to `c` after it.
pub proof fn lemma_last_idx_is(s: Seq<char>, c: char, l: int)
    requires
        -1 <= l < s.len(),
        forall|j: int| l < j < s.len() ==> s[j] != c,
        l == -1 || s[l] == c,
    ensures
        last_idx(s, c) == l,
    decreases s.len(),
{
    if s.len() == 0 {
    } else if s.last() == c {
        assert(l == s.len() - 1);
    } else {
        assert(l < s.len() - 1);
        let t = s.drop_last();
        assert(forall|j: int| l < j < t.len() ==> t[j] != c);
        lemma_last_idx_is(t, c, l);
    }
}

/// `has_char` holds exactly when `last_idx` found an occurrence.
pub proof fn lemma_last_idx_has_char(s: Seq<char>, c: char)
    ensures
        has_char(s, c) <==> last_idx(s, c) >= 0,
        last_idx(s, c) >= 0 ==> s[last_idx(s, c)] == c,
        last_idx(s, c) < s.len(),
    decreases s.len(),
{
    if s.len() == 0 {
    } else if s.last() == c {
    } else {
        let t = s.drop_last();
        lemma_last_idx_has_char(t, c);
        if has_char(s, c) {
            let i = choose|i: int| 0 <= i < s.len() && s[i] == c;
            assert(i < s.len() - 1);
            assert(t[i] == c);
            assert(has_char(t, c));
        }
        if has_char(t, c) {
            let i = choose|i: int| 0 <= i < t.len() && t[i] == c;
            assert(s[i] == c);
        }
    }
}

// ----- tokens -----

/// Length of the maximal non-whitespace prefix of `s`.
pub open spec fn run_len(s: Seq<char>) -> nat
    decreases s.len(),
{
    if s.len() == 0 || is_space(s[0]) {
        0
    } else {
        1 + run_len(s.drop_first())
    }
}

/// The maximal non-whitespace prefix is never longer than the string.
pub proof fn lemma_run_len_le(s: Seq<char>)
    ensures
        run_len(s) <= s.len(),
    decreases s.len(),
{
    if s.len() > 0 && !is_space(s[0]) {
        lemma_run_len_le(s.drop_first());
    }
}

/// The whitespace-delimited tokens of `s`, in order.
pub open spec fn tokens(s: Seq<char>) -> Seq<Seq<char>>
    decreases s.len(),
    via tokens_decreases
{
    if s.len() == 0 {
        Seq::empty()
    } else if is_space(s[0]) {
        tokens(s.drop_first())
    } else {
        seq![s.take(run_len(s) as int)] + tokens(s.skip(run_len(s) as int))
    }
}

#[via_fn]
proof fn tokens_decreases(s: Seq<char>) {
    if s.len() > 0 && !is_space(s[0]) {
        lemma_run_len_le(s);
        assert(run_len(s) >= 1);
    }
}

/// `run_len` is the unique length of an all-non-space prefix that ends at
/// the string's end or at a space.
pub proof fn lemma_run_len_is(s: Seq<char>, n: int)
    requires
        0 <= n <= s.len(),
        forall|j: int| 0 <= j < n ==> !is_space(s[j]),
        n == s.len() || is_space(s[n]),
    ensures
        run_len(s) == n,
    decreases s.len(),
{
    if s.len() == 0 {
    } else if is_space(s[0]) {
        assert(n == 0);
    } else {
        assert(n >= 1);
        let t = s.drop_first();
        assert(forall|j: int| 0 <= j < n - 1 ==> !is_space(t[j]));
        assert(n - 1 == t.len() || is_space(t[n - 1]));
        lemma_run_len_is(t, n - 1);
    }
}

/// Splits a line on runs of whitespace.
pub fn tokenize(line: &str) -> (toks: Vec<String>)
    ensures
        toks.deep_view() == tokens(line@),
{
    let n: usize = line.unicode_len();
    let mut toks: Vec<String> = Vec::new();
    let mut i: usize = 0;
    proof {
        assert(line@.skip(0) =~= line@);
        assert(toks.deep_view() =~= Seq::<Seq<char>>::empty());
        assert(toks.deep_view() + tokens(line@) =~= tokens(line@));
    }
    while i < n
        invariant
            n == line@.len(),
            i <= n,
            tokens(line@) == toks.deep_view() + tokens(line@.skip(i as int)),
        decreases n - i,
    {
        let c = line.get_char(i);
        if is_space_char(c) {
            proof {
                let rest = line@.skip(i as int);
                assert(rest[0] == line@[i as int]);
                assert(rest.drop_first() =~= line@.skip(i as int + 1));
                assert(tokens(rest) == tokens(line@.skip(i as int + 1)));
            }
            i = i + 1;
        } else {
            let start: usize = i;
            i = i + 1;
            while i < n && !is_space_char(line.get_char(i))
                invariant
                    n == line@.len(),
                    start < i <= n,
                    forall|j: int| start <= j < i ==> !is_space(line@[j]),
                decreases n - i,
            {
                i = i + 1;
            }
            let tok: String = line.substring_char(start, i).to_owned();
            proof {
                let rest = line@.skip(start as int);
                let m = i - start;
                assert(forall|j: int| 0 <= j < m ==> rest[j] == line@[start + j]
                    && !is_space(rest[j]));
                assert(m == rest.len() || is_space(rest[m as int]));
                lemma_run_len_is(rest, m as int);
                assert(rest.take(m as int) =~= line@.subrange(start as int, i as int));
                assert(rest.skip(m as int) =~= line@.skip(i as int));
                assert(tokens(rest) == seq![line@.subrange(start as int, i as int)]
                    + tokens(line@.skip(i as int)));
                assert(toks.deep_view().push(tok@) =~= toks.deep_view() + seq![tok@]);
                assert((toks.deep_view() + seq![tok@]) + tokens(line@.skip(i as int))
                    =~= toks.deep_view() + (seq![tok@] + tokens(line@.skip(i as int))));
            }
            let ghost old_toks = toks.deep_view();
            toks.push(tok);
            proof {
                assert(toks.deep_view() =~= old_toks.push(tok@));
            }
        }
    }
    proof {
        assert(line@.skip(n as int) =~= Seq::<char>::empty());
        assert(tokens(line@.skip(n as int)).len() == 0);
        assert(toks.deep_view() + tokens(line@.skip(i as int)) =~= toks.deep_view());
    }
    toks
}

// ----- unsigned decimal numbers -----

/// Value of a digit string read in base ten.
pub open spec fn digits_val(s: Seq<char>) -> int
    decreases s.len(),
{
    if s.len() == 0 {
        0
    } else {
        digits_val(s.drop_last()) * 10 + digit_val(s.last())
    }
}

pub open spec fn all_digits(s: Seq<char>) -> bool {
    forall|i: int| 0 <= i < s.len() ==> is_digit(s[i])
}

/// What `str::parse::<u32>` accepts: an optional leading `+`, then one or
/// more decimal digits whose value fits in 32 bits.
pub open spec fn parse_u32(s: Seq<char>) -> Option<u32> {
    let body = if s.len() > 0 && s[0] == '+' {
        s.drop_first()
    } else {
        s
    };
    if body.len() > 0 && all_digits(body) && digits_val(body) <= u32::MAX {
        Some(digits_val(body) as u32)
    } else {
        None
    }
}

pub(crate) proof fn lemma_digits_val_nonneg(s: Seq<char>)
    requires
        all_digits(s),
    ensures
        digits_val(s) >= 0,
    decreases s.len(),
{
    if s.len() > 0 {
        let t = s.drop_last();
        assert(forall|i: int| 0 <= i < t.len() ==> t[i] == s[i]);
        lemma_digits_val_nonneg(t);
    }
}

/// A digit string's value never shrinks as digits are appended.
pub(crate) proof fn lemma_digits_val_prefix(s: Seq<char>, k: int)
    requires
        all_digits(s),
        0 <= k <= s.len(),
    ensures
        digits_val(s.take(k)) <= digits_val(s),
    decreases s.len(),
{
    if k == s.len() {
        assert(s.take(k) =~= s);
    } else {
        let t = s.drop_last();
        assert(forall|i: int| 0 <= i < t.len() ==> t[i] == s[i]);
        assert(s.take(k) =~= t.take(k));
        lemma_digits_val_prefix(t, k);
        lemma_digits_val_nonneg(t);
    }
}

/// Parses an unsigned 32-bit decimal number, exactly as the standard
/// library's string-to-`u32` conversion does.
pub fn parse_u32_str(s: &str) -> (r: Option<u32>)
    ensures
        r == parse_u32(s@),
{
    let n: usize = s.unicode_len();
    let mut start: usize = 0;
    if n > 0 && s.get_char(0) == '+' {
        start = 1;
    }
    let ghost body = if s@.len() > 0 && s@[0] == '+' { s@.drop_first() } else { s@ };
    proof {
        assert(body =~= s@.subrange(start as int, n as int));
    }
    if start == n {
        return None;
    }
    let mut val: u64 = 0;
    let mut j: usize = start;
    while j < n
        invariant
            n == s@.len(),
            start <= j <= n,
            body == s@.subrange(start as int, n as int),
            body == (if s@.len() > 0 && s@[0] == '+' {
                s@.drop_first()
            } else {
                s@
            }),
            forall|k: int| 0 <= k < j - start ==> is_digit(body[k]),
            val == digits_val(body.take(j - start)),
            val <= u32::MAX,
        decreases n - j,
    {
        let c = s.get_char(j);
        proof {
            assert(body[j - start] == s@[j as int]);
        }
        if !is_digit_char(c) {
            proof {
                assert(!is_digit(body[j - start]));
                assert(!all_digits(body));
            }
            return None;
        }
        let d: u64 = (c as u32 as u64) - 48;
        proof {
            assert(body.take(j - start + 1).drop_last() =~= body.take(j - start));
            assert(body.take(j - start + 1).last() == body[j - start]);
        }
        let next: u64 = val * 10 + d;
        if next > 0xffff_ffff {
            proof {
                assert(digits_val(body.take(j - start + 1)) > u32::MAX);
                if all_digits(body) {
                    lemma_digits_val_prefix(body, j - start + 1);
                }
            }
            return None;
        }
        val = next;
        j = j + 1;
    }
    proof {
        assert(body.take(n - start) =~= body);
        assert(all_digits(body));
    }
    Some(val as u32)
}

// ----- trimming parentheses -----

pub open spec fn is_paren(c: char) -> bool {
    c == '(' || c == ')'
}

/// Number of leading parenthesis characters.
pub open spec fn lead_parens(s: Seq<char>) -> int
    decreases s.len(),
{
    if s.len() == 0 || !is_paren(s[0]) {
        0
    } else {
        1 + lead_parens(s.drop_first())
    }
}

/// Number of trailing parenthesis characters.
pub open spec fn trail_parens(s: Seq<char>) -> int
    decreases s.len(),
{
    if s.len() == 0 || !is_paren(s.last()) {
        0
    } else {
        1 + trail_parens(s.drop_last())
    }
}

/// `s` with all leading and trailing parenthesis characters removed.
pub open spec fn trim_parens(s: Seq<char>) -> Seq<char> {
    if lead_parens(s) == s.len() {
        Seq::empty()
    } else {
        s.subrange(lead_parens(s), s.len() - trail_parens(s))
    }
}

proof fn lemma_lead_parens_is(s: Seq<char>, a: int)
    requires
        0 <= a <= s.len(),
        forall|j: int| 0 <= j < a ==> is_paren(s[j]),
        a == s.len() || !is_paren(s[a]),
    ensures
        lead_parens(s) == a,
    decreases s.len(),
{
    if s.len() == 0 {
    } else if !is_paren(s[0]) {
        assert(a == 0);
    } else {
        assert(a >= 1);
        let t = s.drop_first();
        assert(forall|j: int| 0 <= j < a - 1 ==> is_paren(t[j]));
        lemma_lead_parens_is(t, a - 1);
    }
}

proof fn lemma_trail_parens_is(s: Seq<char>, b: int)
    requires
        0 <= b <= s.len(),
        forall|j: int| s.len() - b <= j < s.len() ==> is_paren(s[j]),
        b == s.len() || !is_paren(s[s.len() - b - 1]),
    ensures
        trail_parens(s) == b,
    decreases s.len(),
{
    if s.len() == 0 {
    } else if !is_paren(s.last()) {
        assert(b == 0);
    } else {
        assert(b >= 1);
        let t = s.drop_last();
        assert(forall|j: int| t.len() - (b - 1) <= j < t.len() ==> t[j] == s[j]
            && is_paren(t[j]));
        lemma_trail_parens_is(t, b - 1);
    }
}

/// Strips leading and trailing parenthesis characters from a token.
fn trim_parens_str(s: &str) -> (r: String)
    ensures
        r@ == trim_parens(s@),
{
    let n: usize = s.unicode_len();
    let mut a: usize = 0;
    while a < n && is_paren_char(s.get_char(a))
        invariant
            n == s@.len(),
            a <= n,
            forall|j: int| 0 <= j < a ==> is_paren(s@[j]),
        decreases n - a,
    {
        a = a + 1;
    }
    proof {
        lemma_lead_parens_is(s@, a as int);
    }
    if a == n {
        return String::new();
    }
    let mut b: usize = 0;
    while b < n - a - 1 && is_paren_char(s.get_char(n - 1 - b))
        invariant
            n == s@.len(),
            a < n,
            b <= n - a - 1,
            forall|j: int| n - b <= j < n ==> is_paren(s@[j]),
        decreases n - a - b,
    {
        b = b + 1;
    }
    proof {
        if b < n - a - 1 {
            assert(!is_paren(s@[n - b - 1]));
        } else {
            assert(b == n - a - 1);
            assert(!is_paren(s@[a as int]));
            assert(n - b - 1 == a);
        }
        lemma_trail_parens_is(s@, b as int);
    }
    s.substring_char(a, n - b).to_owned()
}

fn is_paren_char(c: char) -> (b: bool)
    ensures
        b == is_paren(c),
{
    c == '(' || c == ')'
}

// ----- the line parser -----

/// What parsing one line of the facility's output yields, if anything.
///
/// A line is rejected when it has fewer than ten tokens, when its second
/// token is not a number, when its ninth token carries no colon, or when
/// what follows that token's last colon is not a number.
pub open spec fn parse_line_spec(line: Seq<char>) -> Option<PortModel> {
    let toks = tokens(line);
    if toks.len() < 10 {
        None
    } else {
        match parse_u32(toks[1]) {
            None => None,
            Some(pid) => {
                let seg = toks[8];
                if !has_char(seg, ':') {
                    None
                } else {
                    match parse_u32(seg.skip(last_idx(seg, ':') + 1)) {
                        None => None,
                        Some(port) => Some(PortModel {
                            port: port,
                            process_name: toks[0],
                            pid: pid,
                            protocol: toks[7],
                            state: if has_char(toks[9], '(') {
                                trim_parens(toks[9])
                            } else {
                                "UNKNOWN"@
                            },
                            address: seg.take(first_idx(seg, ':')),
                        }),
                    }
                }
            },
        }
    }
}

/// Turns one line of the facility's output into a record, or rejects it.
pub fn parse_lsof_line(line: &str) -> (r: Option<Port>)
    ensures
        r is Some <==> parse_line_spec(line@) is Some,
        r is Some ==> r.unwrap()@ == parse_line_spec(line@).unwrap(),
{
    let toks = tokenize(line);
    proof {
        assert(toks.deep_view().len() == toks@.len());
    }
    if toks.len() < 10 {
        return None;
    }
    proof {
        assert(toks.deep_view()[1] == toks@[1]@);
        assert(toks.deep_view()[8] == toks@[8]@);
    }
    let pid: u32 = match parse_u32_str(toks[1].as_str()) {
        Some(p) => p,
        None => {
            return None;
        },
    };
    let seg: &str = toks[8].as_str();
    let m: usize = seg.unicode_len();
    let mut first: usize = 0;
    while first < m && seg.get_char(first) != ':'
        invariant
            m == seg@.len(),
            first <= m,
            forall|j: int| 0 <= j < first ==> seg@[j] != ':',
        decreases m - first,
    {
        first = first + 1;
    }
    proof {
        lemma_first_idx_is(seg@, ':', first as int);
        lemma_last_idx_has_char(seg@, ':');
    }
    if first == m {
        // no colon at all: a bare address without a port
        proof {
            assert(!has_char(seg@, ':')) by {
                if has_char(seg@, ':') {
                    let i = choose|i: int| 0 <= i < seg@.len() && seg@[i] == ':';
                    assert(seg@[i] != ':');
                }
            }
        }
        return None;
    }
    let mut back: usize = 0;
    while back < m - first - 1 && seg.get_char(m - 1 - back) != ':'
        invariant
            m == seg@.len(),
            first < m,
            back <= m - first - 1,
            forall|j: int| m - back <= j < m ==> seg@[j] != ':',
        decreases m - first - back,
    {
        back = back + 1;
    }
    let last: usize = m - 1 - back;
    proof {
        if back < m - first - 1 {
            assert(seg@[last as int] == ':');
        } else {
            assert(last == first);
            assert(seg@[last as int] == ':');
        }
        lemma_last_idx_is(seg@, ':', last as int);
        assert(has_char(seg@, ':'));
    }
    let port_part: &str = seg.substring_char(last + 1, m);
    proof {
        assert(seg@.skip(last + 1) =~= seg@.subrange(last + 1, m as int));
    }
    let port: u32 = match parse_u32_str(port_part) {
        Some(p) => p,
        None => {
            return None;
        },
    };
    let address: String = seg.substring_char(0, first).to_owned();
    proof {
        assert(seg@.take(first as int) =~= seg@.subrange(0, first as int));
        assert(toks.deep_view()[9] == toks@[9]@);
        assert(toks.deep_view()[0] == toks@[0]@);
        assert(toks.deep_view()[7] == toks@[7]@);
    }
    let state_tok: &str = toks[9].as_str();
    let sn: usize = state_tok.unicode_len();
    let mut has_open: bool = false;
    let mut k: usize = 0;
    while k < sn
        invariant
            sn == state_tok@.len(),
            k <= sn,
            has_open <==> exists|j: int| 0 <= j < k && state_tok@[j] == '(',
        decreases sn - k,
    {
        if state_tok.get_char(k) == '(' {
            has_open = true;
        }
        k = k + 1;
    }
    proof {
        assert(has_open <==> has_char(state_tok@, '('));
    }
    let state: String = if has_open {
        trim_parens_str(state_tok)
    } else {
        proof {
            reveal_strlit("UNKNOWN");
        }
        "UNKNOWN".to_owned()
    };
    let process_name: String = toks[0].as_str().to_owned();
    let protocol: String = toks[7].as_str().to_owned();
    Some(Port { port, process_name, pid, protocol, state, address })
}

// ----- stated properties of the parser -----

/// A well-formed line parses, and every field of the record is exactly the
/// corresponding extracted token: at least ten tokens, a numeric second
/// token, a colon somewhere in the ninth token, and a numeric final
/// colon-delimited segment there.
pub proof fn lemma_parse_well_formed(line: Seq<char>)
    requires
        tokens(line).len() >= 10,
        parse_u32(tokens(line)[1]) is Some,
        has_char(tokens(line)[8], ':'),
        parse_u32(tokens(line)[8].skip(last_idx(tokens(line)[8], ':') + 1)) is Some,
    ensures
        parse_line_spec(line) is Some,
        parse_line_spec(line).unwrap().process_name == tokens(line)[0],
        parse_line_spec(line).unwrap().pid == parse_u32(tokens(line)[1]).unwrap(),
        parse_line_spec(line).unwrap().protocol == tokens(line)[7],
        parse_line_spec(line).unwrap().address
            == tokens(line)[8].take(first_idx(tokens(line)[8], ':')),
        parse_line_spec(line).unwrap().port
            == parse_u32(tokens(line)[8].skip(last_idx(tokens(line)[8], ':') + 1)).unwrap(),
        has_char(tokens(line)[9], '(')
            ==> parse_line_spec(line).unwrap().state == trim_parens(tokens(line)[9]),
        !has_char(tokens(line)[9], '(')
            ==> parse_line_spec(line).unwrap().state == "UNKNOWN"@,
{
}

/// A line with fewer than ten tokens is rejected.
pub proof fn lemma_parse_too_few_tokens(line: Seq<char>)
    requires
        tokens(line).len() < 10,
    ensures
        parse_line_spec(line) is None,
{
}

/// A line whose ninth token carries no colon is rejected.
pub proof fn lemma_parse_no_colon(line: Seq<char>)
    requires
        tokens(line).len() > 8,
        !has_char(tokens(line)[8], ':'),
    ensures
        parse_line_spec(line) is None,
{
}

/// A line whose ninth token ends in a non-numeric final colon-delimited
/// segment is rejected.
pub proof fn lemma_parse_bad_port(line: Seq<char>)
    requires
        tokens(line).len() > 8,
        has_char(tokens(line)[8], ':'),
        parse_u32(tokens(line)[8].skip(last_idx(tokens(line)[8], ':') + 1)) is None,
    ensures
        parse_line_spec(line) is None,
{
}

} // verus!
