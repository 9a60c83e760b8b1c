//! Building one inventory snapshot from the facility's captured output.
//!
//! The first line of the output is a column-header banner and is skipped.
//! Every following line is handed to the parser; lines it rejects are
//! simply absent from the result. Records are deduplicated by their
//! (port, pid) pair, keeping the first occurrence, and finally sorted by
//! port, ties keeping their first-occurrence order.

use vstd::prelude::*;
use vstd::string::StrSliceExecFns;
use crate::parse::{first_idx, parse_line_spec, parse_lsof_line};
use crate::record::{Port, PortModel, record_key};

verus! {

// ----- splitting the output into lines -----

/// A line with one trailing carriage return removed, as happens to every
/// newline-terminated line.
pub open spec fn strip_cr(l: Seq<char>) -> Seq<char> {
    if l.len() > 0 && l.last() == '\r' {
        l.drop_last()
    } else {
        l
    }
}

/// `first_idx` never points past the end of the string.
pub proof fn lemma_first_idx_le(s: Seq<char>, c: char)
    ensures
        0 <= first_idx(s, c) <= s.len(),
    decreases s.len(),
{
    if s.len() > 0 && s[0] != c {
        lemma_first_idx_le(s.drop_first(), c);
    }
}

/// The lines of `s`: segments separated by newlines, each newline-ended
/// segment with one trailing carriage return stripped, and no empty final
/// line when the text ends in a newline.
pub open spec fn lines_of(s: Seq<char>) -> Seq<Seq<char>>
    decreases s.len(),
    via lines_of_decreases
{
    if s.len() == 0 {
        Seq::empty()
    } else {
        let i = first_idx(s, '\n');
        if i == s.len() {
            seq![s]
        } else {
            seq![strip_cr(s.take(i))] + lines_of(s.skip(i + 1))
        }
    }
}

#[via_fn]
proof fn lines_of_decreases(s: Seq<char>) {
    lemma_first_idx_le(s, '\n');
}

/// Splits captured output into lines, as the line parser expects them.
pub fn split_lines(text: &str) -> (ls: Vec<String>)
    ensures
        ls.deep_view() == lines_of(text@),
{
    let n: usize = text.unicode_len();
    let mut ls: Vec<String> = Vec::new();
    let mut start: usize = 0;
    proof {
        assert(text@.skip(0) =~= text@);
        assert(ls.deep_view() =~= Seq::<Seq<char>>::empty());
        assert(ls.deep_view() + lines_of(text@) =~= lines_of(text@));
    }
    while start < n
        invariant
            n == text@.len(),
            start <= n,
            lines_of(text@) == ls.deep_view() + lines_of(text@.skip(start as int)),
        decreases n - start,
    {
        let ghost rest = text@.skip(start as int);
        let mut j: usize = start;
        while j < n && text.get_char(j) != '\n'
            invariant
                n == text@.len(),
                start <= j <= n,
                forall|k: int| start <= k < j ==> text@[k] != '\n',
            decreases n - j,
        {
            j = j + 1;
        }
        proof {
            assert(forall|k: int| 0 <= k < j - start ==> rest[k] == text@[start + k]);
            crate::parse::lemma_first_idx_is(rest, '\n', j - start);
        }
        if j == n {
            let line: String = text.substring_char(start, n).to_owned();
            proof {
                assert(rest =~= text@.subrange(start as int, n as int));
                assert(lines_of(rest) == seq![rest]);
                assert(ls.deep_view().push(line@) =~= ls.deep_view() + seq![line@]);
                assert(text@.skip(n as int) =~= Seq::<char>::empty());
                assert((ls.deep_view() + seq![line@]) + lines_of(text@.skip(n as int))
                    =~= ls.deep_view() + seq![line@]);
            }
            let ghost old_ls = ls.deep_view();
            ls.push(line);
            proof {
                assert(ls.deep_view() =~= old_ls.push(line@));
            }
            start = n;
        } else {
            let line_end: usize = if j > start && text.get_char(j - 1) == '\r' {
                j - 1
            } else {
                j
            };
            let line: String = text.substring_char(start, line_end).to_owned();
            proof {
                let seg = rest.take(j - start);
                assert(seg =~= text@.subrange(start as int, j as int));
                if j > start && text@[j - 1] == '\r' {
                    assert(seg.len() > 0 && seg.last() == '\r');
                    assert(strip_cr(seg) =~= text@.subrange(start as int, j - 1));
                } else {
                    if seg.len() > 0 {
                        assert(seg.last() == text@[j - 1]);
                    }
                    assert(strip_cr(seg) =~= text@.subrange(start as int, j as int));
                }
                assert(line@ == strip_cr(seg));
                assert(rest.skip(j - start + 1) =~= text@.skip(j + 1));
                assert(lines_of(rest) == seq![strip_cr(seg)] + lines_of(text@.skip(j + 1)));
                assert(ls.deep_view().push(line@) =~= ls.deep_view() + seq![line@]);
                assert((ls.deep_view() + seq![line@]) + lines_of(text@.skip(j + 1))
                    =~= ls.deep_view() + (seq![line@] + lines_of(text@.skip(j + 1))));
            }
            let ghost old_ls = ls.deep_view();
            ls.push(line);
            proof {
                assert(ls.deep_view() =~= old_ls.push(line@));
            }
            start = j + 1;
        }
    }
    proof {
        assert(text@.skip(n as int) =~= Seq::<char>::empty());
        assert(ls.deep_view() + lines_of(text@.skip(start as int)) =~= ls.deep_view());
    }
    ls
}

// ----- the inventory pipeline, as mathematics -----

/// The lines fed to the parser: everything but the banner line.
pub open spec fn tail_lines(ls: Seq<Seq<char>>) -> Seq<Seq<char>> {
    if ls.len() == 0 {
        ls
    } else {
        ls.drop_first()
    }
}

/// The records of the lines that parse, in line order.
pub open spec fn parsed_records(ls: Seq<Seq<char>>) -> Seq<PortModel>
    decreases ls.len(),
{
    if ls.len() == 0 {
        Seq::empty()
    } else {
        parsed_records(ls.drop_last()) + (match parse_line_spec(ls.last()) {
            Some(r) => seq![r],
            None => Seq::empty(),
        })
    }
}

/// Is some record with this (port, pid) key in the sequence?
pub open spec fn has_key(rs: Seq<PortModel>, k: (u32, u32)) -> bool {
    exists|j: int| 0 <= j < rs.len() && record_key(rs[j]) == k
}

/// Keeps the first record of each (port, pid) key, in order.
pub open spec fn dedup_records(rs: Seq<PortModel>) -> Seq<PortModel>
    decreases rs.len(),
{
    if rs.len() == 0 {
        Seq::empty()
    } else if has_key(rs.drop_last(), record_key(rs.last())) {
        dedup_records(rs.drop_last())
    } else {
        dedup_records(rs.drop_last()).push(rs.last())
    }
}

/// Places `x` after every record whose port does not exceed `x`'s, so that
/// insertion from the left is a stable sort.
pub open spec fn insert_by_port(s: Seq<PortModel>, x: PortModel) -> Seq<PortModel>
    decreases s.len(),
{
    if s.len() == 0 {
        seq![x]
    } else if s.last().port > x.port {
        insert_by_port(s.drop_last(), x).push(s.last())
    } else {
        s.push(x)
    }
}

/// Stable insertion sort of records by ascending port.
pub open spec fn sort_by_port(s: Seq<PortModel>) -> Seq<PortModel>
    decreases s.len(),
{
    if s.len() == 0 {
        Seq::empty()
    } else {
        insert_by_port(sort_by_port(s.drop_last()), s.last())
    }
}

pub open spec fn sorted_by_port(s: Seq<PortModel>) -> bool {
    forall|i: int, j: int| 0 <= i <= j < s.len() ==> s[i].port <= s[j].port
}

/// The models of a sequence of records.
pub open spec fn models_of(s: Seq<Port>) -> Seq<PortModel> {
    s.map_values(|p: Port| p@)
}

/// What one inventory snapshot of the captured output holds: the parsed
/// records of every line after the banner, deduplicated by (port, pid)
/// keeping first occurrences, and stably sorted by port.
pub open spec fn inventory_model(text: Seq<char>) -> Seq<PortModel> {
    sort_by_port(dedup_records(parsed_records(tail_lines(lines_of(text)))))
}

// ----- helper lemmas used by the executable code -----

proof fn lemma_models_push(s: Seq<Port>, p: Port)
    ensures
        models_of(s.push(p)) == models_of(s).push(p@),
{
    assert(models_of(s.push(p))[s.len() as int] == p@);
    assert(models_of(s.push(p)) =~= models_of(s).push(p@));
}

proof fn lemma_models_insert(s: Seq<Port>, i: int, p: Port)
    requires
        0 <= i <= s.len(),
    ensures
        models_of(s.insert(i, p)) == models_of(s).insert(i, p@),
{
    assert(models_of(s.insert(i, p)) =~= models_of(s).insert(i, p@));
}

/// Deduplication keeps exactly the keys that were present.
proof fn lemma_dedup_same_keys(rs: Seq<PortModel>)
    ensures
        forall|k: (u32, u32)|
            #![trigger has_key(dedup_records(rs), k)]
            #![trigger has_key(rs, k)]
            has_key(dedup_records(rs), k) <==> has_key(rs, k),
    decreases rs.len(),
{
    if rs.len() > 0 {
        let t = rs.drop_last();
        lemma_dedup_same_keys(t);
        assert forall|k: (u32, u32)| has_key(dedup_records(rs), k) <==> has_key(rs, k) by {
            if has_key(dedup_records(rs), k) {
                if has_key(t, k) {
                    let j = choose|j: int| 0 <= j < t.len() && record_key(t[j]) == k;
                    assert(record_key(rs[j]) == k);
                } else {
                    assert(record_key(rs[rs.len() - 1]) == k);
                }
            }
            if has_key(rs, k) {
                let j = choose|j: int| 0 <= j < rs.len() && record_key(rs[j]) == k;
                if j < rs.len() - 1 {
                    assert(record_key(t[j]) == k);
                    assert(has_key(t, k));
                    if !has_key(t, record_key(rs.last())) {
                        let i = choose|i: int|
                            0 <= i < dedup_records(t).len()
                                && record_key(dedup_records(t)[i]) == k;
                        assert(dedup_records(rs)[i] == dedup_records(t)[i]);
                    }
                } else {
                    if has_key(t, record_key(rs.last())) {
                        assert(has_key(t, k));
                        let i2 = choose|i2: int|
                            0 <= i2 < dedup_records(t).len()
                                && record_key(dedup_records(t)[i2]) == k;
                        assert(record_key(dedup_records(rs)[i2]) == k);
                    } else {
                        let last_i = dedup_records(rs).len() - 1;
                        assert(record_key(dedup_records(rs)[last_i]) == k);
                    }
                }
            }
        }
    }
}

fn seen_contains(seen: &Vec<(u32, u32)>, k: (u32, u32)) -> (b: bool)
    ensures
        b == seen@.contains(k),
{
    let mut i: usize = 0;
    while i < seen.len()
        invariant
            i <= seen@.len(),
            forall|j: int| 0 <= j < i ==> seen@[j] != k,
        decreases seen@.len() - i,
    {
        let e = seen[i];
        if e.0 == k.0 && e.1 == k.1 {
            assert(seen@[i as int] == k);
            return true;
        }
        i = i + 1;
    }
    proof {
        if seen@.contains(k) {
            let j = choose|j: int| 0 <= j < seen@.len() && seen@[j] == k;
            assert(seen@[j] != k);
        }
    }
    false
}

/// The keys of a record sequence, in order.
pub open spec fn keys_of(s: Seq<PortModel>) -> Seq<(u32, u32)> {
    s.map_values(|r: PortModel| record_key(r))
}

/// Places `x` in `s` at position `pos`, the position `insert_by_port`
/// chooses when everything from `pos` on has a greater port and the record
/// before `pos`, if any, does not.
proof fn lemma_insert_by_port_at(s: Seq<PortModel>, x: PortModel, pos: int)
    requires
        0 <= pos <= s.len(),
        forall|j: int| pos <= j < s.len() ==> s[j].port > x.port,
        pos == 0 || s[pos - 1].port <= x.port,
    ensures
        insert_by_port(s, x) == s.insert(pos, x),
    decreases s.len(),
{
    if s.len() == 0 {
        assert(insert_by_port(s, x) =~= s.insert(0, x));
    } else if s.last().port > x.port {
        assert(pos < s.len());
        let t = s.drop_last();
        assert(forall|j: int| pos <= j < t.len() ==> t[j].port > x.port);
        lemma_insert_by_port_at(t, x, pos);
        assert(insert_by_port(s, x) =~= s.insert(pos, x));
    } else {
        assert(pos == s.len()) by {
            if pos < s.len() {
                assert(s[s.len() - 1].port > x.port);
            }
        }
        assert(s.push(x) =~= s.insert(pos, x));
    }
}

// ----- the executable pipeline -----

/// Builds one inventory snapshot from the facility's captured output:
/// parses every line after the banner, keeps the first record of each
/// (port, pid) pair, and sorts the result by ascending port, ties keeping
/// their first-occurrence order.
pub fn inventory_from_output(text: &str) -> (recs: Vec<Port>)
    ensures
        models_of(recs@) == inventory_model(text@),
        sorted_by_port(models_of(recs@)),
{
    let ls: Vec<String> = split_lines(text);
    let ghost tail = tail_lines(lines_of(text@));
    let mut raw: Vec<Port> = Vec::new();
    let mut seen: Vec<(u32, u32)> = Vec::new();
    let mut idx: usize = 1;
    proof {
        assert(tail.take(0) =~= Seq::<Seq<char>>::empty());
        assert(models_of(raw@) =~= Seq::<PortModel>::empty());
        assert(keys_of(models_of(raw@)) =~= Seq::<(u32, u32)>::empty());
    }
    while idx < ls.len()
        invariant
            ls.deep_view() == lines_of(text@),
            tail == tail_lines(lines_of(text@)),
            1 <= idx,
            idx <= ls@.len() || idx == 1,
            models_of(raw@) == dedup_records(parsed_records(tail.take(idx - 1))),
            seen@ == keys_of(models_of(raw@)),
        decreases ls@.len() - idx,
    {
        let ghost prefix = tail.take(idx - 1);
        let ghost prefix2 = tail.take(idx as int);
        proof {
            assert(tail.len() == ls@.len() - 1);
            assert(tail[idx - 1] == lines_of(text@)[idx as int]);
            assert(ls.deep_view()[idx as int] == ls@[idx as int]@);
            assert(prefix2.drop_last() =~= prefix);
            assert(prefix2.last() == ls@[idx as int]@);
        }
        let parsed = parse_lsof_line(ls[idx].as_str());
        match parsed {
            None => {
                proof {
                    assert(parsed_records(prefix2)
                        =~= parsed_records(prefix) + Seq::<PortModel>::empty());
                    assert(parsed_records(prefix2) =~= parsed_records(prefix));
                }
            },
            Some(p) => {
                let k: (u32, u32) = (p.port, p.pid);
                proof {
                    assert(record_key(p@) == k);
                    assert(parsed_records(prefix2)
                        =~= parsed_records(prefix).push(p@));
                }
                let is_dup = seen_contains(&seen, k);
                proof {
                    let rs2 = parsed_records(prefix2);
                    assert(rs2.drop_last() =~= parsed_records(prefix));
                    lemma_dedup_same_keys(parsed_records(prefix));
                    if is_dup {
                        let i = choose|i: int| 0 <= i < seen@.len() && seen@[i] == k;
                        assert(record_key(models_of(raw@)[i]) == k);
                        assert(has_key(models_of(raw@), k));
                        assert(has_key(parsed_records(prefix), k));
                    } else {
                        if has_key(parsed_records(prefix), k) {
                            assert(has_key(models_of(raw@), k));
                            let i = choose|i: int| 0 <= i < models_of(raw@).len()
                                && record_key(models_of(raw@)[i]) == k;
                            assert(seen@[i] == k);
                            assert(seen@.contains(k));
                        }
                    }
                }
                if !is_dup {
                    let ghost old_raw = raw@;
                    seen.push(k);
                    raw.push(p);
                    proof {
                        lemma_models_push(old_raw, p);
                        assert(keys_of(models_of(raw@))
                            =~= keys_of(models_of(old_raw)).push(k));
                        assert(seen@ =~= keys_of(models_of(raw@)));
                    }
                }
            },
        }
        idx = idx + 1;
    }
    proof {
        if ls@.len() == 0 {
            assert(lines_of(text@).len() == 0);
            assert(tail.take(idx - 1) =~= tail);
        } else {
            assert(idx == ls@.len());
            assert(tail.take(idx - 1) =~= tail);
        }
    }
    // stable insertion sort by port
    let ghost dedup_models = models_of(raw@);
    let mut out: Vec<Port> = Vec::new();
    proof {
        assert(dedup_models.take(0) =~= Seq::<PortModel>::empty());
        assert(models_of(out@) =~= Seq::<PortModel>::empty());
        assert(sort_by_port(dedup_models.take(0)) =~= Seq::<PortModel>::empty());
        assert(models_of(raw@) =~= dedup_models.skip(0));
    }
    let ghost total = dedup_models.len();
    while raw.len() > 0
        invariant
            total == dedup_models.len(),
            models_of(raw@) == dedup_models.skip(total - raw@.len()),
            raw@.len() <= total,
            models_of(out@) == sort_by_port(dedup_models.take(total - raw@.len())),
        decreases raw@.len(),
    {
        let ghost k = total - raw@.len();
        let p = raw.remove(0);
        proof {
            assert(models_of(raw@) =~= dedup_models.skip(k).drop_first());
            assert(dedup_models.skip(k).drop_first() =~= dedup_models.skip(k + 1));
            assert(p@ == dedup_models.skip(k)[0]);
            assert(dedup_models.skip(k)[0] == dedup_models[k]);
        }
        let mut pos: usize = out.len();
        while pos > 0 && out[pos - 1].port > p.port
            invariant
                pos <= out@.len(),
                forall|j: int| pos <= j < out@.len() ==> out@[j]@.port > p.port,
            decreases pos,
        {
            pos = pos - 1;
        }
        proof {
            assert(forall|j: int| pos <= j < models_of(out@).len()
                ==> models_of(out@)[j].port > p@.port);
            if pos > 0 {
                assert(models_of(out@)[pos - 1].port <= p@.port);
            }
            lemma_insert_by_port_at(models_of(out@), p@, pos as int);
            lemma_models_insert(out@, pos as int, p);
            assert(dedup_models.take(k + 1).drop_last() =~= dedup_models.take(k));
            assert(dedup_models.take(k + 1).last() == dedup_models[k]);
        }
        out.insert(pos, p);
    }
    proof {
        assert(dedup_models.take(total - 0) =~= dedup_models);
        lemma_sort_sorted(dedup_models);
    }
    out
}

// ----- errors of the enumeration facility -----

/// Why enumeration failed: the facility could not be launched at all, or
/// it ran and reported a non-success exit status.
#[derive(Debug, Clone, PartialEq, Eq)]
pub enum EnumerationError {
    ExecutionError(String),
    NonZeroExit(String),
}

/// Builds the inventory from the outcome of running the enumeration
/// facility: an enumeration failure is propagated unchanged, and captured
/// output is turned into the deduplicated, sorted snapshot.
pub fn build_inventory(enumeration: Result<String, EnumerationError>) -> (r: Result<
    Vec<Port>,
    EnumerationError,
>)
    ensures
        enumeration matches Err(e) ==> r == Err::<Vec<Port>, EnumerationError>(e),
        enumeration matches Ok(text) ==> r matches Ok(recs)
            && models_of(recs@) == inventory_model(text@)
            && sorted_by_port(models_of(recs@)),
{
    match enumeration {
        Err(e) => Err(e),
        Ok(text) => Ok(inventory_from_output(text.as_str())),
    }
}

// ----- stated properties of the pipeline -----

/// Everything `insert_by_port` yields is the new record or one of the old
/// ones, and it holds them all.
proof fn lemma_insert_elems(s: Seq<PortModel>, x: PortModel)
    ensures
        insert_by_port(s, x).len() == s.len() + 1,
        forall|y: PortModel|
            #![trigger insert_by_port(s, x).contains(y)]
            #![trigger s.contains(y)]
            insert_by_port(s, x).contains(y) <==> (y == x || s.contains(y)),
    decreases s.len(),
{
    if s.len() == 0 {
        assert forall|y: PortModel|
            #![trigger insert_by_port(s, x).contains(y)]
            #![trigger s.contains(y)]
            insert_by_port(s, x).contains(y) <==> (y == x || s.contains(y)) by {
            let res = insert_by_port(s, x);
            if y == x {
                assert(res[0] == x);
                assert(res.contains(y));
            }
            if res.contains(y) {
                let i = choose|i: int| 0 <= i < res.len() && res[i] == y;
                assert(i == 0);
                assert(y == x);
            }
        }
    } else if s.last().port > x.port {
        let t = s.drop_last();
        lemma_insert_elems(t, x);
        assert forall|y: PortModel|
            #![trigger insert_by_port(s, x).contains(y)]
            #![trigger s.contains(y)]
            insert_by_port(s, x).contains(y) <==> (y == x || s.contains(y)) by {
            let res = insert_by_port(s, x);
            let sub = insert_by_port(t, x);
            if res.contains(y) {
                let i = choose|i: int| 0 <= i < res.len() && res[i] == y;
                if i < sub.len() {
                    assert(sub[i] == y);
                    assert(sub.contains(y));
                    if y != x {
                        assert(t.contains(y));
                        let j = choose|j: int| 0 <= j < t.len() && t[j] == y;
                        assert(s[j] == y);
                    }
                } else {
                    assert(y == s.last());
                    assert(s[s.len() - 1] == y);
                }
            }
            if y == x {
                assert(sub.contains(x));
                let i = choose|i: int| 0 <= i < sub.len() && sub[i] == x;
                assert(res[i] == x);
            }
            if s.contains(y) {
                let j = choose|j: int| 0 <= j < s.len() && s[j] == y;
                if j < s.len() - 1 {
                    assert(t[j] == y);
                    assert(sub.contains(y));
                    let i = choose|i: int| 0 <= i < sub.len() && sub[i] == y;
                    assert(res[i] == y);
                } else {
                    assert(res[res.len() - 1] == y);
                }
            }
        }
    } else {
        assert forall|y: PortModel|
            #![trigger insert_by_port(s, x).contains(y)]
            #![trigger s.contains(y)]
            insert_by_port(s, x).contains(y) <==> (y == x || s.contains(y)) by {
            let res = s.push(x);
            if res.contains(y) {
                let i = choose|i: int| 0 <= i < res.len() && res[i] == y;
                if i < s.len() {
                    assert(s[i] == y);
                }
            }
            if y == x {
                assert(res[s.len() as int] == y);
            }
            if s.contains(y) {
                let j = choose|j: int| 0 <= j < s.len() && s[j] == y;
                assert(res[j] == y);
            }
        }
    }
}

/// Inserting into a sorted sequence keeps it sorted.
proof fn lemma_insert_sorted(s: Seq<PortModel>, x: PortModel)
    requires
        sorted_by_port(s),
    ensures
        sorted_by_port(insert_by_port(s, x)),
    decreases s.len(),
{
    if s.len() == 0 {
    } else if s.last().port > x.port {
        let t = s.drop_last();
        assert(sorted_by_port(t));
        lemma_insert_sorted(t, x);
        lemma_insert_elems(t, x);
        let sub = insert_by_port(t, x);
        let res = insert_by_port(s, x);
        assert forall|i: int, j: int| 0 <= i <= j < res.len() implies res[i].port
            <= res[j].port by {
            if j < res.len() - 1 {
                assert(sub[i].port <= sub[j].port);
            } else if i < res.len() - 1 {
                assert(res[j] == s.last());
                assert(sub.contains(sub[i]));
                if sub[i] == x {
                } else {
                    let m = choose|m: int| 0 <= m < t.len() && t[m] == sub[i];
                    assert(t[m].port <= s.last().port);
                }
            }
        }
    } else {
        let res = s.push(x);
        assert forall|i: int, j: int| 0 <= i <= j < res.len() implies res[i].port
            <= res[j].port by {
            if j < res.len() - 1 {
                assert(s[i].port <= s[j].port);
            } else if i < res.len() - 1 {
                assert(s[i].port <= s.last().port);
            }
        }
    }
}

/// The sort yields a sequence that is non-decreasing in `port`.
pub proof fn lemma_sort_sorted(s: Seq<PortModel>)
    ensures
        sorted_by_port(sort_by_port(s)),
    decreases s.len(),
{
    if s.len() > 0 {
        lemma_sort_sorted(s.drop_last());
        lemma_insert_sorted(sort_by_port(s.drop_last()), s.last());
    }
}

/// The inventory of any captured output is non-decreasing in `port`.
pub proof fn lemma_inventory_sorted(text: Seq<char>)
    ensures
        sorted_by_port(inventory_model(text)),
{
    lemma_sort_sorted(dedup_records(parsed_records(tail_lines(lines_of(text)))));
}

/// How many records of the sequence carry this (port, pid) key.
pub open spec fn key_count(s: Seq<PortModel>, k: (u32, u32)) -> int
    decreases s.len(),
{
    if s.len() == 0 {
        0
    } else {
        key_count(s.drop_last(), k) + if record_key(s.last()) == k {
            1int
        } else {
            0int
        }
    }
}

proof fn lemma_key_count_nonneg(s: Seq<PortModel>, k: (u32, u32))
    ensures
        key_count(s, k) >= 0,
    decreases s.len(),
{
    if s.len() > 0 {
        lemma_key_count_nonneg(s.drop_last(), k);
    }
}

proof fn lemma_key_count_insert(s: Seq<PortModel>, x: PortModel, k: (u32, u32))
    ensures
        key_count(insert_by_port(s, x), k) == key_count(s, k) + if record_key(x) == k {
            1int
        } else {
            0int
        },
    decreases s.len(),
{
    if s.len() == 0 {
        let res = insert_by_port(s, x);
        assert(res.drop_last() =~= Seq::<PortModel>::empty());
        assert(res.last() == x);
        assert(key_count(res, k) == key_count(res.drop_last(), k)
            + if record_key(res.last()) == k { 1int } else { 0int });
        assert(key_count(res.drop_last(), k) == 0);
    } else if s.last().port > x.port {
        let t = s.drop_last();
        lemma_key_count_insert(t, x, k);
        let res = insert_by_port(s, x);
        assert(res.drop_last() =~= insert_by_port(t, x));
        assert(res.last() == s.last());
        assert(key_count(res, k) == key_count(res.drop_last(), k)
            + if record_key(res.last()) == k { 1int } else { 0int });
    } else {
        let res = s.push(x);
        assert(res.drop_last() =~= s);
        assert(res.last() == x);
        assert(key_count(res, k) == key_count(res.drop_last(), k)
            + if record_key(res.last()) == k { 1int } else { 0int });
    }
}

proof fn lemma_key_count_sort(s: Seq<PortModel>, k: (u32, u32))
    ensures
        key_count(sort_by_port(s), k) == key_count(s, k),
    decreases s.len(),
{
    if s.len() > 0 {
        let t = s.drop_last();
        lemma_key_count_sort(t, k);
        lemma_key_count_insert(sort_by_port(t), s.last(), k);
    }
}

/// After deduplication a key appears exactly once if it was present at
/// all, and never otherwise.
proof fn lemma_key_count_dedup(rs: Seq<PortModel>, k: (u32, u32))
    ensures
        key_count(dedup_records(rs), k) == if has_key(rs, k) {
            1int
        } else {
            0int
        },
    decreases rs.len(),
{
    if rs.len() == 0 {
        if has_key(rs, k) {
            let j = choose|j: int| 0 <= j < rs.len() && record_key(rs[j]) == k;
        }
    } else {
        let t = rs.drop_last();
        let r = rs.last();
        lemma_key_count_dedup(t, k);
        assert(has_key(t, k) ==> has_key(rs, k)) by {
            if has_key(t, k) {
                let j = choose|j: int| 0 <= j < t.len() && record_key(t[j]) == k;
                assert(record_key(rs[j]) == k);
            }
        }
        if has_key(t, record_key(r)) {
            // the last record is dropped: its key is already present
            if has_key(rs, k) && !has_key(t, k) {
                let j = choose|j: int| 0 <= j < rs.len() && record_key(rs[j]) == k;
                if j < rs.len() - 1 {
                    assert(t[j] == rs[j]);
                    assert(has_key(t, k));
                }
                assert(record_key(r) == k);
                assert(has_key(t, k));
            }
        } else {
            let d = dedup_records(rs);
            assert(d == dedup_records(t).push(r));
            assert(d.drop_last() =~= dedup_records(t));
            assert(d.last() == r);
            if record_key(r) == k {
                assert(!has_key(t, k));
                assert(has_key(rs, k)) by {
                    assert(record_key(rs[rs.len() - 1]) == k);
                }
            } else {
                if has_key(rs, k) && !has_key(t, k) {
                    let j = choose|j: int| 0 <= j < rs.len() && record_key(rs[j]) == k;
                    if j < rs.len() - 1 {
                        assert(t[j] == rs[j]);
                        assert(has_key(t, k));
                    }
                    assert(record_key(rs[rs.len() - 1]) == k);
                }
            }
        }
    }
}

/// The first record of its key survives deduplication.
proof fn lemma_dedup_contains_first(rs: Seq<PortModel>, i: int)
    requires
        0 <= i < rs.len(),
        forall|j: int| 0 <= j < i ==> record_key(rs[j]) != record_key(rs[i]),
    ensures
        dedup_records(rs).contains(rs[i]),
    decreases rs.len(),
{
    let t = rs.drop_last();
    if i < rs.len() - 1 {
        assert(forall|j: int| 0 <= j < i ==> record_key(t[j]) != record_key(t[i]));
        lemma_dedup_contains_first(t, i);
        let d = dedup_records(t);
        let m = choose|m: int| 0 <= m < d.len() && d[m] == t[i];
        if has_key(t, record_key(rs.last())) {
            assert(dedup_records(rs)[m] == t[i]);
        } else {
            assert(dedup_records(rs)[m] == t[i]);
        }
        assert(rs[i] == t[i]);
    } else {
        assert(!has_key(t, record_key(rs.last()))) by {
            if has_key(t, record_key(rs.last())) {
                let j = choose|j: int| 0 <= j < t.len()
                    && record_key(t[j]) == record_key(rs.last());
                assert(record_key(rs[j]) == record_key(rs[i]));
            }
        }
        let d = dedup_records(rs);
        assert(d[d.len() - 1] == rs.last());
    }
}

/// The sort holds exactly the records it was given.
proof fn lemma_sort_elems(s: Seq<PortModel>)
    ensures
        forall|y: PortModel|
            #![trigger sort_by_port(s).contains(y)]
            #![trigger s.contains(y)]
            sort_by_port(s).contains(y) <==> s.contains(y),
    decreases s.len(),
{
    if s.len() > 0 {
        let t = s.drop_last();
        lemma_sort_elems(t);
        lemma_insert_elems(sort_by_port(t), s.last());
        assert forall|y: PortModel|
            #![trigger sort_by_port(s).contains(y)]
            #![trigger s.contains(y)]
            sort_by_port(s).contains(y) <==> s.contains(y) by {
            if sort_by_port(s).contains(y) {
                if y == s.last() {
                    assert(s[s.len() - 1] == y);
                } else {
                    assert(sort_by_port(t).contains(y));
                    assert(t.contains(y));
                    let j = choose|j: int| 0 <= j < t.len() && t[j] == y;
                    assert(s[j] == y);
                }
            }
            if s.contains(y) {
                let j = choose|j: int| 0 <= j < s.len() && s[j] == y;
                if j < s.len() - 1 {
                    assert(t[j] == y);
                    assert(sort_by_port(t).contains(y));
                }
                assert(insert_by_port(sort_by_port(t), s.last()).contains(y));
            }
        }
    }
}

proof fn lemma_contains_key_count(s: Seq<PortModel>, r: PortModel)
    requires
        s.contains(r),
    ensures
        key_count(s, record_key(r)) >= 1,
    decreases s.len(),
{
    let t = s.drop_last();
    lemma_key_count_nonneg(t, record_key(r));
    if s.last() == r {
    } else {
        let j = choose|j: int| 0 <= j < s.len() && s[j] == r;
        assert(j < s.len() - 1);
        assert(t[j] == r);
        lemma_contains_key_count(t, r);
    }
}

proof fn lemma_two_distinct_key_count(s: Seq<PortModel>, r1: PortModel, r2: PortModel)
    requires
        s.contains(r1),
        s.contains(r2),
        r1 != r2,
        record_key(r1) == record_key(r2),
    ensures
        key_count(s, record_key(r1)) >= 2,
    decreases s.len(),
{
    let t = s.drop_last();
    if s.last() == r1 {
        let j = choose|j: int| 0 <= j < s.len() && s[j] == r2;
        assert(j < s.len() - 1);
        assert(t[j] == r2);
        lemma_contains_key_count(t, r2);
    } else if s.last() == r2 {
        let j = choose|j: int| 0 <= j < s.len() && s[j] == r1;
        assert(j < s.len() - 1);
        assert(t[j] == r1);
        lemma_contains_key_count(t, r1);
    } else {
        let j1 = choose|j: int| 0 <= j < s.len() && s[j] == r1;
        let j2 = choose|j: int| 0 <= j < s.len() && s[j] == r2;
        assert(t[j1] == r1);
        assert(t[j2] == r2);
        lemma_two_distinct_key_count(t, r1, r2);
        lemma_key_count_nonneg(t, record_key(r1));
    }
}

/// Deduplication, as the inventory performs it: when some line's record is
/// the first among the parsed records to carry its (port, pid) pair, the
/// final inventory holds exactly one record with that pair, and it is that
/// first-encountered one.
pub proof fn lemma_inventory_keeps_first(text: Seq<char>, i: int)
    requires
        0 <= i < parsed_records(tail_lines(lines_of(text))).len(),
        forall|j: int| 0 <= j < i ==> record_key(parsed_records(tail_lines(lines_of(text)))[j])
            != record_key(parsed_records(tail_lines(lines_of(text)))[i]),
    ensures
        inventory_model(text).contains(parsed_records(tail_lines(lines_of(text)))[i]),
        key_count(
            inventory_model(text),
            record_key(parsed_records(tail_lines(lines_of(text)))[i]),
        ) == 1,
        forall|r: PortModel|
            inventory_model(text).contains(r) && record_key(r) == record_key(
                parsed_records(tail_lines(lines_of(text)))[i],
            ) ==> r == parsed_records(tail_lines(lines_of(text)))[i],
{
    let rs = parsed_records(tail_lines(lines_of(text)));
    let r0 = rs[i];
    let k = record_key(r0);
    let d = dedup_records(rs);
    let inv = inventory_model(text);
    lemma_dedup_contains_first(rs, i);
    lemma_sort_elems(d);
    assert(inv.contains(r0));
    assert(has_key(rs, k)) by {
        assert(record_key(rs[i]) == k);
    }
    lemma_key_count_dedup(rs, k);
    lemma_key_count_sort(d, k);
    assert(key_count(inv, k) == 1);
    assert forall|r: PortModel| inv.contains(r) && record_key(r) == k implies r == r0 by {
        if r != r0 {
            lemma_two_distinct_key_count(inv, r, r0);
        }
    }
}

} // verus!
