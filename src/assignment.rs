//! Reading a candidate assignment in the DIMACS solution format.
use crate::decimal::{parse_i32, token_i32};
use vstd::prelude::*;

verus! {

/// A byte that ends a field: a newline when splitting into lines, ASCII white space
/// when splitting a line into tokens.
pub open spec fn is_separator(b: u8, by_line: bool) -> bool {
    if by_line {
        b == 10u8
    } else {
        b == 32u8 || b == 9u8 || b == 10u8 || b == 11u8 || b == 12u8 || b == 13u8
    }
}

/// Where the field that starts at `i` ends: the first separator at or after `i`, or the
/// end of `s`.
pub open spec fn field_end(s: Seq<u8>, i: int, by_line: bool) -> int
    decreases s.len() - i,
{
    if i >= s.len() || is_separator(s[i], by_line) {
        i
    } else {
        field_end(s, i + 1, by_line)
    }
}

/// The fields of `s` from `i` on, split at each separator; a separator at the very
/// end opens no further field.
pub open spec fn fields_from(s: Seq<u8>, i: int, by_line: bool) -> Seq<Seq<u8>>
    decreases s.len() - i,
{
    if i >= s.len() {
        seq![]
    } else {
        let e = field_end(s, i, by_line);
        if e >= s.len() {
            seq![s.subrange(i, s.len() as int)]
        } else if e < i {
            seq![]
        } else {
            seq![s.subrange(i, e)] + fields_from(s, e + 1, by_line)
        }
    }
}

/// The lines of a text.
pub open spec fn lines(s: Seq<u8>) -> Seq<Seq<u8>> {
    fields_from(s, 0, true)
}

/// The tokens of a values line: what stands after its `v `, split at white space
/// (empty tokens included).
pub open spec fn value_tokens(l: Seq<u8>) -> Seq<Seq<u8>> {
    fields_from(l, 2, false)
}

pub open spec fn starts_with(l: Seq<u8>, p: Seq<u8>) -> bool {
    p.len() <= l.len() && l.subrange(0, p.len() as int) == p
}

pub open spec fn status_prefix() -> Seq<u8> {
    seq![115u8, 32u8]
}

pub open spec fn sat_status() -> Seq<u8> {
    seq![115u8, 32u8, 83u8, 65u8, 84u8, 73u8, 83u8, 70u8, 73u8, 65u8, 66u8, 76u8, 69u8]
}

pub open spec fn unsat_status() -> Seq<u8> {
    seq![115u8, 32u8, 85u8, 78u8, 83u8, 65u8, 84u8, 73u8, 83u8, 70u8, 73u8, 65u8, 66u8, 76u8, 69u8]
}

pub open spec fn values_prefix() -> Seq<u8> {
    seq![118u8, 32u8]
}

pub open spec fn is_comment(l: Seq<u8>) -> bool {
    l.len() > 0 && l[0] == 99u8
}

pub open spec fn is_blank(l: Seq<u8>) -> bool {
    forall|i: int| 0 <= i < l.len() ==> is_separator(#[trigger] l[i], false)
}

/// The nonempty tokens, in order.
pub open spec fn words(toks: Seq<Seq<u8>>) -> Seq<Seq<u8>>
    decreases toks.len(),
{
    if toks.len() == 0 {
        seq![]
    } else {
        let rest = words(toks.subrange(1, toks.len() as int));
        if toks[0].len() == 0 { rest } else { seq![toks[0]] + rest }
    }
}

/// A values line: not a comment, and it starts with `v `.
pub open spec fn is_values_line(l: Seq<u8>) -> bool {
    !is_comment(l) && starts_with(l, values_prefix())
}

/// The tokens of all values lines of a stream, in order; other lines add none.
pub open spec fn stream_tokens(ls: Seq<Seq<u8>>) -> Seq<Seq<u8>>
    decreases ls.len(),
{
    if ls.len() == 0 {
        seq![]
    } else {
        let rest = stream_tokens(ls.subrange(1, ls.len() as int));
        if is_values_line(ls[0]) { words(value_tokens(ls[0])) + rest } else { rest }
    }
}

/// Every token before the first `0` spells an `i32`.
pub open spec fn integers_upto_zero(ts: Seq<Seq<u8>>) -> bool
    decreases ts.len(),
{
    if ts.len() == 0 {
        true
    } else {
        match token_i32(ts[0]) {
            None => false,
            Some(x) => x == 0 || integers_upto_zero(ts.subrange(1, ts.len() as int)),
        }
    }
}

/// Some token spells `0`, and every token before it an `i32`.
pub open spec fn zero_among(ts: Seq<Seq<u8>>) -> bool
    decreases ts.len(),
{
    if ts.len() == 0 {
        false
    } else {
        match token_i32(ts[0]) {
            None => false,
            Some(x) => x == 0 || zero_among(ts.subrange(1, ts.len() as int)),
        }
    }
}

/// The values of the tokens before the first `0`.
pub open spec fn values_upto_zero(ts: Seq<Seq<u8>>) -> Seq<i32>
    decreases ts.len(),
{
    if ts.len() == 0 {
        seq![]
    } else {
        match token_i32(ts[0]) {
            Some(x) => if x == 0 { seq![] } else { seq![x] + values_upto_zero(ts.subrange(1, ts.len() as int)) },
            None => seq![],
        }
    }
}

/// A comment line, or a values line.
pub open spec fn is_comment_or_values(l: Seq<u8>) -> bool {
    is_comment(l) || starts_with(l, values_prefix())
}

proof fn lemma_tokens_append(a: Seq<Seq<u8>>, b: Seq<Seq<u8>>)
    ensures
        integers_upto_zero(a + b) ==> integers_upto_zero(a),
        zero_among(a) ==> integers_upto_zero(a + b) && zero_among(a + b)
            && values_upto_zero(a + b) == values_upto_zero(a),
        integers_upto_zero(a) && !zero_among(a) ==> {
            &&& integers_upto_zero(a + b) == integers_upto_zero(b)
            &&& zero_among(a + b) == zero_among(b)
            &&& values_upto_zero(a + b) == values_upto_zero(a) + values_upto_zero(b)
        },
    decreases a.len(),
{
    if a.len() == 0 {
        assert(a + b == b);
        assert(values_upto_zero(a) + values_upto_zero(b) == values_upto_zero(b));
    } else {
        let a1 = a.subrange(1, a.len() as int);
        assert((a + b)[0] == a[0]);
        assert((a + b).subrange(1, (a + b).len() as int) == a1 + b);
        lemma_tokens_append(a1, b);
        match token_i32(a[0]) {
            Some(x) => if x != 0 {
                assert(seq![x] + values_upto_zero(a1) + values_upto_zero(b)
                    == seq![x] + (values_upto_zero(a1) + values_upto_zero(b)));
            },
            None => {},
        }
    }
}

proof fn lemma_words_of_tokens(toks: Seq<Seq<u8>>)
    requires
        toks.len() > 0,
    ensures
        words(toks) == if toks[0].len() == 0 {
            words(toks.subrange(1, toks.len() as int))
        } else {
            seq![toks[0]] + words(toks.subrange(1, toks.len() as int))
        },
{
}

proof fn lemma_scan_values(toks: Seq<Seq<u8>>, acc: Seq<i32>)
    requires
        integers_upto_zero(words(toks)),
    ensures
        scan_values(toks, acc) == if zero_among(words(toks)) {
            Scan::Closed(acc + values_upto_zero(words(toks)))
        } else {
            Scan::Open(acc + values_upto_zero(words(toks)))
        },
    decreases toks.len(),
{
    if toks.len() == 0 {
        assert(acc + seq![] == acc);
    } else {
        let t = toks[0];
        let rest = toks.subrange(1, toks.len() as int);
        let w = words(rest);
        lemma_words_of_tokens(toks);
        if t.len() == 0 {
            lemma_scan_values(rest, acc);
        } else {
            let ws = seq![t] + w;
            assert(ws[0] == t);
            assert(ws.subrange(1, ws.len() as int) == w);
            let x = token_i32(t)->Some_0;
            if x == 0 {
                assert(acc + values_upto_zero(ws) == acc);
            } else {
                lemma_scan_values(rest, acc.push(x));
                assert(acc.push(x) + values_upto_zero(w) == acc + (seq![x] + values_upto_zero(w)));
            }
        }
    }
}

proof fn lemma_read_values_lines(ls: Seq<Seq<u8>>, acc: Seq<i32>, seen: bool)
    requires
        forall|i: int| 0 <= i < ls.len() ==> is_comment_or_values(#[trigger] ls[i]),
        integers_upto_zero(stream_tokens(ls)),
        seen || exists|i: int| 0 <= i < ls.len() && !is_comment(#[trigger] ls[i]),
    ensures
        read_lines(ls, acc, seen) == Reading::Literals(acc + values_upto_zero(stream_tokens(ls))),
    decreases ls.len(),
{
    if ls.len() == 0 {
        assert(acc + seq![] == acc);
    } else {
        let l = ls[0];
        let rest = ls.subrange(1, ls.len() as int);
        assert forall|i: int| 0 <= i < rest.len() implies is_comment_or_values(#[trigger] rest[i]) by {
            assert(rest[i] == ls[i + 1]);
        }
        assert(is_comment_or_values(ls[0]));
        let sr = stream_tokens(rest);
        if is_comment(l) {
            if !seen {
                let i = choose|i: int| 0 <= i < ls.len() && !is_comment(#[trigger] ls[i]);
                assert(rest[i - 1] == ls[i]);
            }
            lemma_read_values_lines(rest, acc, seen);
        } else {
            assert(!starts_with(l, status_prefix())) by {
                assert(l.subrange(0, 2)[0] == values_prefix()[0]);
                assert(l.subrange(0, 2)[0] != status_prefix()[0]);
            }
            let ws = words(value_tokens(l));
            lemma_tokens_append(ws, sr);
            lemma_scan_values(value_tokens(l), acc);
            if !zero_among(ws) {
                lemma_read_values_lines(rest, acc + values_upto_zero(ws), true);
                assert(acc + values_upto_zero(ws) + values_upto_zero(sr)
                    == acc + (values_upto_zero(ws) + values_upto_zero(sr)));
            }
        }
    }
}

/// Comment lines may stand anywhere among the values lines: when every line is a
/// comment or a values line, one is a values line, and every token before the first
/// `0` is an integer, the literals read are the tokens of the values lines, in order,
/// up to the first `0`.
pub proof fn lemma_comments_among_values(ls: Seq<Seq<u8>>)
    requires
        forall|i: int| 0 <= i < ls.len() ==> is_comment_or_values(#[trigger] ls[i]),
        exists|i: int| 0 <= i < ls.len() && is_values_line(#[trigger] ls[i]),
        integers_upto_zero(stream_tokens(ls)),
    ensures
        read_lines(ls, seq![], false) == Reading::Literals(values_upto_zero(stream_tokens(ls))),
{
    lemma_read_values_lines(ls, seq![], false);
    assert(seq![] + values_upto_zero(stream_tokens(ls)) == values_upto_zero(stream_tokens(ls)));
}

/// Nothing after the closing `0` is read: when the values lines of `ls`, among
/// comments, hold a `0` with only integers before it, any lines that follow change
/// nothing.
pub proof fn lemma_nothing_read_after_zero(ls: Seq<Seq<u8>>, more: Seq<Seq<u8>>, acc: Seq<i32>, seen: bool)
    requires
        forall|i: int| 0 <= i < ls.len() ==> is_comment_or_values(#[trigger] ls[i]),
        zero_among(stream_tokens(ls)),
    ensures
        read_lines(ls + more, acc, seen) == read_lines(ls, acc, seen),
    decreases ls.len(),
{
    let l = ls[0];
    let rest = ls.subrange(1, ls.len() as int);
    assert((ls + more)[0] == l);
    assert((ls + more).subrange(1, (ls + more).len() as int) == rest + more);
    assert forall|i: int| 0 <= i < rest.len() implies is_comment_or_values(#[trigger] rest[i]) by {
        assert(rest[i] == ls[i + 1]);
    }
    assert(is_comment_or_values(ls[0]));
    let sr = stream_tokens(rest);
    if is_comment(l) {
        lemma_nothing_read_after_zero(rest, more, acc, seen);
    } else {
        assert(!starts_with(l, status_prefix())) by {
            assert(l.subrange(0, 2)[0] == values_prefix()[0]);
            assert(l.subrange(0, 2)[0] != status_prefix()[0]);
        }
        let ws = words(value_tokens(l));
        lemma_tokens_append(ws, sr);
        lemma_zero_among_integers(ws + sr);
        if !zero_among(ws) {
            lemma_scan_values(value_tokens(l), acc);
            lemma_nothing_read_after_zero(rest, more, acc + values_upto_zero(ws), true);
        } else {
            assert(integers_upto_zero(ws)) by {
                lemma_zero_among_integers(ws);
            }
            lemma_scan_values(value_tokens(l), acc);
        }
    }
}

proof fn lemma_zero_among_integers(ts: Seq<Seq<u8>>)
    ensures
        zero_among(ts) ==> integers_upto_zero(ts),
    decreases ts.len(),
{
    if ts.len() > 0 {
        lemma_zero_among_integers(ts.subrange(1, ts.len() as int));
    }
}

/// A comment line inserted anywhere in a stream changes nothing that is read.
pub proof fn lemma_comment_inserted(ls: Seq<Seq<u8>>, i: int, c: Seq<u8>, acc: Seq<i32>, seen: bool)
    requires
        is_comment(c),
        0 <= i <= ls.len(),
    ensures
        read_lines(ls.insert(i, c), acc, seen) == read_lines(ls, acc, seen),
    decreases i,
{
    let ins = ls.insert(i, c);
    if i == 0 {
        assert(ins[0] == c);
        assert(ins.subrange(1, ins.len() as int) == ls);
    } else {
        let rest = ls.subrange(1, ls.len() as int);
        assert(ins[0] == ls[0]);
        assert(ins.subrange(1, ins.len() as int) == rest.insert(i - 1, c));
        lemma_comment_inserted(rest, i - 1, c, acc, seen);
        match scan_values(value_tokens(ls[0]), acc) {
            Scan::Open(a) => lemma_comment_inserted(rest, i - 1, c, a, true),
            _ => {},
        }
    }
}

/// Where the reading of a stream ends.
pub enum Reading {
    /// The literals of the assignment.
    Literals(Seq<i32>),
    /// The stream states that the problem is unsatisfiable.
    UnsatClaimed,
    /// The stream ended before any values line.
    NoAssignment,
    /// A line of no known kind.
    IllegalLine(Seq<u8>),
    /// A token of a values line that is no `i32`.
    BadToken(Seq<u8>),
}

/// Where the reading of the tokens of one values line ends.
pub enum Scan {
    /// A `0` closed the assignment, with these literals.
    Closed(Seq<i32>),
    /// The line ended first; the assignment so far.
    Open(Seq<i32>),
    /// This token is no `i32`.
    Bad(Seq<u8>),
}

/// Appends the literals of a values line to `acc`, up to the first `0`.
pub open spec fn scan_values(toks: Seq<Seq<u8>>, acc: Seq<i32>) -> Scan
    decreases toks.len(),
{
    if toks.len() == 0 {
        Scan::Open(acc)
    } else {
        let t = toks[0];
        let rest = toks.subrange(1, toks.len() as int);
        if t.len() == 0 {
            scan_values(rest, acc)
        } else {
            match token_i32(t) {
                None => Scan::Bad(t),
                Some(x) => if x == 0 {
                    Scan::Closed(acc)
                } else {
                    scan_values(rest, acc.push(x))
                },
            }
        }
    }
}

/// Reads the lines of a solution stream: comments, `s SATISFIABLE` and empty lines are
/// passed over, `s UNSATISFIABLE` ends the reading, values lines add literals until a
/// `0`; any other line, one of white space alone included, is illegal. `acc` holds the
/// literals read so far, and `seen` tells whether a values line came already.
pub open spec fn read_lines(ls: Seq<Seq<u8>>, acc: Seq<i32>, seen: bool) -> Reading
    decreases ls.len(),
{
    if ls.len() == 0 {
        if seen { Reading::Literals(acc) } else { Reading::NoAssignment }
    } else {
        let l = ls[0];
        let rest = ls.subrange(1, ls.len() as int);
        if is_comment(l) {
            read_lines(rest, acc, seen)
        } else if starts_with(l, status_prefix()) {
            if starts_with(l, sat_status()) {
                read_lines(rest, acc, seen)
            } else if starts_with(l, unsat_status()) {
                Reading::UnsatClaimed
            } else {
                Reading::IllegalLine(l)
            }
        } else if starts_with(l, values_prefix()) {
            match scan_values(value_tokens(l), acc) {
                Scan::Closed(a) => Reading::Literals(a),
                Scan::Open(a) => read_lines(rest, a, true),
                Scan::Bad(t) => Reading::BadToken(t),
            }
        } else if l.len() == 0 {
            read_lines(rest, acc, seen)
        } else {
            Reading::IllegalLine(l)
        }
    }
}

/// What a solution stream holds.
#[derive(Debug, Clone, PartialEq, Eq)]
pub enum AssignmentRead {
    /// The literals of the assignment, in the order they came.
    Literals(Vec<i32>),
    /// The stream states that the problem is unsatisfiable.
    UnsatClaimed,
    /// The stream ended before any values line.
    NoAssignment,
}

/// Why a solution stream could not be read.
#[derive(Debug, Clone, PartialEq, Eq)]
pub enum ReadError {
    /// A line of no known kind, without its newline.
    IllegalLine(Vec<u8>),
    /// A token of a values line that is no `i32`.
    BadToken(Vec<u8>),
}

pub open spec fn reading_of(r: Result<AssignmentRead, ReadError>) -> Reading {
    match r {
        Ok(AssignmentRead::Literals(v)) => Reading::Literals(v@),
        Ok(AssignmentRead::UnsatClaimed) => Reading::UnsatClaimed,
        Ok(AssignmentRead::NoAssignment) => Reading::NoAssignment,
        Err(ReadError::IllegalLine(l)) => Reading::IllegalLine(l@),
        Err(ReadError::BadToken(t)) => Reading::BadToken(t@),
    }
}

proof fn lemma_field_end(s: Seq<u8>, i: int, by_line: bool)
    requires
        0 <= i <= s.len(),
    ensures
        i <= field_end(s, i, by_line) <= s.len(),
    decreases s.len() - i,
{
    if i < s.len() && !is_separator(s[i], by_line) {
        lemma_field_end(s, i + 1, by_line);
    }
}

fn is_separator_exec(b: u8, by_line: bool) -> (r: bool)
    ensures
        r == is_separator(b, by_line),
{
    if by_line {
        b == 10u8
    } else {
        b == 32u8 || b == 9u8 || b == 10u8 || b == 11u8 || b == 12u8 || b == 13u8
    }
}

/// The field of `s` that starts at `start`, and where it ends.
pub(crate) fn next_field(s: &Vec<u8>, start: usize, by_line: bool) -> (r: (Vec<u8>, usize))
    requires
        start < s@.len(),
    ensures
        r.1 == field_end(s@, start as int, by_line),
        start <= r.1 <= s@.len(),
        r.0@ == s@.subrange(start as int, r.1 as int),
        fields_from(s@, start as int, by_line) == seq![r.0@] + fields_from(s@, r.1 + 1, by_line),
{
    let mut out: Vec<u8> = Vec::new();
    let mut k: usize = start;
    while k < s.len() && !is_separator_exec(s[k], by_line)
        invariant
            start <= k <= s@.len(),
            field_end(s@, k as int, by_line) == field_end(s@, start as int, by_line),
            out@ == s@.subrange(start as int, k as int),
        decreases s@.len() - k,
    {
        out.push(s[k]);
        k += 1;
        assert(out@ == s@.subrange(start as int, k as int));
    }
    proof {
        lemma_field_end(s@, start as int, by_line);
    }
    (out, k)
}

pub(crate) fn has_prefix(l: &Vec<u8>, p: &Vec<u8>) -> (r: bool)
    ensures
        r == starts_with(l@, p@),
{
    if p.len() > l.len() {
        return false;
    }
    let mut i: usize = 0;
    while i < p.len()
        invariant
            p@.len() <= l@.len(),
            i <= p@.len(),
            forall|j: int| 0 <= j < i ==> l@[j] == p@[j],
        decreases p@.len() - i,
    {
        if l[i] != p[i] {
            assert(l@.subrange(0, p@.len() as int)[i as int] != p@[i as int]);
            return false;
        }
        i += 1;
    }
    assert(l@.subrange(0, p@.len() as int) == p@);
    true
}

pub(crate) fn blank(l: &Vec<u8>) -> (r: bool)
    ensures
        r == is_blank(l@),
{
    let mut i: usize = 0;
    while i < l.len()
        invariant
            i <= l@.len(),
            forall|j: int| 0 <= j < i ==> is_separator(#[trigger] l@[j], false),
        decreases l@.len() - i,
    {
        if !is_separator_exec(l[i], false) {
            return false;
        }
        i += 1;
    }
    true
}

/// Reads a candidate assignment from the text of a solution stream.
pub fn read_assignment(input: &Vec<u8>) -> (r: Result<AssignmentRead, ReadError>)
    ensures
        reading_of(r) == read_lines(lines(input@), seq![], false),
{
    let ghost s = input@;
    let status: Vec<u8> = vec![115u8, 32u8];
    let sat: Vec<u8> = vec![115u8, 32u8, 83u8, 65u8, 84u8, 73u8, 83u8, 70u8, 73u8, 65u8, 66u8, 76u8, 69u8];
    let unsat: Vec<u8> = vec![115u8, 32u8, 85u8, 78u8, 83u8, 65u8, 84u8, 73u8, 83u8, 70u8, 73u8, 65u8, 66u8, 76u8, 69u8];
    let values: Vec<u8> = vec![118u8, 32u8];
    assert(status@ == status_prefix());
    assert(sat@ == sat_status());
    assert(unsat@ == unsat_status());
    assert(values@ == values_prefix());
    let mut acc: Vec<i32> = Vec::new();
    let mut seen = false;
    let mut pos: usize = 0;
    while pos < input.len()
        invariant
            s == input@,
            pos <= s.len(),
            status@ == status_prefix(),
            sat@ == sat_status(),
            unsat@ == unsat_status(),
            values@ == values_prefix(),
            read_lines(lines(s), seq![], false) == read_lines(fields_from(s, pos as int, true), acc@, seen),
        decreases s.len() - pos,
    {
        let (line, e) = next_field(input, pos, true);
        let ghost ls = fields_from(s, pos as int, true);
        let ghost rest = fields_from(s, e + 1, true);
        assert(ls[0] == line@);
        assert(ls.subrange(1, ls.len() as int) == rest);
        let next: usize = if e < input.len() { e + 1 } else { e };
        assert(fields_from(s, next as int, true) == rest);
        if line.len() > 0 && line[0] == 99u8 {
        } else if has_prefix(&line, &status) {
            if has_prefix(&line, &sat) {
            } else if has_prefix(&line, &unsat) {
                return Ok(AssignmentRead::UnsatClaimed);
            } else {
                return Err(ReadError::IllegalLine(line));
            }
        } else if has_prefix(&line, &values) {
            let ghost acc0 = acc@;
            let mut q: usize = 2;
            while q < line.len()
                invariant
                    2 <= q,
                    s == input@,
                    pos < s.len(),
                    ls == fields_from(s, pos as int, true),
                    ls.len() > 0,
                    ls[0] == line@,
                    !(line@.len() > 0 && line@[0] == 99u8),
                    !starts_with(line@, status_prefix()),
                    starts_with(line@, values_prefix()),
                    rest == ls.subrange(1, ls.len() as int),
                    read_lines(lines(s), seq![], false) == read_lines(ls, acc0, seen),
                    scan_values(value_tokens(line@), acc0) == scan_values(fields_from(line@, q as int, false), acc@),
                decreases line@.len() - q,
            {
                let (tok, te) = next_field(&line, q, false);
                let ghost ts = fields_from(line@, q as int, false);
                assert(ts[0] == tok@);
                assert(ts.subrange(1, ts.len() as int) == fields_from(line@, te + 1, false));
                let nq: usize = if te < line.len() { te + 1 } else { te };
                assert(fields_from(line@, nq as int, false) == fields_from(line@, te + 1, false));
                if tok.len() > 0 {
                    match parse_i32(&tok) {
                        None => {
                            return Err(ReadError::BadToken(tok));
                        },
                        Some(x) => {
                            if x == 0 {
                                return Ok(AssignmentRead::Literals(acc));
                            }
                            acc.push(x);
                        },
                    }
                }
                q = nq;
            }
            seen = true;
        } else if line.len() == 0 {
        } else {
            return Err(ReadError::IllegalLine(line));
        }
        pos = next;
    }
    if seen {
        Ok(AssignmentRead::Literals(acc))
    } else {
        Ok(AssignmentRead::NoAssignment)
    }
}

} // verus!
