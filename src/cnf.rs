//! Reading a problem in the DIMACS CNF format.
use crate::assignment::{blank, fields_from, has_prefix, is_blank, is_comment, lines, next_field, starts_with, words};
use crate::decimal::{parse_i32, token_i32};
use crate::problem::{lit_in_range, Problem, ProblemError};
use vstd::prelude::*;

verus! {

/// `p `
pub open spec fn header_prefix() -> Seq<u8> {
    seq![112u8, 32u8]
}

/// `cnf`
pub open spec fn cnf_word() -> Seq<u8> {
    seq![99u8, 110u8, 102u8]
}

/// The variable count that a header line `p cnf N M` declares, when the line is one
/// with `N` and `M` nonnegative integers.
pub open spec fn header_vars(l: Seq<u8>) -> Option<int> {
    let w = words(fields_from(l, 2, false));
    if w.len() == 3 && w[0] == cnf_word() && token_i32(w[1]) is Some && token_i32(w[1])->Some_0 >= 0
        && token_i32(w[2]) is Some && token_i32(w[2])->Some_0 >= 0 {
        Some(token_i32(w[1])->Some_0 as int)
    } else {
        None
    }
}

/// Where the reading of the tokens of a clause line ends.
pub enum ClauseScan {
    /// The clauses closed so far and the literals of the open clause.
    Read(Seq<Seq<i32>>, Seq<i32>),
    /// This token is no `i32`.
    Bad(Seq<u8>),
}

/// Adds the literals of a line to the open clause `cur`; a `0` closes it.
pub open spec fn scan_clauses(toks: Seq<Seq<u8>>, done: Seq<Seq<i32>>, cur: Seq<i32>) -> ClauseScan
    decreases toks.len(),
{
    if toks.len() == 0 {
        ClauseScan::Read(done, cur)
    } else {
        let t = toks[0];
        let rest = toks.subrange(1, toks.len() as int);
        if t.len() == 0 {
            scan_clauses(rest, done, cur)
        } else {
            match token_i32(t) {
                None => ClauseScan::Bad(t),
                Some(x) => if x == 0 {
                    scan_clauses(rest, done.push(cur), seq![])
                } else {
                    scan_clauses(rest, done, cur.push(x))
                },
            }
        }
    }
}

/// Where the reading of a CNF text ends.
pub enum CnfReading {
    /// The variable count and the clauses.
    Parsed(int, Seq<Seq<i32>>),
    /// A clause line, or the end, came before the header.
    MissingHeader,
    /// A header line that is malformed or repeated.
    BadHeader(Seq<u8>),
    /// A token of a clause line that is no `i32`.
    BadToken(Seq<u8>),
}

/// The end of the reading: a last clause that lacks its `0` is kept.
pub open spec fn finish(header: Option<int>, done: Seq<Seq<i32>>, cur: Seq<i32>) -> CnfReading {
    match header {
        None => CnfReading::MissingHeader,
        Some(n) => CnfReading::Parsed(n, if cur.len() > 0 { done.push(cur) } else { done }),
    }
}

/// Reads the lines of a CNF text: comments and blank lines are passed over, a line
/// that starts with `%` ends the clauses, the header `p cnf N M` comes once before
/// any clause, and the clauses are the literals of the other lines, each closed by a
/// `0`.
pub open spec fn read_cnf(ls: Seq<Seq<u8>>, header: Option<int>, done: Seq<Seq<i32>>, cur: Seq<i32>) -> CnfReading
    decreases ls.len(),
{
    if ls.len() == 0 {
        finish(header, done, cur)
    } else {
        let l = ls[0];
        let rest = ls.subrange(1, ls.len() as int);
        if is_comment(l) || is_blank(l) {
            read_cnf(rest, header, done, cur)
        } else if l[0] == 37u8 {
            finish(header, done, cur)
        } else if starts_with(l, header_prefix()) {
            if header is Some {
                CnfReading::BadHeader(l)
            } else {
                match header_vars(l) {
                    Some(n) => read_cnf(rest, Some(n), done, cur),
                    None => CnfReading::BadHeader(l),
                }
            }
        } else if header is None {
            CnfReading::MissingHeader
        } else {
            match scan_clauses(fields_from(l, 0, false), done, cur) {
                ClauseScan::Read(d, c) => read_cnf(rest, header, d, c),
                ClauseScan::Bad(t) => CnfReading::BadToken(t),
            }
        }
    }
}

/// Why a CNF text could not be read.
#[derive(Debug, Clone, PartialEq, Eq)]
pub enum CnfError {
    /// A clause line, or the end, came before the header.
    MissingHeader,
    /// A header line that is malformed or repeated, without its newline.
    BadHeader(Vec<u8>),
    /// A token of a clause line that is no `i32`.
    BadToken(Vec<u8>),
    /// The clauses do not fit the declared variables.
    Problem(ProblemError),
}

pub open spec fn views(v: Seq<Vec<i32>>) -> Seq<Seq<i32>> {
    v.map_values(|c: Vec<i32>| c@)
}

/// Reads the words after `p `, and the variable count they declare.
fn read_header(l: &Vec<u8>) -> (r: Option<i32>)
    requires
        l@.len() >= 2,
    ensures
        match header_vars(l@) {
            Some(n) => r == Some(n as i32),
            None => r is None,
        },
        r matches Some(n) ==> n >= 0,
{
    let ghost toks = fields_from(l@, 2, false);
    let ghost mut pre: Seq<Seq<u8>> = seq![];
    let mut w0: Vec<u8> = Vec::new();
    let mut w1: Vec<u8> = Vec::new();
    let mut w2: Vec<u8> = Vec::new();
    let mut count: usize = 0;
    let mut q: usize = 2;
    while q < l.len()
        invariant
            2 <= q,
            toks == fields_from(l@, 2, false),
            count == pre.len(),
            count <= 3,
            words(toks) == pre + words(fields_from(l@, q as int, false)),
            count >= 1 ==> w0@ == pre[0],
            count >= 2 ==> w1@ == pre[1],
            count >= 3 ==> w2@ == pre[2],
        decreases l@.len() - q,
    {
        let (tok, te) = next_field(l, q, false);
        let ghost ts = fields_from(l@, q as int, false);
        let ghost later = fields_from(l@, te + 1, false);
        assert(ts[0] == tok@);
        assert(ts.subrange(1, ts.len() as int) == later);
        let nq: usize = if te < l.len() { te + 1 } else { te };
        assert(fields_from(l@, nq as int, false) == later);
        if tok.len() > 0 {
            if count == 3 {
                assert(words(toks).len() > 3) by {
                    assert(words(ts) == seq![tok@] + words(later));
                    assert(words(ts).len() >= 1);
                    assert(words(toks).len() == pre.len() + words(ts).len());
                }
                assert(header_vars(l@) is None);
                return None;
            }
            proof {
                assert(words(ts) == seq![tok@] + words(later));
                assert(pre + words(ts) == pre.push(tok@) + words(later));
                pre = pre.push(tok@);
            }
            if count == 0 {
                w0 = tok;
            } else if count == 1 {
                w1 = tok;
            } else {
                w2 = tok;
            }
            count += 1;
        } else {
            assert(words(ts) == words(later));
        }
        q = nq;
    }
    assert(words(toks) == pre + Seq::<Seq<u8>>::empty());
    assert(words(toks) == pre);
    if count != 3 {
        return None;
    }
    let cnf: Vec<u8> = vec![99u8, 110u8, 102u8];
    if w0.len() != 3 || !has_prefix(&w0, &cnf) {
        proof {
            if w0@ == cnf_word() {
                assert(w0@.subrange(0, 3) == w0@);
            }
        }
        return None;
    }
    assert(w0@ == w0@.subrange(0, 3));
    match (parse_i32(&w1), parse_i32(&w2)) {
        (Some(n), Some(m)) => if n >= 0 && m >= 0 { Some(n) } else { None },
        _ => None,
    }
}

pub open spec fn opt_int(h: Option<i32>) -> Option<int> {
    match h {
        Some(n) => Some(n as int),
        None => None,
    }
}

/// Reads the variable count and the clauses of a CNF text.
fn read_clauses(input: &Vec<u8>) -> (r: Result<(i32, Vec<Vec<i32>>), CnfError>)
    ensures
        match read_cnf(lines(input@), None, seq![], seq![]) {
            CnfReading::Parsed(n, cls) => r matches Ok((m, v)) && m == n && views(v@) == cls,
            CnfReading::MissingHeader => r == Err::<(i32, Vec<Vec<i32>>), CnfError>(CnfError::MissingHeader),
            CnfReading::BadHeader(l) => r matches Err(CnfError::BadHeader(e)) && e@ == l,
            CnfReading::BadToken(t) => r matches Err(CnfError::BadToken(e)) && e@ == t,
        },
        r matches Ok((m, _)) ==> m >= 0,
{
    let ghost s = input@;
    let ghost whole = read_cnf(lines(s), None, seq![], seq![]);
    let header_start: Vec<u8> = vec![112u8, 32u8];
    assert(header_start@ == header_prefix());
    let mut header: Option<i32> = None;
    let mut done: Vec<Vec<i32>> = Vec::new();
    let mut cur: Vec<i32> = Vec::new();
    assert(views(done@) == Seq::<Seq<i32>>::empty());
    assert(cur@ == Seq::<i32>::empty());
    let mut pos: usize = 0;
    while pos < input.len()
        invariant
            s == input@,
            whole == read_cnf(lines(s), None, seq![], seq![]),
            pos <= s.len(),
            header_start@ == header_prefix(),
            whole == read_cnf(fields_from(s, pos as int, true), opt_int(header), views(done@), cur@),
            header matches Some(n) ==> n >= 0,
        decreases s.len() - pos,
    {
        let (line, e) = next_field(input, pos, true);
        let ghost ls = fields_from(s, pos as int, true);
        let ghost rest = fields_from(s, e + 1, true);
        assert(ls[0] == line@);
        assert(ls.subrange(1, ls.len() as int) == rest);
        let mut next: usize = if e < input.len() { e + 1 } else { e };
        assert(fields_from(s, next as int, true) == rest);
        if (line.len() > 0 && line[0] == 99u8) || blank(&line) {
        } else if line[0] == 37u8 {
            next = input.len();
        } else if has_prefix(&line, &header_start) {
            if header.is_some() {
                return Err(CnfError::BadHeader(line));
            }
            match read_header(&line) {
                Some(n) => {
                    header = Some(n);
                },
                None => {
                    return Err(CnfError::BadHeader(line));
                },
            }
        } else if header.is_none() {
            return Err(CnfError::MissingHeader);
        } else {
            let ghost toks = fields_from(line@, 0, false);
            let ghost d0 = views(done@);
            let ghost c0 = cur@;
            let mut q: usize = 0;
            while q < line.len()
                invariant
                    s == input@,
                    ls == fields_from(s, pos as int, true),
                    ls.len() > 0,
                    ls[0] == line@,
                    line@.len() > 0,
                    !is_comment(line@),
                    !is_blank(line@),
                    line@[0] != 37u8,
                    !starts_with(line@, header_prefix()),
                    header is Some,
                    header matches Some(n) ==> n >= 0,
                    rest == ls.subrange(1, ls.len() as int),
                    toks == fields_from(line@, 0, false),
                    whole == read_cnf(lines(s), None, seq![], seq![]),
                    whole == read_cnf(ls, opt_int(header), d0, c0),
                    scan_clauses(toks, d0, c0) == scan_clauses(fields_from(line@, q as int, false), views(done@), cur@),
                decreases line@.len() - q,
            {
                let (tok, te) = next_field(&line, q, false);
                let ghost ts = fields_from(line@, q as int, false);
                assert(ts[0] == tok@);
                assert(ts.subrange(1, ts.len() as int) == fields_from(line@, te + 1, false));
                let nq: usize = if te < line.len() { te + 1 } else { te };
                assert(fields_from(line@, nq as int, false) == fields_from(line@, te + 1, false));
                if tok.len() > 0 {
                    match parse_i32(&tok) {
                        None => {
                            return Err(CnfError::BadToken(tok));
                        },
                        Some(x) => {
                            if x == 0 {
                                let ghost before = views(done@);
                                let ghost c = cur@;
                                done.push(cur);
                                cur = Vec::new();
                                assert(views(done@) =~= before.push(c));
                                assert(cur@ == Seq::<i32>::empty());
                            } else {
                                cur.push(x);
                            }
                        },
                    }
                }
                q = nq;
            }
        }
        pos = next;
    }
    match header {
        None => Err(CnfError::MissingHeader),
        Some(n) => {
            if cur.len() > 0 {
                let ghost before = views(done@);
                let ghost c = cur@;
                done.push(cur);
                assert(views(done@) =~= before.push(c));
            }
            Ok((n, done))
        },
    }
}

/// Reads a problem from the text of a DIMACS CNF file.
pub fn parse_cnf(input: &Vec<u8>) -> (r: Result<Problem, CnfError>)
    ensures
        match read_cnf(lines(input@), None, seq![], seq![]) {
            CnfReading::Parsed(n, cls) => match r {
                Ok(p) => {
                    &&& p.wf()
                    &&& p.num_vars_spec() == n
                    &&& p.clauses_spec() == cls
                    &&& forall|v: int| 0 <= v <= n ==> p.values_spec()[v] == None::<bool>
                },
                Err(CnfError::Problem(ProblemError::TooManyVariables)) => n >= i32::MAX,
                Err(CnfError::Problem(ProblemError::LiteralOutOfRange(l))) => n < i32::MAX && exists|i: int, k: int|
                    0 <= i < cls.len() && 0 <= k < cls[i].len() && #[trigger] cls[i][k] == l
                        && !lit_in_range(l as int, n),
                Err(_) => false,
            },
            CnfReading::MissingHeader => r matches Err(CnfError::MissingHeader),
            CnfReading::BadHeader(l) => r matches Err(CnfError::BadHeader(e)) && e@ == l,
            CnfReading::BadToken(t) => r matches Err(CnfError::BadToken(e)) && e@ == t,
        },
{
    match read_clauses(input) {
        Ok((n, clauses)) => {
            let ghost cls = views(clauses@);
            match Problem::new(n as usize, clauses) {
                Ok(p) => Ok(p),
                Err(ProblemError::TooManyVariables) => Err(CnfError::Problem(ProblemError::TooManyVariables)),
                Err(ProblemError::LiteralOutOfRange(l)) => {
                    proof {
                        let (i, k) = choose|i: int, k: int|
                            0 <= i < clauses@.len() && 0 <= k < clauses@[i]@.len() && clauses@[i]@[k] == l
                                && !lit_in_range(l as int, n as int);
                        assert(cls[i][k] == l);
                    }
                    Err(CnfError::Problem(ProblemError::LiteralOutOfRange(l)))
                },
            }
        },
        Err(e) => Err(e),
    }
}

} // verus!
