//! The report printed for a verdict.
use crate::checker::Verdict;
use crate::decimal::{int_text, nat_text, push_int};
use vstd::prelude::*;

verus! {

/// `A valid assignment set for `
pub open spec fn valid_intro() -> Seq<u8> {
    seq![65u8, 32u8, 118u8, 97u8, 108u8, 105u8, 100u8, 32u8, 97u8, 115u8, 115u8, 105u8, 103u8, 110u8, 109u8, 101u8, 110u8, 116u8, 32u8, 115u8, 101u8, 116u8, 32u8, 102u8, 111u8, 114u8, 32u8]
}

/// ` is found in `
pub open spec fn found_in_text() -> Seq<u8> {
    seq![32u8, 105u8, 115u8, 32u8, 102u8, 111u8, 117u8, 110u8, 100u8, 32u8, 105u8, 110u8, 32u8]
}

/// `An invalid assignment set for `
pub open spec fn invalid_intro() -> Seq<u8> {
    seq![65u8, 110u8, 32u8, 105u8, 110u8, 118u8, 97u8, 108u8, 105u8, 100u8, 32u8, 97u8, 115u8, 115u8, 105u8, 103u8, 110u8, 109u8, 101u8, 110u8, 116u8, 32u8, 115u8, 101u8, 116u8, 32u8, 102u8, 111u8, 114u8, 32u8]
}

/// ` due to `
pub open spec fn due_to() -> Seq<u8> {
    seq![32u8, 100u8, 117u8, 101u8, 32u8, 116u8, 111u8, 32u8]
}

/// ` seems an unsat problem but no proof.`
pub open spec fn no_proof() -> Seq<u8> {
    seq![32u8, 115u8, 101u8, 101u8, 109u8, 115u8, 32u8, 97u8, 110u8, 32u8, 117u8, 110u8, 115u8, 97u8, 116u8, 32u8, 112u8, 114u8, 111u8, 98u8, 108u8, 101u8, 109u8, 32u8, 98u8, 117u8, 116u8, 32u8, 110u8, 111u8, 32u8, 112u8, 114u8, 111u8, 111u8, 102u8, 46u8]
}

/// ` seems an unsatisfiable problem. I can't handle it.`
pub open spec fn unsat_claimed() -> Seq<u8> {
    seq![32u8, 115u8, 101u8, 101u8, 109u8, 115u8, 32u8, 97u8, 110u8, 32u8, 117u8, 110u8, 115u8, 97u8, 116u8, 105u8, 115u8, 102u8, 105u8, 97u8, 98u8, 108u8, 101u8, 32u8, 112u8, 114u8, 111u8, 98u8, 108u8, 101u8, 109u8, 46u8, 32u8, 73u8, 32u8, 99u8, 97u8, 110u8, 39u8, 116u8, 32u8, 104u8, 97u8, 110u8, 100u8, 108u8, 101u8, 32u8, 105u8, 116u8, 46u8]
}

/// `There's no assign file.`
pub open spec fn no_input() -> Seq<u8> {
    seq![84u8, 104u8, 101u8, 114u8, 101u8, 39u8, 115u8, 32u8, 110u8, 111u8, 32u8, 97u8, 115u8, 115u8, 105u8, 103u8, 110u8, 32u8, 102u8, 105u8, 108u8, 101u8, 46u8]
}

/// The escape sequence that turns on bold text of an ANSI color (digit `1` red,
/// `2` green, `4` blue); nothing without color.
pub open spec fn color_on(code: u8, color: bool) -> Seq<u8> {
    if color {
        seq![27u8, 91u8, 48u8, 48u8, 49u8, 109u8, 27u8, 91u8, 48u8, 51u8, code, 109u8]
    } else {
        seq![]
    }
}

/// The escape sequence that resets the text attributes; nothing without color.
pub open spec fn color_off(color: bool) -> Seq<u8> {
    if color {
        seq![27u8, 91u8, 48u8, 48u8, 48u8, 109u8]
    } else {
        seq![]
    }
}

/// The literals of a clause, separated by `, `.
pub open spec fn joined(c: Seq<i32>) -> Seq<u8>
    decreases c.len(),
{
    if c.len() == 0 {
        seq![]
    } else if c.len() == 1 {
        int_text(c[0] as int)
    } else {
        joined(c.drop_last()) + seq![44u8, 32u8] + int_text(c.last() as int)
    }
}

/// A clause as a bracketed list, such as `[1, -2]`.
pub open spec fn clause_text(c: Seq<i32>) -> Seq<u8> {
    seq![91u8] + joined(c) + seq![93u8]
}

/// The report for a verdict on `problem`; `found_in` names the file that the
/// assignment came from, if it came from one.
pub open spec fn message(v: Verdict, problem: Seq<u8>, found_in: Option<Vec<u8>>, color: bool) -> Seq<u8> {
    match v {
        Verdict::Valid => match found_in {
            Some(path) => color_on(50u8, color) + valid_intro() + problem + color_off(color) + found_in_text() + path@,
            None => color_on(50u8, color) + valid_intro() + problem + seq![46u8] + color_off(color),
        },
        Verdict::Invalid(c) => color_on(49u8, color) + invalid_intro() + problem + color_off(color) + due_to()
            + clause_text(c@) + seq![46u8],
        Verdict::UnsatWithoutProof => color_on(52u8, color) + problem + no_proof() + color_off(color),
        Verdict::UnsatClaimed => problem + unsat_claimed(),
        Verdict::NoInput => no_input(),
    }
}

/// No byte is an escape.
pub open spec fn escape_free(s: Seq<u8>) -> bool {
    forall|i: int| 0 <= i < s.len() ==> #[trigger] s[i] != 27u8
}

proof fn lemma_concat_escape_free(a: Seq<u8>, b: Seq<u8>)
    requires
        escape_free(a),
        escape_free(b),
    ensures
        escape_free(a + b),
{
    assert forall|i: int| 0 <= i < (a + b).len() implies #[trigger] (a + b)[i] != 27u8 by {
        if i >= a.len() {
            assert((a + b)[i] == b[i - a.len()]);
        }
    }
}

proof fn lemma_nat_text_escape_free(n: nat)
    ensures
        escape_free(nat_text(n)),
    decreases n,
{
    if n >= 10 {
        lemma_nat_text_escape_free(n / 10);
        lemma_concat_escape_free(nat_text(n / 10), seq![(48 + n % 10) as u8]);
    }
}

proof fn lemma_joined_escape_free(c: Seq<i32>)
    ensures
        escape_free(joined(c)),
    decreases c.len(),
{
    if c.len() > 0 {
        if c.last() < 0 {
            lemma_nat_text_escape_free((-(c.last() as int)) as nat);
            lemma_concat_escape_free(seq![45u8], nat_text((-(c.last() as int)) as nat));
        } else {
            lemma_nat_text_escape_free(c.last() as nat);
        }
        if c.len() == 1 {
            assert(c.last() == c[0]);
        } else {
            lemma_joined_escape_free(c.drop_last());
            lemma_concat_escape_free(joined(c.drop_last()), seq![44u8, 32u8]);
            lemma_concat_escape_free(joined(c.drop_last()) + seq![44u8, 32u8], int_text(c.last() as int));
        }
    }
}

/// Without color the report holds no escape byte, and so no ANSI SGR sequence, unless
/// a name handed in holds one.
pub proof fn lemma_plain_report_escape_free(v: Verdict, problem: Seq<u8>, found_in: Option<Vec<u8>>)
    requires
        escape_free(problem),
        found_in matches Some(p) ==> escape_free(p@),
    ensures
        escape_free(message(v, problem, found_in, false)),
{
    let e: Seq<u8> = seq![];
    assert(e + problem == problem);
    assert(problem + e == problem);
    match v {
        Verdict::Valid => match found_in {
            Some(path) => {
                lemma_concat_escape_free(valid_intro(), problem);
                assert(e + valid_intro() + problem + e == valid_intro() + problem);
                lemma_concat_escape_free(valid_intro() + problem, found_in_text());
                lemma_concat_escape_free(valid_intro() + problem + found_in_text(), path@);
            },
            None => {
                lemma_concat_escape_free(valid_intro(), problem);
                lemma_concat_escape_free(valid_intro() + problem, seq![46u8]);
                assert(e + valid_intro() + problem + seq![46u8] + e == valid_intro() + problem + seq![46u8]);
            },
        },
        Verdict::Invalid(c) => {
            lemma_joined_escape_free(c@);
            lemma_concat_escape_free(seq![91u8], joined(c@));
            lemma_concat_escape_free(seq![91u8] + joined(c@), seq![93u8]);
            lemma_concat_escape_free(invalid_intro(), problem);
            assert(e + invalid_intro() + problem + e == invalid_intro() + problem);
            lemma_concat_escape_free(invalid_intro() + problem, due_to());
            lemma_concat_escape_free(invalid_intro() + problem + due_to(), clause_text(c@));
            lemma_concat_escape_free(invalid_intro() + problem + due_to() + clause_text(c@), seq![46u8]);
        },
        Verdict::UnsatWithoutProof => {
            lemma_concat_escape_free(problem, no_proof());
            assert(e + problem + no_proof() + e == problem + no_proof());
        },
        Verdict::UnsatClaimed => {
            lemma_concat_escape_free(problem, unsat_claimed());
        },
        Verdict::NoInput => {},
    }
}

/// Appends the bytes of `t`.
pub(crate) fn append(out: &mut Vec<u8>, t: &Vec<u8>)
    ensures
        final(out)@ == old(out)@ + t@,
{
    let mut i: usize = 0;
    while i < t.len()
        invariant
            i <= t@.len(),
            out@ == old(out)@ + t@.subrange(0, i as int),
        decreases t@.len() - i,
    {
        out.push(t[i]);
        i += 1;
        assert(out@ == old(out)@ + t@.subrange(0, i as int));
    }
    assert(t@.subrange(0, t@.len() as int) == t@);
}

fn push_color_on(out: &mut Vec<u8>, code: u8, color: bool)
    ensures
        final(out)@ == old(out)@ + color_on(code, color),
{
    if color {
        let t: Vec<u8> = vec![27u8, 91u8, 48u8, 48u8, 49u8, 109u8, 27u8, 91u8, 48u8, 51u8, code, 109u8];
        append(out, &t);
    } else {
        assert(out@ == out@ + color_on(code, color));
    }
}

fn push_color_off(out: &mut Vec<u8>, color: bool)
    ensures
        final(out)@ == old(out)@ + color_off(color),
{
    if color {
        let t: Vec<u8> = vec![27u8, 91u8, 48u8, 48u8, 48u8, 109u8];
        append(out, &t);
    } else {
        assert(out@ == out@ + color_off(color));
    }
}

/// Appends a clause as a bracketed list.
fn push_clause(out: &mut Vec<u8>, c: &Vec<i32>)
    ensures
        final(out)@ == old(out)@ + clause_text(c@),
{
    out.push(91u8);
    let mut i: usize = 0;
    while i < c.len()
        invariant
            i <= c@.len(),
            out@ == old(out)@ + seq![91u8] + joined(c@.take(i as int)),
        decreases c@.len() - i,
    {
        let ghost before = out@;
        if i > 0 {
            out.push(44u8);
            out.push(32u8);
        }
        push_int(out, c[i]);
        proof {
            let t = c@.take(i as int + 1);
            assert(t.drop_last() == c@.take(i as int));
            assert(t.last() == c@[i as int]);
            if i == 0 {
                assert(t.len() == 1);
                assert(joined(c@.take(0)) == Seq::<u8>::empty());
                assert(before + int_text(c@[0] as int) == old(out)@ + seq![91u8] + joined(t));
            } else {
                assert(before.push(44u8).push(32u8) + int_text(c@[i as int] as int)
                    == old(out)@ + seq![91u8] + joined(t));
            }
        }
        i += 1;
    }
    assert(c@.take(c@.len() as int) == c@);
    out.push(93u8);
    assert(old(out)@ + seq![91u8] + joined(c@) + seq![93u8] == old(out)@ + clause_text(c@));
}

/// The report for a verdict on `problem`; `found_in` names the file that the assignment
/// came from, if it came from one. `color` adds ANSI color sequences.
pub fn render(verdict: &Verdict, problem: &Vec<u8>, found_in: &Option<Vec<u8>>, color: bool) -> (r: Vec<u8>)
    ensures
        r@ == message(*verdict, problem@, *found_in, color),
{
    let mut out: Vec<u8> = Vec::new();
    match verdict {
        Verdict::Valid => {
            push_color_on(&mut out, 50u8, color);
            let t: Vec<u8> = vec![65u8, 32u8, 118u8, 97u8, 108u8, 105u8, 100u8, 32u8, 97u8, 115u8, 115u8, 105u8, 103u8, 110u8, 109u8, 101u8, 110u8, 116u8, 32u8, 115u8, 101u8, 116u8, 32u8, 102u8, 111u8, 114u8, 32u8];
            append(&mut out, &t);
            append(&mut out, problem);
            match found_in {
                Some(path) => {
                    push_color_off(&mut out, color);
                    let t: Vec<u8> = vec![32u8, 105u8, 115u8, 32u8, 102u8, 111u8, 117u8, 110u8, 100u8, 32u8, 105u8, 110u8, 32u8];
                    append(&mut out, &t);
                    append(&mut out, path);
                },
                None => {
                    out.push(46u8);
                    push_color_off(&mut out, color);
                },
            }
        },
        Verdict::Invalid(c) => {
            push_color_on(&mut out, 49u8, color);
            let t: Vec<u8> = vec![65u8, 110u8, 32u8, 105u8, 110u8, 118u8, 97u8, 108u8, 105u8, 100u8, 32u8, 97u8, 115u8, 115u8, 105u8, 103u8, 110u8, 109u8, 101u8, 110u8, 116u8, 32u8, 115u8, 101u8, 116u8, 32u8, 102u8, 111u8, 114u8, 32u8];
            append(&mut out, &t);
            append(&mut out, problem);
            push_color_off(&mut out, color);
            let t: Vec<u8> = vec![32u8, 100u8, 117u8, 101u8, 32u8, 116u8, 111u8, 32u8];
            append(&mut out, &t);
            push_clause(&mut out, c);
            out.push(46u8);
        },
        Verdict::UnsatWithoutProof => {
            push_color_on(&mut out, 52u8, color);
            append(&mut out, problem);
            let t: Vec<u8> = vec![32u8, 115u8, 101u8, 101u8, 109u8, 115u8, 32u8, 97u8, 110u8, 32u8, 117u8, 110u8, 115u8, 97u8, 116u8, 32u8, 112u8, 114u8, 111u8, 98u8, 108u8, 101u8, 109u8, 32u8, 98u8, 117u8, 116u8, 32u8, 110u8, 111u8, 32u8, 112u8, 114u8, 111u8, 111u8, 102u8, 46u8];
            append(&mut out, &t);
            push_color_off(&mut out, color);
        },
        Verdict::UnsatClaimed => {
            append(&mut out, problem);
            let t: Vec<u8> = vec![32u8, 115u8, 101u8, 101u8, 109u8, 115u8, 32u8, 97u8, 110u8, 32u8, 117u8, 110u8, 115u8, 97u8, 116u8, 105u8, 115u8, 102u8, 105u8, 97u8, 98u8, 108u8, 101u8, 32u8, 112u8, 114u8, 111u8, 98u8, 108u8, 101u8, 109u8, 46u8, 32u8, 73u8, 32u8, 99u8, 97u8, 110u8, 39u8, 116u8, 32u8, 104u8, 97u8, 110u8, 100u8, 108u8, 101u8, 32u8, 105u8, 116u8, 46u8];
            append(&mut out, &t);
        },
        Verdict::NoInput => {
            let t: Vec<u8> = vec![84u8, 104u8, 101u8, 114u8, 101u8, 39u8, 115u8, 32u8, 110u8, 111u8, 32u8, 97u8, 115u8, 115u8, 105u8, 103u8, 110u8, 32u8, 102u8, 105u8, 108u8, 101u8, 46u8];
            append(&mut out, &t);
        },
    }
    out
}

} // verus!
