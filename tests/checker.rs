use dmcr::assignment::{read_assignment, AssignmentRead, ReadError};
use dmcr::checker::{check, CheckError, Verdict};
use dmcr::cnf::{parse_cnf, CnfError};
use dmcr::decimal::{parse_i32, push_int};
use dmcr::problem::{BindError, Problem, ProblemError};
use dmcr::report::render;

fn problem(text: &str) -> Problem {
    parse_cnf(&text.as_bytes().to_vec()).expect("a well-formed problem")
}

fn reading(text: &str) -> AssignmentRead {
    read_assignment(&text.as_bytes().to_vec()).expect("a well-formed solution stream")
}

fn verdict(cnf: &str, answer: &str) -> Result<Verdict, CheckError> {
    let mut p = problem(cnf);
    let r = reading(answer);
    check(&mut p, &r)
}

fn plain(v: &Verdict, name: &str, found_in: Option<&str>) -> String {
    let f = found_in.map(|s| s.as_bytes().to_vec());
    String::from_utf8(render(v, &name.as_bytes().to_vec(), &f, false)).unwrap()
}

#[test]
fn satisfying_assignment_is_valid() {
    assert_eq!(verdict("p cnf 2 2\n1 2 0\n-1 -2 0\n", "v 1 -2 0\n"), Ok(Verdict::Valid));
}

#[test]
fn first_falsified_clause_is_reported() {
    assert_eq!(verdict("p cnf 2 2\n1 2 0\n-1 -2 0\n", "v -1 -2 0\n"), Ok(Verdict::Invalid(vec![1, 2])));
}

#[test]
fn all_false_clause_is_reported() {
    assert_eq!(verdict("p cnf 3 1\n1 2 3 0\n", "v -1 -2 -3 0\n"), Ok(Verdict::Invalid(vec![1, 2, 3])));
}

#[test]
fn unit_clause_conflict_is_unsat_without_proof() {
    let v = verdict("p cnf 1 2\n1 0\n-1 0\n", "v 1 0\n").unwrap();
    assert_eq!(v, Verdict::UnsatWithoutProof);
    assert_eq!(plain(&v, "u.cnf", None), "u.cnf seems an unsat problem but no proof.");
}

#[test]
fn unsat_claim_is_reported() {
    let v = verdict("p cnf 1 1\n1 0\n", "s UNSATISFIABLE\n").unwrap();
    assert_eq!(v, Verdict::UnsatClaimed);
    assert_eq!(plain(&v, "a.cnf", None), "a.cnf seems an unsatisfiable problem. I can't handle it.");
}

#[test]
fn comments_before_values_are_ignored() {
    assert_eq!(verdict("p cnf 2 1\n1 -2 0\n", "c comment\nc more\nv 1 2 0"), Ok(Verdict::Valid));
}

#[test]
fn comments_among_split_values_lines() {
    let r = reading("c a\nv 1 -2\nc b\nv 3\nc c\nv -4 0 5\nv 6 0\n");
    assert_eq!(r, AssignmentRead::Literals(vec![1, -2, 3, -4]));
}

#[test]
fn values_without_terminating_zero() {
    assert_eq!(reading("v 1 2\nv -3\n"), AssignmentRead::Literals(vec![1, 2, -3]));
}

#[test]
fn status_and_empty_lines() {
    assert_eq!(reading("s SATISFIABLE\n\nc x\n"), AssignmentRead::NoAssignment);
    assert_eq!(reading("s SATISFIABLE\r\nv 1 0\r\n"), AssignmentRead::Literals(vec![1]));
    assert_eq!(reading(""), AssignmentRead::NoAssignment);
    assert_eq!(reading("c only\n"), AssignmentRead::NoAssignment);
    assert_eq!(reading("v 0\n"), AssignmentRead::Literals(vec![]));
}

#[test]
fn unknown_status_is_illegal() {
    let r = read_assignment(&"s UNKNOWN\nv 1 0\n".as_bytes().to_vec());
    assert_eq!(r, Err(ReadError::IllegalLine(b"s UNKNOWN".to_vec())));
}

#[test]
fn white_space_line_is_illegal() {
    let r = read_assignment(&" \nv 1 0\n".as_bytes().to_vec());
    assert_eq!(r, Err(ReadError::IllegalLine(b" ".to_vec())));
    let r = read_assignment(&"v 1\n\t\r\nv 0\n".as_bytes().to_vec());
    assert_eq!(r, Err(ReadError::IllegalLine(b"\t\r".to_vec())));
}

#[test]
fn unknown_line_is_illegal() {
    let r = read_assignment(&"x 1 2\n".as_bytes().to_vec());
    assert_eq!(r, Err(ReadError::IllegalLine(b"x 1 2".to_vec())));
}

#[test]
fn non_integer_token_is_refused() {
    let r = read_assignment(&"v 1 two 0\n".as_bytes().to_vec());
    assert_eq!(r, Err(ReadError::BadToken(b"two".to_vec())));
    let r = read_assignment(&"v 2147483648 0\n".as_bytes().to_vec());
    assert_eq!(r, Err(ReadError::BadToken(b"2147483648".to_vec())));
}

#[test]
fn checking_twice_gives_the_same_verdict() {
    let mut p = problem("p cnf 3 2\n1 2 0\n-3 0\n");
    let bad = reading("v -1 -2 -3 0");
    let first = check(&mut p, &bad);
    let second = check(&mut p, &bad);
    assert_eq!(first, Ok(Verdict::Invalid(vec![1, 2])));
    assert_eq!(first, second);
    let good = reading("v 1 -2 -3 0");
    assert_eq!(check(&mut p, &good), Ok(Verdict::Valid));
    assert_eq!(check(&mut p, &bad), first);
}

#[test]
fn partial_assignment_leaves_clause_unsatisfied() {
    assert_eq!(verdict("p cnf 3 2\n1 0\n2 3 0\n", "v 1 0\n"), Ok(Verdict::Invalid(vec![2, 3])));
}

#[test]
fn empty_clause_is_never_satisfied() {
    let mut p = Problem::new(2, vec![vec![1], vec![]]).unwrap();
    assert_eq!(p.inject_assignment(&vec![1, 2]), Ok(()));
    assert_eq!(p.validate(), Some(vec![]));
}

#[test]
fn no_assignment_gives_no_input() {
    let v = verdict("p cnf 1 1\n1 0\n", "c nothing\n").unwrap();
    assert_eq!(v, Verdict::NoInput);
    assert_eq!(plain(&v, "a.cnf", None), "There's no assign file.");
}

#[test]
fn contradictory_literals_conflict() {
    let mut p = Problem::new(2, vec![vec![1, 2]]).unwrap();
    assert_eq!(p.inject_assignment(&vec![1, 2, -1]), Err(BindError::Conflict));
    assert_eq!(p.validate(), Some(vec![1, 2]));
    assert_eq!(p.inject_assignment(&vec![1, -2]), Ok(()));
    assert_eq!(p.validate(), None);
}

#[test]
fn literal_out_of_range_is_refused() {
    let mut p = Problem::new(2, vec![vec![1, 2]]).unwrap();
    assert_eq!(p.inject_assignment(&vec![1, 3, -7]), Err(BindError::LiteralOutOfRange(3)));
    assert_eq!(p.inject_assignment(&vec![0]), Err(BindError::LiteralOutOfRange(0)));
    assert_eq!(p.inject_assignment(&vec![i32::MIN]), Err(BindError::LiteralOutOfRange(i32::MIN)));
    let mut q = problem("p cnf 2 1\n1 2 0\n");
    assert_eq!(check(&mut q, &reading("v 1 5 0")), Err(CheckError::LiteralOutOfRange(5)));
}

#[test]
fn problem_construction_errors() {
    assert_eq!(Problem::new(1, vec![vec![1, -2]]).err(), Some(ProblemError::LiteralOutOfRange(-2)));
    assert_eq!(Problem::new(1, vec![vec![0]]).err(), Some(ProblemError::LiteralOutOfRange(0)));
    assert_eq!(Problem::new(i32::MAX as usize, vec![]).err(), Some(ProblemError::TooManyVariables));
    let p = Problem::new(3, vec![vec![1, -3], vec![2]]).unwrap();
    assert_eq!(p.num_vars(), 3);
    assert_eq!(p.clauses(), &vec![vec![1, -3], vec![2]]);
}

#[test]
fn cnf_reading() {
    let p = problem("c a comment\np cnf 3 2\n1 -3\n 0 2\n0\n\n%\n0\n");
    assert_eq!(p.num_vars(), 3);
    assert_eq!(p.clauses(), &vec![vec![1, -3], vec![2]]);
    let p = problem("p  cnf 2 3\r\n1 0 -2 0 1 2");
    assert_eq!(p.clauses(), &vec![vec![1], vec![-2], vec![1, 2]]);
}

#[test]
fn cnf_errors() {
    let read = |t: &str| parse_cnf(&t.as_bytes().to_vec()).err();
    assert_eq!(read("1 2 0\n"), Some(CnfError::MissingHeader));
    assert_eq!(read("c only\n"), Some(CnfError::MissingHeader));
    assert_eq!(read("p dnf 2 1\n"), Some(CnfError::BadHeader(b"p dnf 2 1".to_vec())));
    assert_eq!(read("p cnf 2\n"), Some(CnfError::BadHeader(b"p cnf 2".to_vec())));
    assert_eq!(read("p cnf 2 1 1\n"), Some(CnfError::BadHeader(b"p cnf 2 1 1".to_vec())));
    assert_eq!(read("p cnf -2 1\n"), Some(CnfError::BadHeader(b"p cnf -2 1".to_vec())));
    assert_eq!(read("p cnf 2 1\np cnf 2 1\n"), Some(CnfError::BadHeader(b"p cnf 2 1".to_vec())));
    assert_eq!(read("p cnf 2 1\n1 x 0\n"), Some(CnfError::BadToken(b"x".to_vec())));
    assert_eq!(read("p cnf 2 1\n1 3 0\n"), Some(CnfError::Problem(ProblemError::LiteralOutOfRange(3))));
}

#[test]
fn reports_with_and_without_color() {
    assert_eq!(plain(&Verdict::Valid, "p.cnf", Some("ans_p.cnf")), "A valid assignment set for p.cnf is found in ans_p.cnf");
    assert_eq!(plain(&Verdict::Valid, "p.cnf", None), "A valid assignment set for p.cnf.");
    assert_eq!(plain(&Verdict::Invalid(vec![1, -20, 300]), "p.cnf", None), "An invalid assignment set for p.cnf due to [1, -20, 300].");
    assert_eq!(plain(&Verdict::Invalid(vec![]), "p.cnf", None), "An invalid assignment set for p.cnf due to [].");
    let colored = |v: &Verdict| String::from_utf8(render(v, &b"p.cnf".to_vec(), &None, true)).unwrap();
    assert_eq!(colored(&Verdict::Invalid(vec![1, 2])), "\x1B[001m\x1B[031mAn invalid assignment set for p.cnf\x1B[000m due to [1, 2].");
    assert_eq!(colored(&Verdict::Valid), "\x1B[001m\x1B[032mA valid assignment set for p.cnf.\x1B[000m");
    assert_eq!(colored(&Verdict::UnsatWithoutProof), "\x1B[001m\x1B[034mp.cnf seems an unsat problem but no proof.\x1B[000m");
}

#[test]
fn plain_reports_hold_no_escape() {
    let verdicts = vec![
        Verdict::Valid,
        Verdict::Invalid(vec![i32::MIN, -1, 0, 7, i32::MAX]),
        Verdict::UnsatWithoutProof,
        Verdict::UnsatClaimed,
        Verdict::NoInput,
    ];
    for v in &verdicts {
        for f in [None, Some(b"ans_x.cnf".to_vec())] {
            let out = render(v, &b"x.cnf".to_vec(), &f, false);
            assert!(!out.contains(&0x1B));
        }
    }
}

#[test]
fn integer_tokens() {
    assert_eq!(parse_i32(&b"42".to_vec()), Some(42));
    assert_eq!(parse_i32(&b"-42".to_vec()), Some(-42));
    assert_eq!(parse_i32(&b"+7".to_vec()), Some(7));
    assert_eq!(parse_i32(&b"-2147483648".to_vec()), Some(i32::MIN));
    assert_eq!(parse_i32(&b"2147483647".to_vec()), Some(i32::MAX));
    assert_eq!(parse_i32(&b"2147483648".to_vec()), None);
    assert_eq!(parse_i32(&b"99999999999999999999".to_vec()), None);
    assert_eq!(parse_i32(&b"-".to_vec()), None);
    assert_eq!(parse_i32(&b"".to_vec()), None);
    assert_eq!(parse_i32(&b"1-2".to_vec()), None);
    let mut out = Vec::new();
    push_int(&mut out, -305);
    push_int(&mut out, 0);
    push_int(&mut out, i32::MIN);
    assert_eq!(out, b"-3050-2147483648".to_vec());
}

#[test]
fn nothing_after_the_closing_zero_is_read() {
    assert_eq!(reading("c a\nv 1 -2 0 x y\nzzz\ns UNKNOWN\n"), AssignmentRead::Literals(vec![1, -2]));
    assert_eq!(reading("v 1\nc b\nv 2 0 3\nv 4 0\n"), AssignmentRead::Literals(vec![1, 2]));
}

#[test]
fn inserted_comments_change_nothing() {
    let plain = reading("v 1 2\nv -3 0\n");
    assert_eq!(plain, AssignmentRead::Literals(vec![1, 2, -3]));
    assert_eq!(reading("c x\nv 1 2\nc y\nv -3 0\nc z\n"), plain);
    assert_eq!(reading("v 1 2\nc\nc y\nv -3 0\n"), plain);
}
