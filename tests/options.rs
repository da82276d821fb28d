use dmcr::checker::Verdict;
use dmcr::options::{ArgAction, ArgError, TargetOpts};
use dmcr::report::render;

fn argv(xs: &[&str]) -> Vec<Vec<u8>> {
    xs.iter().map(|x| x.as_bytes().to_vec()).collect()
}

#[test]
fn problem_and_assign_file() {
    let mut o = TargetOpts::default();
    let r = o.inject_from_args(&argv(&["-a", "ans.txt", "p.cnf"]), true);
    assert_eq!(r, Ok(ArgAction::Run));
    assert_eq!(o.problem, b"p.cnf".to_vec());
    assert_eq!(o.assign, Some(b"ans.txt".to_vec()));
    assert!(!o.no_color);
}

#[test]
fn long_forms_and_flags() {
    let mut o = TargetOpts::default();
    let r = o.inject_from_args(&argv(&["--no-color", "--assign", "x", "p.cnf"]), true);
    assert_eq!(r, Ok(ArgAction::Run));
    assert!(o.no_color);
    assert_eq!(o.assign, Some(b"x".to_vec()));
    let mut o = TargetOpts::default();
    assert_eq!(o.inject_from_args(&argv(&["-C", "p.cnf"]), true), Ok(ArgAction::Run));
    assert!(o.no_color);
}

#[test]
fn help_before_version() {
    let mut o = TargetOpts::default();
    assert_eq!(o.inject_from_args(&argv(&["-V", "-h"]), false), Ok(ArgAction::Help));
    let mut o = TargetOpts::default();
    assert_eq!(o.inject_from_args(&argv(&["--version"]), false), Ok(ArgAction::Version));
    assert_eq!(o.problem, Vec::<u8>::new());
}

#[test]
fn unknown_flags_are_passed_over() {
    let mut o = TargetOpts::default();
    assert_eq!(o.inject_from_args(&argv(&["--verbose", "-x", "p.cnf"]), true), Ok(ArgAction::Run));
    assert_eq!(o.problem, b"p.cnf".to_vec());
}

#[test]
fn option_without_value() {
    let mut o = TargetOpts::default();
    let r = o.inject_from_args(&argv(&["p.cnf", "-a"]), false);
    assert_eq!(r, Err(ArgError::InvalidArgument(b"p.cnf".to_vec())));
    let mut o = TargetOpts::default();
    let r = o.inject_from_args(&argv(&["-C", "-a"]), false);
    assert_eq!(r, Err(ArgError::MissingValue(b"-a".to_vec())));
    assert!(!o.no_color);
}

#[test]
fn stray_argument_is_refused() {
    let mut o = TargetOpts::default();
    let r = o.inject_from_args(&argv(&["q.cnf", "p.cnf"]), true);
    assert_eq!(r, Err(ArgError::InvalidArgument(b"q.cnf".to_vec())));
    let mut o = TargetOpts::default();
    let r = o.inject_from_args(&argv(&["p.cnf"]), false);
    assert_eq!(r, Err(ArgError::InvalidArgument(b"p.cnf".to_vec())));
}

#[test]
fn no_color_flag_gives_plain_reports() {
    let mut o = TargetOpts::default();
    assert_eq!(o.inject_from_args(&argv(&["-h", "--no-color", "-a", "ans", "p.cnf"]), true), Ok(ArgAction::Help));
    assert!(o.no_color);
    let mut o = TargetOpts::default();
    assert_eq!(o.inject_from_args(&argv(&["-C", "p.cnf"]), true), Ok(ArgAction::Run));
    for v in [Verdict::Valid, Verdict::Invalid(vec![1, -2]), Verdict::UnsatWithoutProof] {
        let out = render(&v, &o.problem, &o.assign, !o.no_color);
        assert!(!out.contains(&0x1B));
    }
}
