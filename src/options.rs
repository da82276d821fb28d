//! The command line of the checker: its flags, its option and the problem file.
use crate::checker::Verdict;
use crate::report::{append, escape_free, lemma_plain_report_escape_free, message};
use vstd::prelude::*;

verus! {

/// `--no-color`
pub open spec fn no_color_long() -> Seq<u8> {
    seq![45u8, 45u8, 110u8, 111u8, 45u8, 99u8, 111u8, 108u8, 111u8, 114u8]
}

/// `-C`
pub open spec fn no_color_short() -> Seq<u8> {
    seq![45u8, 67u8]
}

/// `--help`
pub open spec fn help_long() -> Seq<u8> {
    seq![45u8, 45u8, 104u8, 101u8, 108u8, 112u8]
}

/// `-h`
pub open spec fn help_short() -> Seq<u8> {
    seq![45u8, 104u8]
}

/// `--version`
pub open spec fn version_long() -> Seq<u8> {
    seq![45u8, 45u8, 118u8, 101u8, 114u8, 115u8, 105u8, 111u8, 110u8]
}

/// `-V`
pub open spec fn version_short() -> Seq<u8> {
    seq![45u8, 86u8]
}

/// `--assign`
pub open spec fn assign_long() -> Seq<u8> {
    seq![45u8, 45u8, 97u8, 115u8, 115u8, 105u8, 103u8, 110u8]
}

/// `-a`
pub open spec fn assign_short() -> Seq<u8> {
    seq![45u8, 97u8]
}

/// What the arguments read so far have set.
pub struct ArgState {
    pub no_color: bool,
    pub assign: Option<Seq<u8>>,
    pub help: bool,
    pub version: bool,
}

/// Where the reading of the arguments ends.
pub enum ArgOutcome {
    Parsed(ArgState),
    /// This option came last, without its value.
    MissingValue(Seq<u8>),
    /// This argument is neither a flag nor the problem file.
    Invalid(Seq<u8>),
}

/// Reads the arguments from index `i` on. `-C`, `-h`, `-V` and their long forms set a
/// flag; `-a` or `--assign` takes the next argument as the assignment file; other
/// arguments that start with `-` are passed over; any other argument must be the
/// last one, naming a problem file that exists.
pub open spec fn scan_args(args: Seq<Seq<u8>>, i: int, last_exists: bool, st: ArgState) -> ArgOutcome
    decreases args.len() - i,
{
    if i < 0 || i >= args.len() {
        ArgOutcome::Parsed(st)
    } else {
        let a = args[i];
        if a == no_color_long() || a == no_color_short() {
            scan_args(args, i + 1, last_exists, ArgState { no_color: true, assign: st.assign, help: st.help, version: st.version })
        } else if a == help_long() || a == help_short() {
            scan_args(args, i + 1, last_exists, ArgState { no_color: st.no_color, assign: st.assign, help: true, version: st.version })
        } else if a == version_long() || a == version_short() {
            scan_args(args, i + 1, last_exists, ArgState { no_color: st.no_color, assign: st.assign, help: st.help, version: true })
        } else if a == assign_long() || a == assign_short() {
            if i + 1 < args.len() {
                scan_args(args, i + 2, last_exists, ArgState { no_color: st.no_color, assign: Some(args[i + 1]), help: st.help, version: st.version })
            } else {
                ArgOutcome::MissingValue(a)
            }
        } else if a.len() > 0 && a[0] == 45u8 {
            scan_args(args, i + 1, last_exists, st)
        } else if last_exists && a == args.last() {
            scan_args(args, i + 1, last_exists, st)
        } else {
            ArgOutcome::Invalid(a)
        }
    }
}

/// An argument that takes the next one as its value.
pub open spec fn is_assign_option(a: Seq<u8>) -> bool {
    a == assign_long() || a == assign_short()
}

proof fn lemma_no_color_kept(args: Seq<Seq<u8>>, k: int, last_exists: bool, st: ArgState)
    requires
        st.no_color,
    ensures
        scan_args(args, k, last_exists, st) matches ArgOutcome::Parsed(f) ==> f.no_color,
    decreases args.len() - k,
{
    if 0 <= k < args.len() {
        let a = args[k];
        lemma_no_color_kept(args, k + 1, last_exists, ArgState { no_color: true, assign: st.assign, help: st.help, version: st.version });
        lemma_no_color_kept(args, k + 1, last_exists, ArgState { no_color: st.no_color, assign: st.assign, help: true, version: st.version });
        lemma_no_color_kept(args, k + 1, last_exists, ArgState { no_color: st.no_color, assign: st.assign, help: st.help, version: true });
        lemma_no_color_kept(args, k + 1, last_exists, st);
        if k + 1 < args.len() {
            lemma_no_color_kept(args, k + 2, last_exists, ArgState { no_color: st.no_color, assign: Some(args[k + 1]), help: st.help, version: st.version });
        }
    }
}

proof fn lemma_no_color_reached(args: Seq<Seq<u8>>, k: int, i: int, last_exists: bool, st: ArgState)
    requires
        0 <= k <= i < args.len(),
        args[i] == no_color_long() || args[i] == no_color_short(),
        forall|j: int| 0 <= j < i ==> !is_assign_option(#[trigger] args[j]),
    ensures
        scan_args(args, k, last_exists, st) matches ArgOutcome::Parsed(f) ==> f.no_color,
    decreases i - k,
{
    let a = args[k];
    if k == i {
        lemma_no_color_kept(args, k + 1, last_exists, ArgState { no_color: true, assign: st.assign, help: st.help, version: st.version });
    } else {
        assert(!is_assign_option(args[k]));
        lemma_no_color_reached(args, k + 1, i, last_exists, ArgState { no_color: true, assign: st.assign, help: st.help, version: st.version });
        lemma_no_color_reached(args, k + 1, i, last_exists, ArgState { no_color: st.no_color, assign: st.assign, help: true, version: st.version });
        lemma_no_color_reached(args, k + 1, i, last_exists, ArgState { no_color: st.no_color, assign: st.assign, help: st.help, version: true });
        lemma_no_color_reached(args, k + 1, i, last_exists, st);
    }
}

/// With `-C` or `--no-color` among the arguments (not as the value of `-a`), the
/// options read ask for no color, and the report printed with them holds no escape
/// byte, so no ANSI SGR sequence, unless a name handed in holds one.
pub proof fn lemma_no_color_report(
    args: Seq<Seq<u8>>,
    i: int,
    last_exists: bool,
    start: TargetOpts,
    v: Verdict,
    problem: Seq<u8>,
    found_in: Option<Vec<u8>>,
)
    requires
        0 <= i < args.len(),
        args[i] == no_color_long() || args[i] == no_color_short(),
        forall|j: int| 0 <= j < i ==> !is_assign_option(#[trigger] args[j]),
        scan_args(args, 0, last_exists, start_state(start)) is Parsed,
        escape_free(problem),
        found_in matches Some(p) ==> escape_free(p@),
    ensures
        ({
            let st = scan_args(args, 0, last_exists, start_state(start))->Parsed_0;
            st.no_color && escape_free(message(v, problem, found_in, !st.no_color))
        }),
{
    lemma_no_color_reached(args, 0, i, last_exists, start_state(start));
    lemma_plain_report_escape_free(v, problem, found_in);
}

/// What the command line asks for.
#[derive(Debug, Clone, Copy, PartialEq, Eq)]
pub enum ArgAction {
    /// Check the problem.
    Run,
    /// Print the help text.
    Help,
    /// Print the version.
    Version,
}

/// Why the command line was refused.
#[derive(Debug, Clone, PartialEq, Eq)]
pub enum ArgError {
    /// This option came last, without its value.
    MissingValue(Vec<u8>),
    /// This argument is neither a flag nor the problem file.
    InvalidArgument(Vec<u8>),
}

/// The options of a run.
#[derive(Debug, Clone, PartialEq, Eq)]
pub struct TargetOpts {
    /// The file that holds the assignment.
    pub assign: Option<Vec<u8>>,
    /// The CNF file.
    pub problem: Vec<u8>,
    /// No ANSI colors in the report.
    pub no_color: bool,
}

pub open spec fn arg_views(args: Seq<Vec<u8>>) -> Seq<Seq<u8>> {
    args.map_values(|a: Vec<u8>| a@)
}

pub open spec fn opt_view(o: Option<Vec<u8>>) -> Option<Seq<u8>> {
    match o {
        Some(v) => Some(v@),
        None => None,
    }
}

pub open spec fn start_state(o: TargetOpts) -> ArgState {
    ArgState { no_color: o.no_color, assign: opt_view(o.assign), help: false, version: false }
}

impl Default for TargetOpts {
    fn default() -> (r: TargetOpts)
        ensures
            r.assign is None,
            r.problem@.len() == 0,
            !r.no_color,
    {
        TargetOpts { assign: None, problem: Vec::new(), no_color: false }
    }
}

fn same_bytes(a: &Vec<u8>, b: &Vec<u8>) -> (r: bool)
    ensures
        r == (a@ == b@),
{
    if a.len() != b.len() {
        return false;
    }
    let mut i: usize = 0;
    while i < a.len()
        invariant
            a@.len() == b@.len(),
            i <= a@.len(),
            forall|j: int| 0 <= j < i ==> a@[j] == b@[j],
        decreases a@.len() - i,
    {
        if a[i] != b[i] {
            return false;
        }
        i += 1;
    }
    assert(a@ == b@);
    true
}

fn copy_bytes(a: &Vec<u8>) -> (r: Vec<u8>)
    ensures
        r@ == a@,
{
    let mut out: Vec<u8> = Vec::new();
    append(&mut out, a);
    assert(Seq::<u8>::empty() + a@ == a@);
    out
}

impl TargetOpts {
    /// Reads the command-line arguments (without the program's name). `last_exists`
    /// tells whether the last argument names an existing file: it is then the problem.
    /// On an error the options stay as they were.
    pub fn inject_from_args(&mut self, args: &Vec<Vec<u8>>, last_exists: bool) -> (r: Result<ArgAction, ArgError>)
        ensures
            match scan_args(arg_views(args@), 0, last_exists, start_state(*old(self))) {
                ArgOutcome::Parsed(st) => {
                    &&& r == Ok::<ArgAction, ArgError>(
                        if st.help { ArgAction::Help } else if st.version { ArgAction::Version } else { ArgAction::Run })
                    &&& final(self).no_color == st.no_color
                    &&& opt_view(final(self).assign) == st.assign
                    &&& final(self).problem@ == if last_exists && args@.len() > 0 {
                        args@.last()@
                    } else {
                        old(self).problem@
                    }
                },
                ArgOutcome::MissingValue(a) => *final(self) == *old(self) && (r matches Err(ArgError::MissingValue(e)) && e@ == a),
                ArgOutcome::Invalid(a) => *final(self) == *old(self) && (r matches Err(ArgError::InvalidArgument(e)) && e@ == a),
            },
    {
        let ghost xs = arg_views(args@);
        let ghost start = start_state(*self);
        let ncl: Vec<u8> = vec![45u8, 45u8, 110u8, 111u8, 45u8, 99u8, 111u8, 108u8, 111u8, 114u8];
        let ncs: Vec<u8> = vec![45u8, 67u8];
        let hl: Vec<u8> = vec![45u8, 45u8, 104u8, 101u8, 108u8, 112u8];
        let hs: Vec<u8> = vec![45u8, 104u8];
        let vl: Vec<u8> = vec![45u8, 45u8, 118u8, 101u8, 114u8, 115u8, 105u8, 111u8, 110u8];
        let vs: Vec<u8> = vec![45u8, 86u8];
        let al: Vec<u8> = vec![45u8, 45u8, 97u8, 115u8, 115u8, 105u8, 103u8, 110u8];
        let as_: Vec<u8> = vec![45u8, 97u8];
        assert(ncl@ == no_color_long() && ncs@ == no_color_short() && hl@ == help_long() && hs@ == help_short());
        assert(vl@ == version_long() && vs@ == version_short() && al@ == assign_long() && as_@ == assign_short());
        let mut no_color = self.no_color;
        let mut assign: Option<Vec<u8>> = match &self.assign {
            Some(p) => Some(copy_bytes(p)),
            None => None,
        };
        let mut help = false;
        let mut version = false;
        let n = args.len();
        let mut i: usize = 0;
        while i < n
            invariant
                n == args@.len(),
                xs == arg_views(args@),
                i <= n + 1,
                ncl@ == no_color_long() && ncs@ == no_color_short() && hl@ == help_long() && hs@ == help_short(),
                vl@ == version_long() && vs@ == version_short() && al@ == assign_long() && as_@ == assign_short(),
                *self == *old(self),
                start == start_state(*old(self)),
                scan_args(xs, 0, last_exists, start) == scan_args(xs, i as int, last_exists,
                    ArgState { no_color, assign: opt_view(assign), help, version }),
            decreases n + 1 - i,
        {
            let a = &args[i];
            assert(a@ == xs[i as int]);
            if same_bytes(a, &ncl) || same_bytes(a, &ncs) {
                no_color = true;
                i += 1;
            } else if same_bytes(a, &hl) || same_bytes(a, &hs) {
                help = true;
                i += 1;
            } else if same_bytes(a, &vl) || same_bytes(a, &vs) {
                version = true;
                i += 1;
            } else if same_bytes(a, &al) || same_bytes(a, &as_) {
                if i + 1 < n {
                    assert(args@[i + 1]@ == xs[i + 1]);
                    assign = Some(copy_bytes(&args[i + 1]));
                    i += 2;
                } else {
                    return Err(ArgError::MissingValue(copy_bytes(a)));
                }
            } else if a.len() > 0 && a[0] == 45u8 {
                i += 1;
            } else if last_exists && same_bytes(a, &args[n - 1]) {
                assert(args@[n - 1]@ == xs.last());
                i += 1;
            } else {
                proof {
                    if last_exists {
                        assert(args@[n - 1]@ == xs.last());
                    }
                }
                return Err(ArgError::InvalidArgument(copy_bytes(a)));
            }
        }
        if last_exists && n > 0 {
            self.problem = copy_bytes(&args[n - 1]);
        }
        self.no_color = no_color;
        self.assign = assign;
        if help {
            Ok(ArgAction::Help)
        } else if version {
            Ok(ArgAction::Version)
        } else {
            Ok(ArgAction::Run)
        }
    }
}

} // verus!
