//! The verdict on a candidate assignment for a problem.
use crate::assignment::AssignmentRead;
use crate::problem::{
    assigned, clause_satisfied, first_out_of_range, is_first_unsatisfied, lemma_first_unsatisfied_unique,
    lit_in_range, self_conflicting, unit_conflicting, BindError, Problem,
};
use vstd::prelude::*;

verus! {

/// What the checker concludes.
#[derive(Debug, Clone, PartialEq, Eq)]
pub enum Verdict {
    /// The assignment satisfies every clause.
    Valid,
    /// The assignment leaves this clause, the first such, unsatisfied.
    Invalid(Vec<i32>),
    /// The assignment contradicts itself or a unit clause, with no proof of unsatisfiability.
    UnsatWithoutProof,
    /// The solution stream claims that the problem is unsatisfiable.
    UnsatClaimed,
    /// The solution stream holds no assignment.
    NoInput,
}

/// Why no verdict could be reached.
#[derive(Debug, Clone, PartialEq, Eq)]
pub enum CheckError {
    /// The assignment holds this literal, the first that names no variable of the problem.
    LiteralOutOfRange(i32),
}

/// `r` is the verdict owed to the assignment `lits` on a problem over `n` variables
/// with clauses `cls`.
pub open spec fn literals_verdict(n: int, cls: Seq<Seq<i32>>, lits: Seq<i32>, r: Result<Verdict, CheckError>) -> bool {
    let in_range = !exists|l: i32| first_out_of_range(lits, n, l);
    let conflict = self_conflicting(lits) || unit_conflicting(cls, lits);
    match r {
        Err(CheckError::LiteralOutOfRange(l)) => first_out_of_range(lits, n, l),
        Ok(Verdict::UnsatWithoutProof) => in_range && conflict,
        Ok(Verdict::Valid) => in_range && !conflict && forall|i: int|
            0 <= i < cls.len() ==> clause_satisfied(assigned(n, lits), #[trigger] cls[i]),
        Ok(Verdict::Invalid(c)) => in_range && !conflict && exists|i: int|
            is_first_unsatisfied(assigned(n, lits), cls, i) && #[trigger] cls[i] == c@,
        Ok(_) => false,
    }
}

/// `r` is the verdict owed to what a solution stream held.
pub open spec fn read_verdict(n: int, cls: Seq<Seq<i32>>, read: AssignmentRead, r: Result<Verdict, CheckError>) -> bool {
    match read {
        AssignmentRead::NoAssignment => r == Ok::<Verdict, CheckError>(Verdict::NoInput),
        AssignmentRead::UnsatClaimed => r == Ok::<Verdict, CheckError>(Verdict::UnsatClaimed),
        AssignmentRead::Literals(lits) => literals_verdict(n, cls, lits@, r),
    }
}

/// Two results say the same: the same verdict, the same clause, the same literal.
pub open spec fn same_result(a: Result<Verdict, CheckError>, b: Result<Verdict, CheckError>) -> bool {
    match (a, b) {
        (Ok(Verdict::Invalid(c)), Ok(Verdict::Invalid(d))) => c@ == d@,
        (Ok(Verdict::Invalid(_)), _) => false,
        (_, Ok(Verdict::Invalid(_))) => false,
        _ => a == b,
    }
}

/// Checking is repeatable: any two results owed to one problem and one assignment are
/// the same verdict, with the same offending clause or literal.
pub proof fn lemma_verdict_repeatable(
    n: int,
    cls: Seq<Seq<i32>>,
    lits: Seq<i32>,
    r1: Result<Verdict, CheckError>,
    r2: Result<Verdict, CheckError>,
)
    requires
        literals_verdict(n, cls, lits, r1),
        literals_verdict(n, cls, lits, r2),
    ensures
        same_result(r1, r2),
{
    let vals = assigned(n, lits);
    match (r1, r2) {
        (Err(CheckError::LiteralOutOfRange(a)), Err(CheckError::LiteralOutOfRange(b))) => {
            let i = choose|i: int|
                0 <= i < lits.len() && #[trigger] lits[i] == a && !lit_in_range(a as int, n)
                    && forall|j: int| 0 <= j < i ==> lit_in_range(#[trigger] lits[j] as int, n);
            let k = choose|k: int|
                0 <= k < lits.len() && #[trigger] lits[k] == b && !lit_in_range(b as int, n)
                    && forall|j: int| 0 <= j < k ==> lit_in_range(#[trigger] lits[j] as int, n);
            if i < k {
                assert(lit_in_range(lits[i] as int, n));
            } else if k < i {
                assert(lit_in_range(lits[k] as int, n));
            }
        },
        (Ok(Verdict::Invalid(c)), Ok(Verdict::Invalid(d))) => {
            let i = choose|i: int| is_first_unsatisfied(vals, cls, i) && #[trigger] cls[i] == c@;
            let k = choose|k: int| is_first_unsatisfied(vals, cls, k) && #[trigger] cls[k] == d@;
            lemma_first_unsatisfied_unique(vals, cls, i, k);
        },
        (Ok(Verdict::Invalid(c)), Ok(Verdict::Valid)) => {
            let i = choose|i: int| is_first_unsatisfied(vals, cls, i) && #[trigger] cls[i] == c@;
        },
        (Ok(Verdict::Valid), Ok(Verdict::Invalid(c))) => {
            let i = choose|i: int| is_first_unsatisfied(vals, cls, i) && #[trigger] cls[i] == c@;
        },
        _ => {},
    }
}

/// Binds what a solution stream held to the problem and validates it.
pub fn check(problem: &mut Problem, read: &AssignmentRead) -> (r: Result<Verdict, CheckError>)
    requires
        old(problem).wf(),
    ensures
        final(problem).wf(),
        final(problem).num_vars_spec() == old(problem).num_vars_spec(),
        final(problem).clauses_spec() == old(problem).clauses_spec(),
        read_verdict(old(problem).num_vars_spec() as int, old(problem).clauses_spec(), *read, r),
{
    match read {
        AssignmentRead::NoAssignment => Ok(Verdict::NoInput),
        AssignmentRead::UnsatClaimed => Ok(Verdict::UnsatClaimed),
        AssignmentRead::Literals(lits) => {
            let ghost n = problem.num_vars_spec() as int;
            let ghost cls = problem.clauses_spec();
            match problem.inject_assignment(lits) {
                Err(BindError::LiteralOutOfRange(l)) => Err(CheckError::LiteralOutOfRange(l)),
                Err(BindError::Conflict) => {
                    assert(!exists|l: i32| first_out_of_range(lits@, n, l));
                    Ok(Verdict::UnsatWithoutProof)
                },
                Ok(()) => {
                    assert(!exists|l: i32| first_out_of_range(lits@, n, l));
                    assert(problem.values_spec() =~= assigned(n, lits@)) by {
                        assert forall|v: int| 0 <= v <= n implies problem.values_spec()[v] == assigned(n, lits@)[v] by {
                            if v == 0 {
                                problem.lemma_first_value_unassigned();
                            }
                        }
                        problem.lemma_values_len();
                    }
                    match problem.validate() {
                        None => Ok(Verdict::Valid),
                        Some(c) => Ok(Verdict::Invalid(c)),
                    }
                },
            }
        },
    }
}

} // verus!
