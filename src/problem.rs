//! A CNF problem, the binding of an assignment to its variables, and validation.
use vstd::prelude::*;

verus! {

/// The variable that a literal names.
pub open spec fn var_of(l: int) -> int {
    if l < 0 { -l } else { l }
}

/// A literal is usable in a problem over `n` variables.
pub open spec fn lit_in_range(l: int, n: int) -> bool {
    l != 0 && var_of(l) <= n
}

/// `vals[v]` is the value of variable `v` (index 0 is unused); a literal is true when
/// its variable is assigned its polarity.
pub open spec fn lit_true(vals: Seq<Option<bool>>, l: int) -> bool {
    0 <= var_of(l) < vals.len() && vals[var_of(l)] == Some(l > 0)
}

/// A clause is satisfied when at least one of its literals is true.
pub open spec fn clause_satisfied(vals: Seq<Option<bool>>, c: Seq<i32>) -> bool {
    exists|k: int| 0 <= k < c.len() && lit_true(vals, #[trigger] c[k] as int)
}

/// Clause `i` is the first clause that `vals` does not satisfy.
pub open spec fn is_first_unsatisfied(vals: Seq<Option<bool>>, cls: Seq<Seq<i32>>, i: int) -> bool {
    &&& 0 <= i < cls.len()
    &&& !clause_satisfied(vals, cls[i])
    &&& forall|j: int| 0 <= j < i ==> clause_satisfied(vals, #[trigger] cls[j])
}

/// The first clause that an assignment leaves unsatisfied is one clause: any two
/// indices that both meet the description are equal.
pub proof fn lemma_first_unsatisfied_unique(vals: Seq<Option<bool>>, cls: Seq<Seq<i32>>, i: int, j: int)
    requires
        is_first_unsatisfied(vals, cls, i),
        is_first_unsatisfied(vals, cls, j),
    ensures
        i == j,
{
    if i < j {
        assert(clause_satisfied(vals, cls[i]));
    } else if j < i {
        assert(clause_satisfied(vals, cls[j]));
    }
}

/// Every literal of every clause is in range.
pub open spec fn clauses_in_range(cls: Seq<Seq<i32>>, n: int) -> bool {
    forall|i: int, k: int|
        0 <= i < cls.len() && 0 <= k < cls[i].len() ==> lit_in_range(#[trigger] cls[i][k] as int, n)
}

/// The value that a sequence of literals gives variable `v`.
pub open spec fn value_from(lits: Seq<i32>, v: int) -> Option<bool> {
    if exists|i: int| 0 <= i < lits.len() && lits[i] as int == v {
        Some(true)
    } else if exists|i: int| 0 <= i < lits.len() && lits[i] as int == -v {
        Some(false)
    } else {
        None
    }
}

/// `l` is the first literal of the sequence that is out of range.
pub open spec fn first_out_of_range(lits: Seq<i32>, n: int, l: i32) -> bool {
    exists|i: int|
        0 <= i < lits.len() && #[trigger] lits[i] == l && !lit_in_range(l as int, n)
            && forall|j: int| 0 <= j < i ==> lit_in_range(#[trigger] lits[j] as int, n)
}

/// The assignment that a sequence of literals gives a problem over `n` variables.
pub open spec fn assigned(n: int, lits: Seq<i32>) -> Seq<Option<bool>> {
    Seq::new((n + 1) as nat, |v: int| if v == 0 { None } else { value_from(lits, v) })
}

/// Two literals of the sequence give one variable opposite values.
pub open spec fn self_conflicting(lits: Seq<i32>) -> bool {
    exists|i: int, j: int|
        0 <= i < lits.len() && 0 <= j < lits.len() && lits[i] as int == -(lits[j] as int)
}

/// A literal of the sequence falsifies a unit clause of the problem.
pub open spec fn unit_conflicting(cls: Seq<Seq<i32>>, lits: Seq<i32>) -> bool {
    exists|c: int, i: int|
        0 <= c < cls.len() && 0 <= i < lits.len() && cls[c].len() == 1
            && #[trigger] cls[c][0] as int == -(#[trigger] lits[i] as int)
}

/// Why a problem could not be built.
#[derive(Debug, Clone, PartialEq, Eq)]
pub enum ProblemError {
    /// The variable count does not fit a literal.
    TooManyVariables,
    /// A clause holds this literal, which is zero or names no variable of the problem.
    LiteralOutOfRange(i32),
}

/// Why an assignment could not be bound to a problem.
#[derive(Debug, Clone, PartialEq, Eq)]
pub enum BindError {
    /// The assignment holds this literal, which is zero or names no variable of the problem.
    LiteralOutOfRange(i32),
    /// The assignment gives a variable both values, or contradicts a unit clause.
    Conflict,
}

/// A CNF problem over the variables `1..=num_vars`, with the assignment bound to it.
pub struct Problem {
    num_vars: usize,
    clauses: Vec<Vec<i32>>,
    values: Vec<Option<bool>>,
}

impl Problem {
    pub closed spec fn num_vars_spec(&self) -> nat {
        self.num_vars as nat
    }

    pub closed spec fn clauses_spec(&self) -> Seq<Seq<i32>> {
        self.clauses@.map_values(|c: Vec<i32>| c@)
    }

    /// The bound assignment: entry `v` is the value of variable `v`.
    pub closed spec fn values_spec(&self) -> Seq<Option<bool>> {
        self.values@
    }

    pub closed spec fn wf(&self) -> bool {
        &&& self.num_vars < i32::MAX
        &&& self.values@.len() == self.num_vars + 1
        &&& self.values@[0] == None::<bool>
        &&& clauses_in_range(self.clauses_spec(), self.num_vars as int)
    }

    pub proof fn lemma_first_value_unassigned(&self)
        requires
            self.wf(),
        ensures
            self.values_spec()[0] == None::<bool>,
    {
    }

    pub proof fn lemma_values_len(&self)
        requires
            self.wf(),
        ensures
            self.values_spec().len() == self.num_vars_spec() + 1,
    {
    }

    /// Builds a problem over `num_vars` variables from its clauses, kept in order, with
    /// no variable assigned.
    pub fn new(num_vars: usize, clauses: Vec<Vec<i32>>) -> (r: Result<Problem, ProblemError>)
        ensures
            num_vars >= i32::MAX ==> r == Err::<Problem, ProblemError>(ProblemError::TooManyVariables),
            num_vars < i32::MAX ==> match r {
                Ok(p) => {
                    &&& clauses_in_range(clauses@.map_values(|c: Vec<i32>| c@), num_vars as int)
                    &&& p.wf()
                    &&& p.num_vars_spec() == num_vars
                    &&& p.clauses_spec() == clauses@.map_values(|c: Vec<i32>| c@)
                    &&& forall|v: int| 0 <= v <= num_vars ==> p.values_spec()[v] == None::<bool>
                },
                Err(ProblemError::LiteralOutOfRange(l)) => exists|i: int, k: int|
                    0 <= i < clauses@.len() && 0 <= k < clauses@[i]@.len()
                        && clauses@[i]@[k] == l && !lit_in_range(l as int, num_vars as int),
                Err(ProblemError::TooManyVariables) => false,
            },
    {
        if num_vars >= i32::MAX as usize {
            return Err(ProblemError::TooManyVariables);
        }
        let ghost cls = clauses@.map_values(|c: Vec<i32>| c@);
        let n: i32 = num_vars as i32;
        let mut i: usize = 0;
        while i < clauses.len()
            invariant
                0 <= n < i32::MAX,
                n == num_vars,
                i <= clauses@.len(),
                cls == clauses@.map_values(|c: Vec<i32>| c@),
                forall|a: int, k: int|
                    0 <= a < i && 0 <= k < cls[a].len() ==> lit_in_range(#[trigger] cls[a][k] as int, n as int),
            decreases clauses@.len() - i,
        {
            let c = &clauses[i];
            assert(c@ == cls[i as int]);
            let mut k: usize = 0;
            while k < c.len()
                invariant
                    0 <= n < i32::MAX,
                    i < clauses@.len(),
                    cls.len() == clauses@.len(),
                    n == num_vars,
                    c@ == cls[i as int],
                    c@ == clauses@[i as int]@,
                    k <= c@.len(),
                    forall|b: int| 0 <= b < k ==> lit_in_range(#[trigger] c@[b] as int, n as int),
                decreases c@.len() - k,
            {
                let l = c[k];
                if l == 0 || l < -n || l > n {
                    return Err(ProblemError::LiteralOutOfRange(l));
                }
                k += 1;
            }
            i += 1;
        }
        let mut values: Vec<Option<bool>> = Vec::new();
        let mut v: usize = 0;
        while v <= num_vars
            invariant
                num_vars < i32::MAX,
                v <= num_vars + 1,
                values@.len() == v,
                forall|x: int| 0 <= x < v ==> values@[x] == None::<bool>,
            decreases num_vars + 1 - v,
        {
            values.push(None);
            v += 1;
        }
        Ok(Problem { num_vars, clauses, values })
    }

    pub fn num_vars(&self) -> (r: usize)
        ensures
            r == self.num_vars_spec(),
    {
        self.num_vars
    }

    pub fn clauses(&self) -> (r: &Vec<Vec<i32>>)
        ensures
            r@.map_values(|c: Vec<i32>| c@) == self.clauses_spec(),
    {
        &self.clauses
    }

    /// Binds an assignment, given as literals, to the problem's variables, in place of
    /// any earlier one. A literal out of range is refused first; then an assignment that
    /// gives a variable both values, or falsifies a unit clause, is a conflict. On
    /// failure the problem is left as it was.
    pub fn inject_assignment(&mut self, lits: &Vec<i32>) -> (r: Result<(), BindError>)
        requires
            old(self).wf(),
        ensures
            final(self).wf(),
            final(self).num_vars_spec() == old(self).num_vars_spec(),
            final(self).clauses_spec() == old(self).clauses_spec(),
            match r {
                Ok(()) => {
                    &&& forall|i: int| 0 <= i < lits@.len()
                        ==> lit_in_range(#[trigger] lits@[i] as int, old(self).num_vars_spec() as int)
                    &&& !self_conflicting(lits@)
                    &&& !unit_conflicting(old(self).clauses_spec(), lits@)
                    &&& forall|v: int| 1 <= v <= old(self).num_vars_spec()
                        ==> #[trigger] final(self).values_spec()[v] == value_from(lits@, v)
                },
                Err(BindError::LiteralOutOfRange(l)) => {
                    &&& *final(self) == *old(self)
                    &&& first_out_of_range(lits@, old(self).num_vars_spec() as int, l)
                },
                Err(BindError::Conflict) => {
                    &&& *final(self) == *old(self)
                    &&& forall|i: int| 0 <= i < lits@.len()
                        ==> lit_in_range(#[trigger] lits@[i] as int, old(self).num_vars_spec() as int)
                    &&& self_conflicting(lits@) || unit_conflicting(old(self).clauses_spec(), lits@)
                },
            },
    {
        let n: i32 = self.num_vars as i32;
        let mut i: usize = 0;
        while i < lits.len()
            invariant
                0 <= n < i32::MAX,
                n == self.num_vars,
                *self == *old(self),
                old(self).wf(),
                i <= lits@.len(),
                forall|a: int| 0 <= a < i ==> lit_in_range(#[trigger] lits@[a] as int, n as int),
            decreases lits@.len() - i,
        {
            let l = lits[i];
            if l == 0 || l < -n || l > n {
                assert(lits@[i as int] == l);
                return Err(BindError::LiteralOutOfRange(l));
            }
            i += 1;
        }
        let mut values: Vec<Option<bool>> = Vec::new();
        let mut v: usize = 0;
        while v <= self.num_vars
            invariant
                self.num_vars < i32::MAX,
                *self == *old(self),
                old(self).wf(),
                v <= self.num_vars + 1,
                values@.len() == v,
                forall|x: int| 0 <= x < v ==> values@[x] == None::<bool>,
            decreases self.num_vars + 1 - v,
        {
            values.push(None);
            v += 1;
        }
        let mut j: usize = 0;
        while j < lits.len()
            invariant
                0 <= n < i32::MAX,
                n == self.num_vars,
                *self == *old(self),
                old(self).wf(),
                j <= lits@.len(),
                values@.len() == n + 1,
                values@[0] == None::<bool>,
                forall|a: int| 0 <= a < lits@.len() ==> lit_in_range(#[trigger] lits@[a] as int, n as int),
                forall|a: int, b: int| 0 <= a < j && 0 <= b < j ==> lits@[a] as int != -(lits@[b] as int),
                forall|v: int| 1 <= v <= n ==> #[trigger] values@[v] == value_from(lits@.take(j as int), v),
            decreases lits@.len() - j,
        {
            let l = lits[j];
            let x: usize = if l < 0 { (-l) as usize } else { l as usize };
            let want = l > 0;
            assert(lits@.take(j as int + 1) == lits@.take(j as int).push(l));
            match values[x] {
                Some(b) => {
                    if b != want {
                        proof {
                            let t = lits@.take(j as int);
                            if b {
                                let a = choose|a: int| 0 <= a < t.len() && t[a] as int == x as int;
                                assert(lits@[a] as int == -(lits@[j as int] as int));
                            } else {
                                let a = choose|a: int| 0 <= a < t.len() && t[a] as int == -(x as int);
                                assert(lits@[a] as int == -(lits@[j as int] as int));
                            }
                        }
                        return Err(BindError::Conflict);
                    }
                },
                None => {},
            }
            proof {
                let t = lits@.take(j as int);
                let t1 = lits@.take(j as int + 1);
                assert forall|a: int, b: int| 0 <= a < j + 1 && 0 <= b < j + 1 implies lits@[a] as int != -(lits@[b] as int) by {
                    if a == j && b < j {
                        assert(t[b] == lits@[b]);
                        if lits@[a] as int == -(lits@[b] as int) {
                            if want {
                                assert(t[b] as int == -(x as int));
                            } else {
                                assert(t[b] as int == x as int);
                            }
                        }
                    } else if b == j && a < j {
                        assert(t[a] == lits@[a]);
                        if lits@[a] as int == -(lits@[b] as int) {
                            if want {
                                assert(t[a] as int == -(x as int));
                            } else {
                                assert(t[a] as int == x as int);
                            }
                        }
                    }
                }
                assert forall|v: int| 1 <= v <= n && v != x implies value_from(t1, v) == value_from(t, v) by {
                    assert forall|a: int| 0 <= a < t1.len() && (t1[a] as int == v || t1[a] as int == -v) implies a < t.len() && t[a] == t1[a] by {}
                    if exists|a: int| 0 <= a < t.len() && t[a] as int == v {
                        let a = choose|a: int| 0 <= a < t.len() && t[a] as int == v;
                        assert(t1[a] == t[a]);
                    }
                    if exists|a: int| 0 <= a < t.len() && t[a] as int == -v {
                        let a = choose|a: int| 0 <= a < t.len() && t[a] as int == -v;
                        assert(t1[a] == t[a]);
                    }
                }
                assert(t1[j as int] == l);
                if want {
                    assert(value_from(t1, x as int) == Some(true));
                } else {
                    assert forall|a: int| 0 <= a < t1.len() implies t1[a] as int != x as int by {
                        if a < j {
                            assert(t1[a] == t[a]);
                            assert(t1[a] as int != -(l as int));
                        }
                    }
                    assert(value_from(t1, x as int) == Some(false));
                }
            }
            values.set(x, Some(want));
            j += 1;
        }
        assert(lits@.take(lits@.len() as int) == lits@);
        let ghost cls = self.clauses_spec();
        let mut c: usize = 0;
        while c < self.clauses.len()
            invariant
                0 <= n < i32::MAX,
                n == self.num_vars,
                *self == *old(self),
                old(self).wf(),
                self.wf(),
                !self_conflicting(lits@),
                forall|a: int| 0 <= a < lits@.len() ==> lit_in_range(#[trigger] lits@[a] as int, n as int),
                cls == self.clauses_spec(),
                c <= cls.len(),
                values@.len() == n + 1,
                forall|v: int| 1 <= v <= n ==> #[trigger] values@[v] == value_from(lits@, v),
                forall|a: int, i: int| 0 <= a < c && 0 <= i < lits@.len() && cls[a].len() == 1
                    ==> #[trigger] cls[a][0] as int != -(#[trigger] lits@[i] as int),
            decreases cls.len() - c,
        {
            let cl = &self.clauses[c];
            assert(cl@ == cls[c as int]);
            if cl.len() == 1 {
                let u = cl[0];
                assert(lit_in_range(cls[c as int][0] as int, n as int));
                let x: usize = if u < 0 { (-u) as usize } else { u as usize };
                if values[x] == Some(u < 0) {
                    proof {
                        if u < 0 {
                            let a = choose|a: int| 0 <= a < lits@.len() && lits@[a] as int == x as int;
                            assert(cls[c as int][0] as int == -(lits@[a] as int));
                        } else {
                            assert(!exists|a: int| 0 <= a < lits@.len() && lits@[a] as int == x as int);
                            let a = choose|a: int| 0 <= a < lits@.len() && lits@[a] as int == -(x as int);
                            assert(cls[c as int][0] as int == -(lits@[a] as int));
                        }
                    }
                    return Err(BindError::Conflict);
                }
                proof {
                    assert forall|i: int| 0 <= i < lits@.len() implies cls[c as int][0] as int != -(lits@[i] as int) by {
                        if cls[c as int][0] as int == -(lits@[i] as int) {
                            if u < 0 {
                                assert(values@[x as int] == Some(true));
                            } else {
                                assert(lits@[i] as int == -(x as int));
                                if values@[x as int] == Some(true) {
                                    let a = choose|a: int| 0 <= a < lits@.len() && lits@[a] as int == x as int;
                                    assert(lits@[a] as int == -(lits@[i] as int));
                                }
                            }
                        }
                    }
                }
            }
            c += 1;
        }
        self.values = values;
        Ok(())
    }

    /// Checks the clauses in order; `None` when the bound assignment satisfies all of
    /// them, otherwise the first clause that it does not satisfy.
    pub fn validate(&self) -> (r: Option<Vec<i32>>)
        requires
            self.wf(),
        ensures
            r is None <==> forall|i: int| 0 <= i < self.clauses_spec().len()
                ==> clause_satisfied(self.values_spec(), #[trigger] self.clauses_spec()[i]),
            r matches Some(c) ==> exists|i: int|
                is_first_unsatisfied(self.values_spec(), self.clauses_spec(), i)
                    && #[trigger] self.clauses_spec()[i] == c@,
    {
        let ghost cls = self.clauses_spec();
        let ghost vals = self.values_spec();
        let mut i: usize = 0;
        while i < self.clauses.len()
            invariant
                self.wf(),
                cls == self.clauses_spec(),
                vals == self.values_spec(),
                i <= cls.len(),
                forall|j: int| 0 <= j < i ==> clause_satisfied(vals, #[trigger] cls[j]),
            decreases cls.len() - i,
        {
            let c = &self.clauses[i];
            assert(c@ == cls[i as int]);
            let mut k: usize = 0;
            let mut sat = false;
            while k < c.len() && !sat
                invariant
                    self.wf(),
                    cls == self.clauses_spec(),
                    vals == self.values_spec(),
                    i < cls.len(),
                    c@ == cls[i as int],
                    k <= c@.len(),
                    sat ==> clause_satisfied(vals, c@),
                    !sat ==> forall|b: int| 0 <= b < k ==> !lit_true(vals, #[trigger] c@[b] as int),
                decreases c@.len() - k,
            {
                let l = c[k];
                assert(clauses_in_range(cls, self.num_vars as int));
                assert(lit_in_range(cls[i as int][k as int] as int, self.num_vars as int));
                let x: usize = if l < 0 { (-l) as usize } else { l as usize };
                if self.values[x] == Some(l > 0) {
                    sat = true;
                    assert(lit_true(vals, c@[k as int] as int));
                }
                k += 1;
            }
            if !sat {
                return Some(c.clone());
            }
            i += 1;
        }
        None
    }
}

} // verus!
