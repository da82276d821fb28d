//! A model checker for DIMACS CNF problems: it reads a candidate assignment in the
//! DIMACS solution format, binds it to a problem and reports the first clause that
//! the assignment leaves unsatisfied.
pub mod assignment;
pub mod checker;
pub mod cnf;
pub mod decimal;
pub mod options;
pub mod problem;
pub mod report;
