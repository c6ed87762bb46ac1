//! Formulas in conjunctive normal form.
use vstd::prelude::*;

verus! {

/// A CNF formula: variables are numbered from 1, a negative literal stands
/// for the negated variable.
pub struct CNF {
    /// Number of variables.
    pub var_count: usize,
    /// The clauses, each a list of literals.
    pub clauses: Vec<Vec<i64>>,
}

impl CNF {
    /// A formula over `vc` variables with no clauses.
    pub fn new(vc: usize) -> (f: Self)
        ensures
            f.var_count == vc,
            f.clauses@.len() == 0,
    {
        CNF { var_count: vc, clauses: Vec::new() }
    }

    /// Adds `clause`, whose literals must not name a variable beyond the
    /// variable count.
    pub fn add_clause(&mut self, clause: Vec<i64>)
        requires
            forall|i: int| 0 <= i < clause@.len() ==> #[trigger] clause@[i] <= old(self).var_count as i64,
        ensures
            final(self).var_count == old(self).var_count,
            final(self).clauses@ == old(self).clauses@.push(clause),
    {
        self.clauses.push(clause);
    }
}

} // verus!
