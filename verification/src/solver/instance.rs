//! SAT problem instance and solution representation.

use crate::expression::expression::{Assignment, Expression, VariableId};
use std::collections::HashMap;
use vstd::prelude::*;

verus! {

broadcast use vstd::std_specs::hash::group_hash_axioms;

/// An expression together with the names of its variables, by identifier
/// and by name.
#[derive(Debug, Clone)]
pub struct SATInstance {
    pub expression: Expression,
    pub var_to_str: HashMap<VariableId, String>,
    /// Every named variable once, with its name, in the order of the
    /// identifiers.
    pub str_to_var: Vec<(String, VariableId)>,
}

/// What a search found.
#[derive(Debug)]
pub enum SolverResult {
    /// The expression is satisfiable; the assignment satisfies it.
    Sat(Option<Assignment>),
    /// The expression is unsatisfiable.
    Unsat,
    /// The search ended without a verdict, for the given reason.
    Unknown(UnknownReason),
}

/// Why a search ended without a verdict.
#[derive(Debug, Clone, Copy, PartialEq, Eq, Structural)]
pub enum UnknownReason {
    /// The search spent its budget of decisions.
    DecisionBudgetExhausted,
}

/// What steers a search.
#[derive(Debug, Clone, Copy)]
pub struct SolverOptions {
    /// The seed of the stream of decisions; without one, a seed is drawn.
    pub seed: Option<u64>,
    /// Leaves pure-literal elimination out.
    pub disable_pure_literal: bool,
    /// The number of decisions that the search may make.
    pub max_decisions: Option<u64>,
}

/// Why a search was not begun.
#[derive(Debug, Clone, Copy, PartialEq, Eq, Structural)]
pub enum SolveError {
    /// The expression holds this variable, which lies outside the range of
    /// the variables that the instance names.
    VariableOutOfRange(VariableId),
}

impl Default for SolverOptions {
    fn default() -> (result: Self)
        ensures
            result.seed is None,
            !result.disable_pure_literal,
            result.max_decisions is None,
    {
        SolverOptions { seed: None, disable_pure_literal: false, max_decisions: None }
    }
}

/// The name table by name: every named variable once, each with its name,
/// in the order of the identifiers below `n`.
pub open spec fn names_listed(
    names: Map<VariableId, String>,
    listed: Seq<(String, VariableId)>,
    n: int,
) -> bool {
    &&& forall|k: int|
        0 <= k < listed.len() ==> (#[trigger] listed[k]).1 < n && names.contains_key(listed[k].1)
            && names[listed[k].1] == listed[k].0
    &&& forall|v: VariableId|
        v < n && #[trigger] names.contains_key(v) ==> exists|k: int|
            0 <= k < listed.len() && (#[trigger] listed[k]).1 == v
    &&& forall|j: int, k: int|
        0 <= j < k < listed.len() ==> (#[trigger] listed[j]).1 < (#[trigger] listed[k]).1
}

impl SATInstance {
    /// The two name tables hold the same pairs.
    pub open spec fn wf(&self) -> bool {
        names_listed(self.var_to_str@, self.str_to_var@, 65536)
    }

    /// The number of variables that the instance names; the identifiers
    /// below it are the range of the instance.
    pub open spec fn declared(&self) -> nat {
        self.var_to_str@.len()
    }

    /// The instance of an expression and the names of its variables; the
    /// names are listed by identifier beside the table.
    pub fn new(expression: Expression, var_to_str: HashMap<VariableId, String>) -> (result: Self)
        ensures
            result.expression == expression,
            result.var_to_str == var_to_str,
            result.wf(),
    {
        let mut str_to_var: Vec<(String, VariableId)> = Vec::new();
        let mut id: u32 = 0;
        while id <= u16::MAX as u32
            invariant
                id <= 65536,
                names_listed(var_to_str@, str_to_var@, id as int),
            decreases 65536 - id,
        {
            let variable = id as VariableId;
            let ghost before = str_to_var@;
            match var_to_str.get(&variable) {
                Some(name) => {
                    str_to_var.push((name.clone(), variable));
                    proof {
                        let listed = str_to_var@;
                        assert(listed[before.len() as int].1 == variable);
                        assert forall|v: VariableId|
                            v < id + 1 && #[trigger] var_to_str@.contains_key(v) implies exists|
                            k: int,
                        |
                            0 <= k < listed.len() && (#[trigger] listed[k]).1 == v by {
                            if v != variable {
                                let k = choose|k: int|
                                    0 <= k < before.len() && (#[trigger] before[k]).1 == v;
                                assert(listed[k].1 == v);
                            }
                        }
                    }
                },
                None => {},
            }
            id += 1;
        }
        Self { expression, var_to_str, str_to_var }
    }

    /// The identifier of the variable of the given name, if the instance
    /// names such a variable.
    pub fn variable_named(&self, name: &String) -> (result: Option<VariableId>)
        requires
            self.wf(),
        ensures
            result matches Some(v) ==> self.var_to_str@.contains_key(v) && self.var_to_str@[v]@
                == name@,
            result is None ==> forall|v: VariableId| #[trigger]
                self.var_to_str@.contains_key(v) ==> self.var_to_str@[v]@ != name@,
    {
        let mut k: usize = 0;
        while k < self.str_to_var.len()
            invariant
                k <= self.str_to_var.len(),
                self.wf(),
                forall|j: int| 0 <= j < k ==> (#[trigger] self.str_to_var@[j]).0@ != name@,
            decreases self.str_to_var.len() - k,
        {
            if self.str_to_var[k].0 == *name {
                return Some(self.str_to_var[k].1);
            }
            k += 1;
        }
        proof {
            assert forall|v: VariableId| #[trigger]
                self.var_to_str@.contains_key(v) implies self.var_to_str@[v]@ != name@ by {
                let j = choose|j: int|
                    0 <= j < self.str_to_var@.len() && (#[trigger] self.str_to_var@[j]).1 == v;
                assert(self.str_to_var@[j].0@ != name@);
            }
        }
        None
    }
}

} // verus!
