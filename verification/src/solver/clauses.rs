//! The clause database of the search: the clauses of a conjunctive normal
//! form, each with a flag that takes it out of consideration once an
//! assigned literal has made it true.

use crate::expression::expression::{Assignment, VariableId};
use crate::expression::normal::{disjunction_holds, Clause, Literal, CNF};
use vstd::prelude::*;

verus! {

broadcast use vstd::std_specs::hash::group_hash_axioms;

/// A clause of the search, disabled while it counts as satisfied.
#[derive(Debug)]
pub struct DpllClause {
    pub literals: Vec<Literal>,
    pub is_disabled: bool,
}

/// The clauses of the search.
#[derive(Debug)]
pub struct DpllCNF {
    pub clauses: Vec<DpllClause>,
}

/// The number of literals among the first `n` of `literals` whose variable
/// `m` leaves open.
pub open spec fn free_count_to(literals: Seq<Literal>, m: Map<VariableId, bool>, n: int) -> nat
    decreases n,
{
    if n <= 0 {
        0
    } else {
        free_count_to(literals, m, n - 1) + if literals[n - 1].is_free(m) {
            1nat
        } else {
            0nat
        }
    }
}

/// The number of literals whose variable `m` leaves open.
pub open spec fn free_count(literals: Seq<Literal>, m: Map<VariableId, bool>) -> nat {
    free_count_to(literals, m, literals.len() as int)
}

/// The indices below `n` of the clauses that are not disabled, in rising
/// order.
pub open spec fn enabled_below(clauses: Seq<(Seq<Literal>, bool)>, n: int) -> Seq<usize>
    decreases n,
{
    if n <= 0 {
        Seq::empty()
    } else if clauses[n - 1].1 {
        enabled_below(clauses, n - 1)
    } else {
        enabled_below(clauses, n - 1).push((n - 1) as usize)
    }
}

/// Whether `literals` holds one of the literals of `added`.
pub open spec fn holds_one_of(literals: Seq<Literal>, added: Seq<Literal>) -> bool {
    exists|k: int| 0 <= k < added.len() && literals.contains(#[trigger] added[k])
}

/// Whether `m` makes true a literal of `literals` other than `except`.
pub open spec fn other_holds(literals: Seq<Literal>, m: Map<VariableId, bool>, except: Literal) -> bool {
    exists|j: int|
        0 <= j < literals.len() && (#[trigger] literals[j]) != except && literals[j].holds(m)
}

impl View for DpllClause {
    type V = (Seq<Literal>, bool);

    open spec fn view(&self) -> (Seq<Literal>, bool) {
        (self.literals@, self.is_disabled)
    }
}

impl View for DpllCNF {
    type V = Seq<(Seq<Literal>, bool)>;

    open spec fn view(&self) -> Seq<(Seq<Literal>, bool)> {
        self.clauses@.map_values(|c: DpllClause| c@)
    }
}

impl DpllClause {
    /// A clause of the given literals, disabled or not.
    pub fn new(literals: Vec<Literal>, is_disabled: bool) -> (result: Self)
        ensures
            result.literals == literals,
            result.is_disabled == is_disabled,
    {
        Self { literals, is_disabled }
    }

    /// The number of literals whose variable the assignment leaves open.
    pub fn literal_count(&self, assignment: &Assignment) -> (count: usize)
        ensures
            count == free_count(self.literals@, assignment@),
    {
        let mut count: usize = 0;
        let mut i: usize = 0;
        while i < self.literals.len()
            invariant
                i <= self.literals.len(),
                count == free_count_to(self.literals@, assignment@, i as int),
                count <= i,
            decreases self.literals.len() - i,
        {
            if !assignment.values.contains_key(&self.literals[i].var_id) {
                count += 1;
            }
            i += 1;
        }
        count
    }

    /// Enabled, and without a literal that `m` leaves open or makes true.
    pub open spec fn is_empty_under(&self, m: Map<VariableId, bool>) -> bool {
        !self.is_disabled && free_count(self.literals@, m) == 0 && !disjunction_holds(
            self.literals@,
            m,
        )
    }

    /// Whether the assignment makes a literal other than `except` true.
    pub fn is_satisfied_beside(&self, assignment: &Assignment, except: Literal) -> (found: bool)
        ensures
            found == other_holds(self.literals@, assignment@, except),
    {
        let mut i: usize = 0;
        while i < self.literals.len()
            invariant
                i <= self.literals.len(),
                forall|j: int|
                    0 <= j < i ==> !((#[trigger] self.literals@[j]) != except
                        && self.literals@[j].holds(assignment@)),
            decreases self.literals.len() - i,
        {
            let literal = self.literals[i];
            if literal != except {
                match assignment.values.get(&literal.var_id) {
                    Some(value) => {
                        if *value == literal.value {
                            return true;
                        }
                    },
                    None => {},
                }
            }
            i += 1;
        }
        false
    }

    /// Whether the assignment makes one of the literals true.
    pub fn is_satisfied(&self, assignment: &Assignment) -> (found: bool)
        ensures
            found == disjunction_holds(self.literals@, assignment@),
    {
        let mut i: usize = 0;
        while i < self.literals.len()
            invariant
                i <= self.literals.len(),
                forall|j: int| 0 <= j < i ==> !(#[trigger] self.literals@[j]).holds(assignment@),
            decreases self.literals.len() - i,
        {
            let literal = self.literals[i];
            match assignment.values.get(&literal.var_id) {
                Some(value) => {
                    if *value == literal.value {
                        return true;
                    }
                },
                None => {},
            }
            i += 1;
        }
        false
    }
}

impl DpllCNF {
    /// The clauses without their flags.
    pub open spec fn formula(&self) -> Seq<Seq<Literal>> {
        self.clauses@.map_values(|c: DpllClause| c.literals@)
    }

    /// What the steps of the search read of the clauses: of an enabled
    /// clause its literals, of a disabled one none.
    pub open spec fn shown(&self) -> Seq<Seq<Literal>> {
        self.clauses@.map_values(
            |c: DpllClause|
                if c.is_disabled {
                    Seq::empty()
                } else {
                    c.literals@
                },
        )
    }

    /// Whether `l` occurs in an enabled clause.
    pub open spec fn occurs_enabled(&self, l: Literal) -> bool {
        exists|i: int, j: int|
            0 <= i < self.clauses.len() && 0 <= j < self.clauses[i].literals@.len()
                && !self.clauses[i].is_disabled && #[trigger] self.clauses[i].literals@[j] == l
    }

    /// Whether `l` is a pure literal: its variable is open under `m`, it
    /// occurs in an enabled clause, and its negation occurs in none.
    pub open spec fn pure_in(&self, m: Map<VariableId, bool>, l: Literal) -> bool {
        l.is_free(m) && self.occurs_enabled(l) && !self.occurs_enabled(l.negated())
    }

    /// No enabled clause holds a literal that `m` makes true.
    pub open spec fn sound_under(&self, m: Map<VariableId, bool>) -> bool {
        forall|i: int|
            0 <= i < self.clauses.len() && !(#[trigger] self.clauses[i]).is_disabled
                ==> !disjunction_holds(self.clauses[i].literals@, m)
    }

    /// Every clause is disabled exactly if `m` makes one of its literals
    /// true. So no enabled clause holds a satisfied literal, which is what
    /// the steps of the search read; and no disabled clause is without
    /// one, which is what lets backtracking set the flags back: taking a
    /// literal back enables the clauses that no other literal satisfies, and
    /// that gives the flags of before only if each disabled clause owed its
    /// flag to a true literal. The search sets the flags up so at its
    /// start, and every step keeps them so.
    pub open spec fn consistent_with(&self, m: Map<VariableId, bool>) -> bool {
        forall|i: int|
            0 <= i < self.clauses.len() ==> (#[trigger] self.clauses[i]).is_disabled
                == disjunction_holds(self.clauses[i].literals@, m)
    }

    /// A clause database of the given clauses.
    pub fn new(clauses: Vec<DpllClause>) -> (result: Self)
        ensures
            result.clauses == clauses,
    {
        Self { clauses }
    }

    /// The indices of the enabled clauses, in rising order.
    pub fn enabled_clauses(&self) -> (result: Vec<usize>)
        ensures
            result@ == enabled_below(self@, self.clauses.len() as int),
    {
        let mut result: Vec<usize> = Vec::new();
        let mut i: usize = 0;
        while i < self.clauses.len()
            invariant
                i <= self.clauses.len(),
                result@ == enabled_below(self@, i as int),
            decreases self.clauses.len() - i,
        {
            if !self.clauses[i].is_disabled {
                result.push(i);
            }
            i += 1;
        }
        result
    }

    /// Whether all clauses are disabled.
    pub fn has_no_clauses(&self) -> (none: bool)
        ensures
            none == forall|i: int|
                0 <= i < self.clauses.len() ==> (#[trigger] self.clauses[i]).is_disabled,
    {
        let mut i: usize = 0;
        while i < self.clauses.len()
            invariant
                i <= self.clauses.len(),
                forall|j: int| 0 <= j < i ==> (#[trigger] self.clauses[j]).is_disabled,
            decreases self.clauses.len() - i,
        {
            if !self.clauses[i].is_disabled {
                return false;
            }
            i += 1;
        }
        true
    }

    /// Whether some enabled clause has no literal left that the assignment
    /// leaves open or makes true, so that all its literals are false.
    pub fn has_empty_clause(&self, assignment: &Assignment) -> (found: bool)
        ensures
            found == exists|i: int|
                0 <= i < self.clauses.len() && (#[trigger] self.clauses[i]).is_empty_under(
                    assignment@,
                ),
    {
        let mut i: usize = 0;
        while i < self.clauses.len()
            invariant
                i <= self.clauses.len(),
                forall|j: int|
                    0 <= j < i ==> !(#[trigger] self.clauses[j]).is_empty_under(assignment@),
            decreases self.clauses.len() - i,
        {
            if !self.clauses[i].is_disabled && self.clauses[i].literal_count(assignment) == 0
                && !self.clauses[i].is_satisfied(assignment) {
                return true;
            }
            i += 1;
        }
        false
    }

    /// Disables every enabled clause that holds `literal`.
    pub fn disable(&mut self, literal: Literal)
        ensures
            final(self).clauses.len() == old(self).clauses.len(),
            final(self).formula() == old(self).formula(),
            forall|i: int|
                0 <= i < old(self).clauses.len() ==> (#[trigger] final(self).clauses[i]).literals
                    == old(self).clauses[i].literals && final(self).clauses[i].is_disabled == (old(
                    self,
                ).clauses[i].is_disabled || old(self).clauses[i].literals@.contains(literal)),
    {
        let mut i: usize = 0;
        while i < self.clauses.len()
            invariant
                i <= self.clauses.len(),
                self.clauses.len() == old(self).clauses.len(),
                forall|j: int|
                    0 <= j < self.clauses.len() ==> (#[trigger] self.clauses[j]).literals == old(
                        self,
                    ).clauses[j].literals,
                forall|j: int|
                    0 <= j < i ==> (#[trigger] self.clauses[j]).is_disabled == (old(
                        self,
                    ).clauses[j].is_disabled || old(self).clauses[j].literals@.contains(literal)),
                forall|j: int|
                    i <= j < self.clauses.len() ==> (#[trigger] self.clauses[j]).is_disabled
                        == old(self).clauses[j].is_disabled,
            decreases self.clauses.len() - i,
        {
            if !self.clauses[i].is_disabled {
                if crate::expression::normal::contains_literal(&self.clauses[i].literals, literal) {
                    self.clauses[i].is_disabled = true;
                }
            }
            i += 1;
        }
    }
}

impl DpllCNF {
    /// Enables again every disabled clause that holds `literal`, unless the
    /// assignment makes another of its literals true.
    pub fn enable(&mut self, literal: Literal, assignment: &Assignment)
        ensures
            final(self).clauses.len() == old(self).clauses.len(),
            final(self).formula() == old(self).formula(),
            forall|i: int|
                0 <= i < old(self).clauses.len() ==> (#[trigger] final(self).clauses[i]).literals
                    == old(self).clauses[i].literals && final(self).clauses[i].is_disabled == (old(
                    self,
                ).clauses[i].is_disabled && !(old(self).clauses[i].literals@.contains(literal)
                    && !other_holds(old(self).clauses[i].literals@, assignment@, literal))),
    {
        let mut i: usize = 0;
        while i < self.clauses.len()
            invariant
                i <= self.clauses.len(),
                self.clauses.len() == old(self).clauses.len(),
                forall|j: int|
                    0 <= j < self.clauses.len() ==> (#[trigger] self.clauses[j]).literals == old(
                        self,
                    ).clauses[j].literals,
                forall|j: int|
                    0 <= j < i ==> (#[trigger] self.clauses[j]).is_disabled == (old(
                        self,
                    ).clauses[j].is_disabled && !(old(self).clauses[j].literals@.contains(literal)
                        && !other_holds(old(self).clauses[j].literals@, assignment@, literal))),
                forall|j: int|
                    i <= j < self.clauses.len() ==> (#[trigger] self.clauses[j]).is_disabled
                        == old(self).clauses[j].is_disabled,
            decreases self.clauses.len() - i,
        {
            if self.clauses[i].is_disabled {
                if crate::expression::normal::contains_literal(&self.clauses[i].literals, literal) {
                    if !self.clauses[i].is_satisfied_beside(assignment, literal) {
                        self.clauses[i].is_disabled = false;
                    }
                }
            }
            i += 1;
        }
        assert(self.formula() =~= old(self).formula());
    }
}

impl vstd::std_specs::convert::FromSpecImpl<Clause> for DpllClause {
    open spec fn obeys_from_spec() -> bool {
        true
    }

    open spec fn from_spec(v: Clause) -> DpllClause {
        DpllClause { literals: v.literals, is_disabled: false }
    }
}

impl From<Clause> for DpllClause {
    /// The clause, enabled.
    fn from(value: Clause) -> (result: DpllClause) {
        DpllClause::new(value.literals, false)
    }
}

impl vstd::std_specs::convert::FromSpecImpl<CNF> for DpllCNF {
    open spec fn obeys_from_spec() -> bool {
        false
    }

    open spec fn from_spec(v: CNF) -> DpllCNF {
        arbitrary()
    }
}

impl From<CNF> for DpllCNF {
    /// The clauses of `value` in their order, all enabled.
    fn from(value: CNF) -> (result: DpllCNF)
        ensures
            result.formula() == value@,
            forall|i: int|
                0 <= i < result.clauses.len() ==> !(#[trigger] result.clauses[i]).is_disabled,
    {
        let ghost source = value@;
        let mut clauses: Vec<DpllClause> = Vec::new();
        for clause in it: value.clauses.into_iter()
            invariant
                it.seq() == value.clauses@,
                source == crate::expression::normal::clause_views(it.seq()),
                clauses.len() == it.index(),
                forall|j: int|
                    0 <= j < clauses.len() ==> (#[trigger] clauses[j]).literals@ == source[j]
                        && !clauses[j].is_disabled,
        {
            clauses.push(DpllClause::from(clause));
        }
        let result = DpllCNF::new(clauses);
        result
    }
}

} // verus!
