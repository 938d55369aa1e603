//! The trail of a search step: the literals that the step has made true,
//! in their order, so that they can be taken back when the step fails.

use crate::expression::expression::{Assignment, VariableId};
use crate::expression::normal::{disjunction_holds, Literal};
use crate::solver::clauses::{other_holds, DpllCNF};
use vstd::prelude::*;

verus! {

broadcast use vstd::std_specs::hash::group_hash_axioms;

/// The assignment after the literals of `trail` have been made true in turn.
pub open spec fn apply_trail(m: Map<VariableId, bool>, trail: Seq<Literal>) -> Map<
    VariableId,
    bool,
>
    decreases trail.len(),
{
    if trail.len() == 0 {
        m
    } else {
        apply_trail(m, trail.drop_last()).insert(trail.last().var_id, trail.last().value)
    }
}

/// Every literal of `trail` is on a variable that was open when its turn
/// came.
pub open spec fn fresh_trail(m: Map<VariableId, bool>, trail: Seq<Literal>) -> bool
    decreases trail.len(),
{
    trail.len() == 0 || (fresh_trail(m, trail.drop_last()) && !apply_trail(
        m,
        trail.drop_last(),
    ).contains_key(trail.last().var_id))
}

/// `trail` records how `current` grew out of `base`.
pub open spec fn records(
    base: Map<VariableId, bool>,
    trail: Seq<Literal>,
    current: Map<VariableId, bool>,
) -> bool {
    current == apply_trail(base, trail) && fresh_trail(base, trail)
}

/// A trail that gets one more literal on an open variable records the
/// assignment with that literal made true.
pub proof fn lemma_records_push(
    base: Map<VariableId, bool>,
    trail: Seq<Literal>,
    current: Map<VariableId, bool>,
    l: Literal,
)
    requires
        records(base, trail, current),
        l.is_free(current),
    ensures
        records(base, trail.push(l), current.insert(l.var_id, l.value)),
{
    assert(trail.push(l).drop_last() == trail);
}

/// Once an open literal has been made true, a clause holds exactly if it
/// held before or has that literal.
pub proof fn lemma_assign_holds(c: Seq<Literal>, m: Map<VariableId, bool>, l: Literal)
    requires
        l.is_free(m),
    ensures
        disjunction_holds(c, m.insert(l.var_id, l.value)) <==> disjunction_holds(c, m)
            || c.contains(l),
{
    let next = m.insert(l.var_id, l.value);
    if disjunction_holds(c, next) && !disjunction_holds(c, m) {
        let j = choose|j: int| 0 <= j < c.len() && (#[trigger] c[j]).holds(next);
        assert(!c[j].holds(m));
        assert(c[j] == l);
    }
    if disjunction_holds(c, m) {
        let j = choose|j: int| 0 <= j < c.len() && (#[trigger] c[j]).holds(m);
        assert(c[j].holds(next));
    }
    if c.contains(l) {
        let j = choose|j: int| 0 <= j < c.len() && c[j] == l;
        assert(c[j].holds(next));
    }
}

/// Once a true literal has been taken back, a clause holds exactly if it
/// held before and does not owe that to the literal alone.
pub proof fn lemma_retract_holds(c: Seq<Literal>, m: Map<VariableId, bool>, l: Literal)
    requires
        l.holds(m),
    ensures
        disjunction_holds(c, m.remove(l.var_id)) ==> disjunction_holds(c, m),
        disjunction_holds(c, m) && !c.contains(l) ==> disjunction_holds(c, m.remove(l.var_id)),
        other_holds(c, m.remove(l.var_id), l) == disjunction_holds(c, m.remove(l.var_id)),
{
    let before = m.remove(l.var_id);
    if disjunction_holds(c, before) {
        let j = choose|j: int| 0 <= j < c.len() && (#[trigger] c[j]).holds(before);
        assert(c[j] != l);
    }
    if other_holds(c, before, l) {
        let j = choose|j: int| 0 <= j < c.len() && (#[trigger] c[j]) != l && c[j].holds(before);
        assert(c[j].holds(before));
    }
    if disjunction_holds(c, before) {
        let j = choose|j: int| 0 <= j < c.len() && (#[trigger] c[j]).holds(before);
        assert(c[j].holds(m));
    }
    if disjunction_holds(c, m) && !c.contains(l) {
        let j = choose|j: int| 0 <= j < c.len() && (#[trigger] c[j]).holds(m);
        if c[j].var_id == l.var_id {
            assert(c[j] == l);
        }
        assert(c[j].holds(before));
    }
}

/// Makes an open literal true and disables the clauses that hold it. It is
/// enough that no enabled clause holds a true literal, and that stays so;
/// where each disabled clause holds one as well, that stays so too.
pub fn assign_literal(cnf: &mut DpllCNF, assignment: &mut Assignment, literal: Literal)
    requires
        old(cnf).sound_under(old(assignment)@),
        literal.is_free(old(assignment)@),
    ensures
        final(assignment)@ == old(assignment)@.insert(literal.var_id, literal.value),
        final(cnf).formula() == old(cnf).formula(),
        final(cnf).sound_under(final(assignment)@),
        old(cnf).consistent_with(old(assignment)@) ==> final(cnf).consistent_with(
            final(assignment)@,
        ),
        final(cnf).clauses.len() == old(cnf).clauses.len(),
        forall|i: int|
            0 <= i < old(cnf).clauses.len() ==> (#[trigger] final(cnf).clauses[i]).literals
                == old(cnf).clauses[i].literals && final(cnf).clauses[i].is_disabled == (old(
                cnf,
            ).clauses[i].is_disabled || old(cnf).clauses[i].literals@.contains(literal)),
{
    assignment.values.insert(literal.var_id, literal.value);
    cnf.disable(literal);
    proof {
        assert forall|i: int|
            0 <= i < cnf.clauses.len() && !(#[trigger] cnf.clauses[i]).is_disabled implies !disjunction_holds(
            cnf.clauses[i].literals@,
            assignment@,
        ) by {
            lemma_assign_holds(old(cnf).clauses[i].literals@, old(assignment)@, literal);
        }
        if old(cnf).consistent_with(old(assignment)@) {
            assert forall|i: int| 0 <= i < cnf.clauses.len() implies (#[trigger] cnf.clauses[i]).is_disabled
                == disjunction_holds(cnf.clauses[i].literals@, assignment@) by {
                lemma_assign_holds(old(cnf).clauses[i].literals@, old(assignment)@, literal);
            }
        }
    }
}

/// Takes a true literal back and enables the clauses that no other literal
/// keeps satisfied. This sets the flags back only where they agree with the
/// assignment in both directions (see [`DpllCNF::consistent_with`]), which
/// is asked for and holds after the call.
pub fn retract_literal(cnf: &mut DpllCNF, assignment: &mut Assignment, literal: Literal)
    requires
        old(cnf).consistent_with(old(assignment)@),
        literal.holds(old(assignment)@),
    ensures
        final(assignment)@ == old(assignment)@.remove(literal.var_id),
        final(cnf).formula() == old(cnf).formula(),
        final(cnf).consistent_with(final(assignment)@),
{
    assignment.values.remove(&literal.var_id);
    cnf.enable(literal, assignment);
    proof {
        assert forall|i: int| 0 <= i < cnf.clauses.len() implies (#[trigger] cnf.clauses[i]).is_disabled
            == disjunction_holds(cnf.clauses[i].literals@, assignment@) by {
            lemma_retract_holds(old(cnf).clauses[i].literals@, old(assignment)@, literal);
        }
    }
}

/// Undoes a trail, the last literal first: every literal is taken back, and
/// the assignment and the clause flags are as they were before the trail.
/// For the flags this needs that they agree with the assignment in both
/// directions (see [`DpllCNF::consistent_with`]).
pub fn backtrack(cnf: &mut DpllCNF, assignment: &mut Assignment, trail: Vec<Literal>)
    requires
        old(cnf).consistent_with(old(assignment)@),
        exists|base: Map<VariableId, bool>| records(base, trail@, old(assignment)@),
    ensures
        final(cnf).formula() == old(cnf).formula(),
        final(cnf).consistent_with(final(assignment)@),
        forall|base: Map<VariableId, bool>| #[trigger]
            records(base, trail@, old(assignment)@) ==> final(assignment)@ == base,
{
    let mut remaining: usize = trail.len();
    proof {
        assert(trail@.take(remaining as int) == trail@);
    }
    while remaining > 0
        invariant
            remaining <= trail.len(),
            cnf.formula() == old(cnf).formula(),
            cnf.consistent_with(assignment@),
            forall|base: Map<VariableId, bool>| #[trigger]
                records(base, trail@, old(assignment)@) ==> records(
                    base,
                    trail@.take(remaining as int),
                    assignment@,
                ),
            exists|base: Map<VariableId, bool>| records(base, trail@, old(assignment)@),
        decreases remaining,
    {
        let literal = trail[remaining - 1];
        let ghost before = assignment@;
        let ghost prefix = trail@.take(remaining as int);
        proof {
            let base = choose|base: Map<VariableId, bool>| records(base, trail@, old(assignment)@);
            assert(records(base, prefix, before));
            assert(prefix.last() == literal);
            assert(literal.holds(before));
        }
        retract_literal(cnf, assignment, literal);
        remaining -= 1;
        proof {
            assert forall|base: Map<VariableId, bool>| #[trigger]
                records(base, trail@, old(assignment)@) implies records(
                base,
                trail@.take(remaining as int),
                assignment@,
            ) by {
                assert(records(base, prefix, before));
                assert(prefix.drop_last() == trail@.take(remaining as int));
                let shorter = apply_trail(base, prefix.drop_last());
                assert(before == shorter.insert(literal.var_id, literal.value));
                assert(before.remove(literal.var_id) =~= shorter);
            }
        }
    }
}

} // verus!
