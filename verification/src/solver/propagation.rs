//! Unit propagation: a clause without a true literal and with a single
//! open literal forces that literal.

use crate::expression::expression::{extends, Assignment, VariableId};
use crate::expression::normal::Literal;
use crate::solver::clauses::{free_count, holds_one_of, DpllCNF};
use crate::solver::model::{
    find_unit, first_free, is_inert, is_unit, lemma_free_count_positive, lemma_open_insert,
    lemma_propagate_extends, lemma_same_propagate, lemma_unit_literal, open_count, propagate,
    propagated_literals, same_open, unit_literal,
};
use crate::solver::trail::{assign_literal, lemma_records_push, records};
use vstd::prelude::*;

verus! {

broadcast use vstd::std_specs::hash::group_hash_axioms;

/// The open literal of the first enabled clause that has exactly one open
/// literal, if there is such a clause.
pub fn find_unit_literal(cnf: &DpllCNF, assignment: &Assignment) -> (result: Option<Literal>)
    requires
        cnf.sound_under(assignment@),
    ensures
        result == unit_literal(cnf.shown(), assignment@),
{
    let ghost f = cnf.shown();
    let ghost m = assignment@;
    let mut i: usize = 0;
    while i < cnf.clauses.len()
        invariant
            i <= cnf.clauses.len(),
            f == cnf.shown(),
            m == assignment@,
            cnf.sound_under(m),
            find_unit(f, m, 0) == find_unit(f, m, i as int),
        decreases cnf.clauses.len() - i,
    {
        let clause = &cnf.clauses[i];
        if !clause.is_disabled && clause.literal_count(assignment) == 1 {
            assert(f[i as int] == clause.literals@);
            let mut j: usize = 0;
            while j < clause.literals.len()
                invariant
                    j <= clause.literals.len(),
                    m == assignment@,
                    f == cnf.shown(),
                    i < f.len(),
                    f[i as int] == clause.literals@,
                    find_unit(f, m, 0) == i,
                    free_count(clause.literals@, m) == 1,
                    first_free(clause.literals@, m, 0) == first_free(clause.literals@, m, j as int),
                decreases clause.literals.len() - j,
            {
                if !assignment.values.contains_key(&clause.literals[j].var_id) {
                    return Some(clause.literals[j]);
                }
                j += 1;
            }
            proof {
                lemma_free_count_positive(clause.literals@, m);
            }
            return None;
        }
        proof {
            if clause.is_disabled {
                assert(f[i as int] == Seq::<Literal>::empty());
            } else {
                assert(f[i as int] == clause.literals@);
            }
            assert(!is_unit(f[i as int], m));
        }
        i += 1;
    }
    None
}

/// Unit propagation: while some enabled clause has exactly one open
/// literal, that literal is made true and added to the end of the trail.
/// At the end no enabled clause has exactly one open literal.
///
/// It is enough that no enabled clause holds a true literal. Where each
/// disabled clause holds one as well, as in the search, that stays so.
pub fn remove_unit_clauses(
    cnf: &mut DpllCNF,
    assignment: &mut Assignment,
    new_assignments: &mut Vec<Literal>,
)
    requires
        old(cnf).sound_under(old(assignment)@),
    ensures
        final(cnf).formula() == old(cnf).formula(),
        final(cnf).sound_under(final(assignment)@),
        old(cnf).consistent_with(old(assignment)@) ==> final(cnf).consistent_with(
            final(assignment)@,
        ),
        final(assignment)@ == propagate(old(cnf).shown(), old(assignment)@),
        final(new_assignments)@ == old(new_assignments)@ + propagated_literals(
            old(cnf).shown(),
            old(assignment)@,
        ),
        extends(final(assignment)@, old(assignment)@),
        forall|k: int|
            0 <= k < propagated_literals(old(cnf).shown(), old(assignment)@).len() ==> (
            #[trigger] propagated_literals(old(cnf).shown(), old(assignment)@)[k]).is_free(
                old(assignment)@,
            ) && propagated_literals(old(cnf).shown(), old(assignment)@)[k].holds(
                final(assignment)@,
            ),
        forall|i: int|
            0 <= i < final(cnf).clauses.len() && !(#[trigger] final(cnf).clauses[i]).is_disabled
                ==> free_count(final(cnf).clauses[i].literals@, final(assignment)@) != 1,
        final(cnf).clauses.len() == old(cnf).clauses.len(),
        forall|i: int|
            0 <= i < old(cnf).clauses.len() ==> (#[trigger] final(cnf).clauses[i]).literals
                == old(cnf).clauses[i].literals && final(cnf).clauses[i].is_disabled == (old(
                cnf,
            ).clauses[i].is_disabled || holds_one_of(
                old(cnf).clauses[i].literals@,
                propagated_literals(old(cnf).shown(), old(assignment)@),
            )),
        forall|base: Map<VariableId, bool>| #[trigger]
            records(base, old(new_assignments)@, old(assignment)@) ==> records(
                base,
                final(new_assignments)@,
                final(assignment)@,
            ),
{
    let ghost f = cnf.shown();
    let ghost m = assignment@;
    let ghost mut added: Seq<Literal> = Seq::empty();
    let mut keep_going = true;
    proof {
        lemma_propagated(f, m);
        assert(new_assignments@ =~= old(new_assignments)@ + added);
        assert(added + propagated_literals(f, m) =~= propagated_literals(f, m));
    }
    while keep_going
        invariant
            cnf.formula() == old(cnf).formula(),
            m == old(assignment)@,
            f == old(cnf).shown(),
            cnf.clauses.len() == old(cnf).clauses.len(),
            cnf.sound_under(assignment@),
            old(cnf).consistent_with(m) ==> cnf.consistent_with(assignment@),
            same_open(cnf.shown(), f, assignment@),
            extends(assignment@, m),
            forall|k: int| 0 <= k < added.len() ==> (#[trigger] added[k]).holds(assignment@),
            propagate(f, assignment@) == propagate(f, m),
            added + propagated_literals(f, assignment@) == propagated_literals(f, m),
            new_assignments@ == old(new_assignments)@ + added,
            !keep_going ==> unit_literal(cnf.shown(), assignment@) is None,
            forall|i: int|
                0 <= i < cnf.clauses.len() ==> (#[trigger] cnf.clauses[i]).literals == old(
                    cnf,
                ).clauses[i].literals && cnf.clauses[i].is_disabled == (old(
                    cnf,
                ).clauses[i].is_disabled || holds_one_of(old(cnf).clauses[i].literals@, added)),
            forall|base: Map<VariableId, bool>| #[trigger]
                records(base, old(new_assignments)@, old(assignment)@) ==> records(
                    base,
                    new_assignments@,
                    assignment@,
                ),
        decreases
                open_count(assignment@),
                if keep_going {
                    1nat
                } else {
                    0nat
                },
    {
        keep_going = false;
        let unit_clause_literal = find_unit_literal(cnf, assignment);
        proof {
            lemma_same_propagate(cnf.shown(), f, assignment@);
        }
        if let Some(literal) = unit_clause_literal {
            keep_going = true;
            let ghost before = assignment@;
            let ghost trail = new_assignments@;
            let ghost earlier = added;
            proof {
                lemma_unit_literal(f, before);
                lemma_open_insert(before, literal.var_id, literal.value, 65536);
                added = added.push(literal);
            }
            assign_literal(cnf, assignment, literal);
            new_assignments.push(literal);
            proof {
                assert(extends(assignment@, before));
                assert(new_assignments@ =~= old(new_assignments)@ + added);
                assert(added + propagated_literals(f, assignment@) =~= earlier
                    + propagated_literals(f, before));
                assert forall|k: int| 0 <= k < added.len() implies (#[trigger] added[k]).holds(
                    assignment@,
                ) by {
                    if k < earlier.len() {
                        assert(earlier[k].holds(before));
                    }
                }
                assert forall|i: int| 0 <= i < cnf.clauses.len() implies (
                #[trigger] cnf.clauses[i]).is_disabled == (old(cnf).clauses[i].is_disabled
                    || holds_one_of(old(cnf).clauses[i].literals@, added)) by {
                    let c = old(cnf).clauses[i].literals@;
                    if holds_one_of(c, earlier) {
                        let k = choose|k: int|
                            0 <= k < earlier.len() && c.contains(#[trigger] earlier[k]);
                        assert(c.contains(added[k]));
                    }
                    if c.contains(literal) {
                        assert(c.contains(added[earlier.len() as int]));
                    }
                    if holds_one_of(c, added) {
                        let k = choose|k: int| 0 <= k < added.len() && c.contains(#[trigger] added[k]);
                        if k < earlier.len() {
                            assert(c.contains(earlier[k]));
                        }
                    }
                }
                lemma_shown_after(*old(cnf), *cnf, added, assignment@);
                assert forall|base: Map<VariableId, bool>| #[trigger]
                    records(base, old(new_assignments)@, old(assignment)@) implies records(
                    base,
                    new_assignments@,
                    assignment@,
                ) by {
                    lemma_records_push(base, trail, before, literal);
                }
            }
        }
    }
    proof {
        lemma_same_propagate(cnf.shown(), f, assignment@);
        assert(added + propagated_literals(f, assignment@) =~= added);
        lemma_unit_literal(cnf.shown(), assignment@);
        assert forall|i: int|
            0 <= i < cnf.clauses.len() && !(#[trigger] cnf.clauses[i]).is_disabled implies free_count(
            cnf.clauses[i].literals@,
            assignment@,
        ) != 1 by {
            assert(cnf.shown()[i] == cnf.clauses[i].literals@);
            assert(!is_unit(cnf.shown()[i], assignment@));
        }
    }
}

/// Once literals that are now true have disabled the clauses that hold
/// them, the clauses shown differ from those shown before only in inert
/// clauses.
pub proof fn lemma_shown_after(
    before: DpllCNF,
    after: DpllCNF,
    added: Seq<Literal>,
    m: Map<VariableId, bool>,
)
    requires
        after.clauses.len() == before.clauses.len(),
        forall|k: int| 0 <= k < added.len() ==> (#[trigger] added[k]).holds(m),
        forall|i: int|
            0 <= i < after.clauses.len() ==> (#[trigger] after.clauses[i]).literals
                == before.clauses[i].literals && after.clauses[i].is_disabled
                == (before.clauses[i].is_disabled || holds_one_of(before.clauses[i].literals@, added)),
    ensures
        same_open(after.shown(), before.shown(), m),
{
    let f = after.shown();
    let g = before.shown();
    assert forall|i: int| 0 <= i < f.len() implies #[trigger] f[i] == g[i] || (is_inert(f[i], m)
        && is_inert(g[i], m)) by {
        let c = before.clauses[i].literals@;
        assert(after.clauses[i].literals == before.clauses[i].literals);
        if after.clauses[i].is_disabled && !before.clauses[i].is_disabled {
            let k = choose|k: int| 0 <= k < added.len() && c.contains(#[trigger] added[k]);
            let j = choose|j: int| 0 <= j < c.len() && c[j] == added[k];
            assert(c[j].holds(m));
            assert(g[i] == c);
            assert(f[i] == Seq::<Literal>::empty());
        }
    }
}

/// Every literal that unit propagation makes true was open before and is
/// true after.
pub proof fn lemma_propagated(f: Seq<Seq<Literal>>, m: Map<VariableId, bool>)
    ensures
        forall|k: int|
            0 <= k < propagated_literals(f, m).len() ==> (#[trigger] propagated_literals(
                f,
                m,
            )[k]).is_free(m) && propagated_literals(f, m)[k].holds(propagate(f, m)),
        extends(propagate(f, m), m),
    decreases open_count(m),
{
    lemma_unit_literal(f, m);
    lemma_propagate_extends(f, m);
    match unit_literal(f, m) {
        Some(l) => {
            let next = m.insert(l.var_id, l.value);
            lemma_open_insert(m, l.var_id, l.value, 65536);
            lemma_propagated(f, next);
            lemma_propagate_extends(f, next);
            let rest = propagated_literals(f, next);
            let all = propagated_literals(f, m);
            assert(all == seq![l] + rest);
            assert forall|k: int| 0 <= k < all.len() implies (#[trigger] all[k]).is_free(m)
                && all[k].holds(propagate(f, m)) by {
                if k == 0 {
                    assert(all[0] == l);
                    assert(next.contains_key(l.var_id));
                } else {
                    assert(all[k] == rest[k - 1]);
                    assert(rest[k - 1].is_free(next));
                }
            }
        },
        None => {},
    }
}

} // verus!
