//! Simple DPLL solver implementation: unit propagation, pure-literal
//! elimination, branching and backtracking on a clause database whose flags
//! are set and reset in place.

pub use crate::solver::propagation::remove_unit_clauses;
pub use crate::solver::pure_literals::eliminate_pure_literals;

use crate::expression::expression::{extends, Assignment, Expression, VariableId};
use crate::expression::normal::{cnf_holds, disjunction_holds, Literal, CNF};
use crate::solver::clauses::{free_count_to, DpllCNF};
use crate::solver::decision::{choose_variable, fresh_seed};
use crate::solver::instance::{
    SATInstance, SolveError, SolverOptions, SolverResult, UnknownReason,
};
use crate::solver::model::{
    find_unit, has_falsified, is_falsified, is_inert, lemma_open_insert, lemma_open_monotone,
    lemma_propagate_extends, lemma_pure_extends, lemma_same_propagate, lemma_same_pure,
    lemma_search_complete, lemma_search_sound, open_count, propagate, same_open, search,
    unit_literal, with_pure_literals, within, DecisionStream, DpllSolverResult, Outcome,
    SearchSettings,
};
use crate::solver::trail::{assign_literal, backtrack, records, retract_literal};
use vstd::prelude::*;
use vstd::std_specs::iter::IteratorSpec;

verus! {

broadcast use vstd::std_specs::hash::group_hash_axioms;

/// One step of the DPLL search and, through its two branches, the search
/// below it. On `Sat` the clause database and the assignment are left as
/// the search found them; on any other verdict both are as they were at
/// the call.
///
/// The flags are asked to agree with the assignment in both directions
/// (see [`DpllCNF::consistent_with`]): backtracking could not set them back
/// otherwise. And every variable of the clauses is asked to be one that a
/// decision may pick, so that a clause that is neither true nor false
/// leaves a variable to decide.
pub fn solve_dpll_recursive(
    cnf: &mut DpllCNF,
    assignment: &mut Assignment,
    settings: &SearchSettings,
    stream: &mut DecisionStream,
) -> (result: DpllSolverResult)
    requires
        old(cnf).consistent_with(old(assignment)@),
        within(old(cnf).formula(), settings.max_id),
    ensures
        final(cnf).formula() == old(cnf).formula(),
        final(cnf).consistent_with(final(assignment)@),
        result == search(old(cnf).formula(), old(assignment)@, *settings, *old(stream)).verdict,
        final(assignment)@ == search(
            old(cnf).formula(),
            old(assignment)@,
            *settings,
            *old(stream),
        ).model,
        *final(stream) == search(old(cnf).formula(), old(assignment)@, *settings, *old(stream)).stream,
        result != DpllSolverResult::Sat ==> final(assignment)@ == old(assignment)@ && final(cnf)@
            == old(cnf)@,
    decreases open_count(old(assignment)@),
{
    let ghost f = cnf.formula();
    let ghost start = assignment@;
    let ghost flags = cnf@;
    // keep track of new assignments so they can be removed on backtrack
    let mut new_assignments: Vec<Literal> = Vec::new();
    assert(records(start, new_assignments@, start));

    // try to find solution by repeatedly applying simple steps
    proof {
        lemma_shown_by_flags(*cnf, start);
        lemma_same_propagate(cnf.shown(), f, start);
    }
    remove_unit_clauses(cnf, assignment, &mut new_assignments);
    let ghost propagated = assignment@;
    proof {
        lemma_shown_by_flags(*cnf, propagated);
        lemma_same_pure(cnf.shown(), f, propagated);
    }
    if !settings.skip_pure_literals {
        eliminate_pure_literals(cnf, assignment, &mut new_assignments);
    }
    let ghost extended = assignment@;
    assert(records(start, new_assignments@, extended));
    proof {
        lemma_propagate_extends(f, start);
        lemma_pure_extends(f, propagated);
        assert(extends(extended, start));
        assert(start.dom().subset_of(extended.dom()));
        lemma_open_monotone(start, extended, 65536);
        lemma_flags_by_assignment(*old(cnf), start);
    }

    // no clauses left => solution found
    if cnf.has_no_clauses() {
        proof {
            lemma_all_disabled(*cnf, extended);
        }
        return DpllSolverResult::Sat;
    }
    proof {
        lemma_all_disabled(*cnf, extended);
        lemma_some_falsified(*cnf, extended);
    }

    // empty clause left => unsat
    if cnf.has_empty_clause(assignment) {
        backtrack(cnf, assignment, new_assignments);
        proof {
            lemma_flags_by_assignment(*cnf, start);
            assert(cnf@ =~= flags);
        }
        return DpllSolverResult::Unsat;
    }

    // the budget of decisions
    match stream.budget {
        Some(left) => {
            if left == 0 {
                backtrack(cnf, assignment, new_assignments);
                proof {
                    lemma_flags_by_assignment(*cnf, start);
                    assert(cnf@ =~= flags);
                }
                return DpllSolverResult::Unknown;
            }
            stream.budget = Some(left - 1);
        },
        None => {},
    }

    // now we need to guess
    let var_id = match choose_variable(settings, assignment, stream) {
        Some(var_id) => var_id,
        None => {
            backtrack(cnf, assignment, new_assignments);
            proof {
                lemma_flags_by_assignment(*cnf, start);
                assert(cnf@ =~= flags);
            }
            return DpllSolverResult::Unsat;
        },
    };
    proof {
        lemma_open_insert(extended, var_id, true, 65536);
        lemma_open_insert(extended, var_id, false, 65536);
    }

    // try with var_id set to true
    assign_literal(cnf, assignment, Literal::new(var_id, true));
    let first = solve_dpll_recursive(cnf, assignment, settings, stream);
    if let DpllSolverResult::Sat = first {
        return DpllSolverResult::Sat;
    }
    // restore
    retract_literal(cnf, assignment, Literal::new(var_id, true));
    assert(assignment@ =~= extended);
    if let DpllSolverResult::Unknown = first {
        backtrack(cnf, assignment, new_assignments);
        proof {
            lemma_flags_by_assignment(*cnf, start);
            assert(cnf@ =~= flags);
        }
        return DpllSolverResult::Unknown;
    }
    // try with var_id set to false
    assign_literal(cnf, assignment, Literal::new(var_id, false));
    let second = solve_dpll_recursive(cnf, assignment, settings, stream);
    if let DpllSolverResult::Sat = second {
        return DpllSolverResult::Sat;
    }
    // didn't work? too bad => Unsat

    // restore
    retract_literal(cnf, assignment, Literal::new(var_id, false));
    assert(assignment@ =~= extended);
    backtrack(cnf, assignment, new_assignments);
    proof {
        lemma_flags_by_assignment(*cnf, start);
        assert(cnf@ =~= flags);
    }
    second
}

/// With flags that agree with the assignment, the clauses shown differ from
/// all clauses only in inert clauses, and no enabled clause holds a true
/// literal.
pub proof fn lemma_shown_by_flags(cnf: DpllCNF, m: Map<VariableId, bool>)
    requires
        cnf.consistent_with(m),
    ensures
        same_open(cnf.shown(), cnf.formula(), m),
        cnf.sound_under(m),
{
    let f = cnf.shown();
    let g = cnf.formula();
    assert forall|i: int| 0 <= i < f.len() implies #[trigger] f[i] == g[i] || (is_inert(f[i], m)
        && is_inert(g[i], m)) by {
        assert(g[i] == cnf.clauses[i].literals@);
    }
}

/// With flags that agree with the assignment, all clauses are disabled
/// exactly if the assignment makes all of them true.
pub proof fn lemma_all_disabled(cnf: DpllCNF, m: Map<VariableId, bool>)
    requires
        cnf.consistent_with(m),
    ensures
        (forall|i: int| 0 <= i < cnf.clauses.len() ==> (#[trigger] cnf.clauses[i]).is_disabled)
            == cnf_holds(cnf.formula(), m),
{
    let f = cnf.formula();
    if cnf_holds(f, m) {
        assert forall|i: int| 0 <= i < cnf.clauses.len() implies (#[trigger] cnf.clauses[i]).is_disabled by {
            assert(disjunction_holds(f[i], m));
        }
    }
    if forall|i: int| 0 <= i < cnf.clauses.len() ==> (#[trigger] cnf.clauses[i]).is_disabled {
        assert forall|i: int| 0 <= i < f.len() implies disjunction_holds(#[trigger] f[i], m) by {
            assert(cnf.clauses[i].is_disabled);
        }
    }
}

/// With flags that agree with the assignment, some enabled clause has only
/// false literals exactly if some clause is falsified.
pub proof fn lemma_some_falsified(cnf: DpllCNF, m: Map<VariableId, bool>)
    requires
        cnf.consistent_with(m),
    ensures
        (exists|i: int| 0 <= i < cnf.clauses.len() && (#[trigger] cnf.clauses[i]).is_empty_under(m))
            == has_falsified(cnf.formula(), m),
{
    let f = cnf.formula();
    if has_falsified(f, m) {
        let i = choose|i: int| 0 <= i < f.len() && is_falsified(#[trigger] f[i], m);
        assert(cnf.clauses[i].is_empty_under(m));
    }
    if exists|i: int| 0 <= i < cnf.clauses.len() && (#[trigger] cnf.clauses[i]).is_empty_under(m) {
        let i = choose|i: int|
            0 <= i < cnf.clauses.len() && (#[trigger] cnf.clauses[i]).is_empty_under(m);
        assert(is_falsified(f[i], m));
    }
}

/// Flags that agree with an assignment are fixed by the clauses and the
/// assignment.
pub proof fn lemma_flags_by_assignment(cnf: DpllCNF, m: Map<VariableId, bool>)
    requires
        cnf.consistent_with(m),
    ensures
        cnf@ == cnf.formula().map_values(|c: Seq<Literal>| (c, disjunction_holds(c, m))),
{
    assert(cnf@ =~= cnf.formula().map_values(|c: Seq<Literal>| (c, disjunction_holds(c, m))));
}

/// The largest identifier of a range of `count` variables.
pub open spec fn declared_max(count: nat) -> VariableId {
    if count == 0 {
        0
    } else if count > 65536 {
        65535
    } else {
        (count - 1) as VariableId
    }
}

/// Every variable of the expression lies in a range of `count` variables.
pub open spec fn in_range(e: Expression, count: nat) -> bool {
    forall|v: VariableId| e.variables().contains(v) ==> v < count
}

/// The settings of the search for a range of `count` variables.
pub open spec fn search_settings(count: nat, seed: u64, options: SolverOptions) -> SearchSettings {
    SearchSettings {
        max_id: declared_max(count),
        seed,
        skip_pure_literals: options.disable_pure_literal,
    }
}

/// What the search finds for an expression: the outcome of the search on
/// the clauses of its conjunctive normal form, from the initial assignment
/// and the start of the stream of decisions that the seed fixes.
pub open spec fn solve_outcome(
    e: Expression,
    initial: Map<VariableId, bool>,
    count: nat,
    seed: u64,
    options: SolverOptions,
) -> Outcome {
    search(
        e.cnf_form().cnf_clauses(),
        initial,
        search_settings(count, seed, options),
        DecisionStream { draws: 0, budget: options.max_decisions },
    )
}

/// Whether a result reports an outcome: the same verdict, and with `Sat`
/// the assignment found.
pub open spec fn reports(result: SolverResult, outcome: Outcome) -> bool {
    match result {
        SolverResult::Sat(found) => outcome.verdict == DpllSolverResult::Sat && found is Some
            && found->Some_0@ == outcome.model,
        SolverResult::Unsat => outcome.verdict == DpllSolverResult::Unsat,
        SolverResult::Unknown(_) => outcome.verdict == DpllSolverResult::Unknown,
    }
}

/// Disables every clause that an entry of the assignment satisfies.
pub fn disable_satisfied(cnf: &mut DpllCNF, assignment: &Assignment)
    requires
        forall|i: int| 0 <= i < old(cnf).clauses.len() ==> !(#[trigger] old(cnf).clauses[i]).is_disabled,
    ensures
        final(cnf).formula() == old(cnf).formula(),
        final(cnf).consistent_with(assignment@),
{
    let ghost f = cnf.formula();
    let ghost m = assignment@;
    let ghost mut done: Set<VariableId> = Set::empty();
    for entry in it: assignment.values.iter()
        invariant
            m == assignment@,
            cnf.formula() == f,
            it.seq() == vstd::std_specs::hash::spec_hash_map_iter(&assignment.values).remaining(),
            forall|v: VariableId| #[trigger]
                m.contains_key(v) ==> done.contains(v) || exists|k: int|
                    it.index() <= k < it.seq().len() && *(#[trigger] it.seq()[k]).0 == v,
            forall|i: int|
                0 <= i < cnf.clauses.len() ==> (#[trigger] cnf.clauses[i]).is_disabled
                    == holds_within(cnf.clauses[i].literals@, m, done),
    {
        let ghost before = *cnf;
        let ghost at = it.index();
        let ghost earlier = done;
        let (var_id, value) = entry;
        let literal = Literal::new(*var_id, *value);
        proof {
            assert(it.seq()[at] == entry);
            assert(m.contains_key(*var_id) && m[*var_id] == *value);
            done = done.insert(*var_id);
        }
        cnf.disable(literal);
        proof {
            assert forall|v: VariableId| #[trigger] m.contains_key(v) implies done.contains(v)
                || exists|k: int|
                at + 1 <= k < it.seq().len() && *(#[trigger] it.seq()[k]).0 == v by {
                if !earlier.contains(v) {
                    let k = choose|k: int|
                        at <= k < it.seq().len() && *(#[trigger] it.seq()[k]).0 == v;
                    if k != at {
                        assert(*it.seq()[k].0 == v);
                    }
                }
            }
            assert forall|i: int| 0 <= i < cnf.clauses.len() implies (#[trigger] cnf.clauses[i]).is_disabled
                == holds_within(cnf.clauses[i].literals@, m, done) by {
                let c = cnf.clauses[i].literals@;
                assert(c == before.clauses[i].literals@);
                if holds_within(c, m, earlier) {
                    let j = choose|j: int|
                        0 <= j < c.len() && (#[trigger] c[j]).holds(m) && earlier.contains(
                            c[j].var_id,
                        );
                    assert(c[j].holds(m) && done.contains(c[j].var_id));
                }
                if c.contains(literal) {
                    let j = choose|j: int| 0 <= j < c.len() && c[j] == literal;
                    assert(c[j].holds(m) && done.contains(c[j].var_id));
                }
                if holds_within(c, m, done) {
                    let j = choose|j: int|
                        0 <= j < c.len() && (#[trigger] c[j]).holds(m) && done.contains(
                            c[j].var_id,
                        );
                    if earlier.contains(c[j].var_id) {
                        assert(c[j].holds(m) && earlier.contains(c[j].var_id));
                    } else {
                        assert(c[j] == literal);
                    }
                }
            }
        }
    }
    proof {
        assert forall|i: int| 0 <= i < cnf.clauses.len() implies (#[trigger] cnf.clauses[i]).is_disabled
            == disjunction_holds(cnf.clauses[i].literals@, m) by {
            let c = cnf.clauses[i].literals@;
            if holds_within(c, m, done) {
                let j = choose|j: int|
                    0 <= j < c.len() && (#[trigger] c[j]).holds(m) && done.contains(c[j].var_id);
                assert(c[j].holds(m));
            }
            if disjunction_holds(c, m) {
                let j = choose|j: int| 0 <= j < c.len() && (#[trigger] c[j]).holds(m);
                assert(m.contains_key(c[j].var_id));
                assert(c[j].holds(m) && done.contains(c[j].var_id));
            }
        }
    }
}

/// Whether `m` makes true a literal of `literals` on a variable of `among`.
pub open spec fn holds_within(
    literals: Seq<Literal>,
    m: Map<VariableId, bool>,
    among: Set<VariableId>,
) -> bool {
    exists|j: int|
        0 <= j < literals.len() && (#[trigger] literals[j]).holds(m) && among.contains(
            literals[j].var_id,
        )
}

/// The clauses of an expression whose variables lie in a range hold only
/// variables of that range.
pub proof fn lemma_clauses_in_range(e: Expression, count: nat)
    requires
        in_range(e, count),
    ensures
        within(e.cnf_form().cnf_clauses(), declared_max(count)),
{
    let form = e.cnf_form();
    let f = form.cnf_clauses();
    e.lemma_cnf_equivalent(Map::empty());
    form.lemma_clauses_variables();
    assert forall|i: int, j: int| 0 <= i < f.len() && 0 <= j < f[i].len() implies (#[trigger] f[i][j]).var_id
        <= declared_max(count) by {
        assert(form.variables().contains(f[i][j].var_id));
        assert(e.variables().contains(f[i][j].var_id));
    }
}

/// Soundness: an assignment that comes with the verdict `Sat` extends the
/// initial assignment, and the expression is true under it, so that
/// evaluating the expression under it yields the constant `true`.
pub proof fn lemma_solve_sound(
    e: Expression,
    initial: Map<VariableId, bool>,
    count: nat,
    seed: u64,
    options: SolverOptions,
)
    ensures
        extends(solve_outcome(e, initial, count, seed, options).model, initial),
        solve_outcome(e, initial, count, seed, options).verdict == DpllSolverResult::Sat ==> {
            let model = solve_outcome(e, initial, count, seed, options).model;
            &&& e.value(model) == Some(true)
            &&& e.reduce(model) == Expression::Constant(true)
        },
        solve_outcome(e, initial, count, seed, options).verdict != DpllSolverResult::Sat
            ==> solve_outcome(e, initial, count, seed, options).model == initial,
        solve_outcome(e, initial, count, seed, options).verdict == DpllSolverResult::Unknown
            ==> options.max_decisions is Some,
{
    let f = e.cnf_form().cnf_clauses();
    let out = solve_outcome(e, initial, count, seed, options);
    lemma_search_sound(
        f,
        initial,
        search_settings(count, seed, options),
        DecisionStream { draws: 0, budget: options.max_decisions },
    );
    if out.verdict == DpllSolverResult::Sat {
        e.lemma_cnf_clauses_equivalent(out.model);
        e.lemma_reduce_decides(out.model);
    }
}

/// An expression that is `true` whatever its variables are has no clause,
/// and the verdict is `Sat` with the initial assignment; one that is `false`
/// has the empty clause, and the verdict is `Unsat`.
pub proof fn lemma_solve_constant(
    e: Expression,
    initial: Map<VariableId, bool>,
    count: nat,
    seed: u64,
    options: SolverOptions,
)
    ensures
        e.reduce(Map::empty()) == Expression::Constant(true) ==> solve_outcome(
            e,
            initial,
            count,
            seed,
            options,
        ).verdict == DpllSolverResult::Sat && solve_outcome(e, initial, count, seed, options).model
            == initial,
        e.reduce(Map::empty()) == Expression::Constant(false) ==> solve_outcome(
            e,
            initial,
            count,
            seed,
            options,
        ).verdict == DpllSolverResult::Unsat,
{
    let f = e.cnf_form().cnf_clauses();
    e.lemma_cnf_shape();
    if e.reduce(Map::empty()) is Constant {
        assert(unit_literal(f, initial) is None) by {
            reveal_with_fuel(find_unit, 3);
            reveal_with_fuel(free_count_to, 2);
        }
        assert(propagate(f, initial) == initial);
        assert(with_pure_literals(f, initial) =~= initial);
        if e.reduce(Map::empty()) == Expression::Constant(false) {
            assert(is_falsified(f[0], initial)) by {
                reveal_with_fuel(free_count_to, 2);
            }
            assert(!disjunction_holds(f[0], initial));
        }
    }
}

/// Completeness: with the verdict `Unsat`, the expression is true under no
/// assignment that extends the initial one, be it partial or total. This is
/// stated of the expressions whose variables lie in the range of the
/// instance, the only ones that a search is begun for.
pub proof fn lemma_solve_complete(
    e: Expression,
    initial: Map<VariableId, bool>,
    count: nat,
    seed: u64,
    options: SolverOptions,
    m: Map<VariableId, bool>,
)
    requires
        in_range(e, count),
        solve_outcome(e, initial, count, seed, options).verdict == DpllSolverResult::Unsat,
        extends(m, initial),
    ensures
        e.value(m) != Some(true),
        e.total_under(m) ==> !e.truth(m),
{
    let f = e.cnf_form().cnf_clauses();
    lemma_clauses_in_range(e, count);
    lemma_search_complete(
        f,
        initial,
        search_settings(count, seed, options),
        DecisionStream { draws: 0, budget: options.max_decisions },
        m,
    );
    e.lemma_cnf_clauses_equivalent(m);
}

/// Determinism under a fixed seed: two results that report the outcome for
/// the same expression, initial assignment, range, seed and options have
/// the same verdict and, with `Sat`, the same assignment.
pub proof fn lemma_same_seed_same_result(
    first: SolverResult,
    second: SolverResult,
    e: Expression,
    initial: Map<VariableId, bool>,
    count: nat,
    seed: u64,
    options: SolverOptions,
)
    requires
        reports(first, solve_outcome(e, initial, count, seed, options)),
        reports(second, solve_outcome(e, initial, count, seed, options)),
    ensures
        first is Sat <==> second is Sat,
        first is Unsat <==> second is Unsat,
        first is Unknown <==> second is Unknown,
        first is Sat ==> first->Sat_0->Some_0@ == second->Sat_0->Some_0@,
{
}

/// Decides whether the expression of the instance can be made true by an
/// assignment that extends the initial one, and finds such an assignment
/// if there is one.
pub fn solve(instance: SATInstance, initial_assignment: Assignment, options: SolverOptions) -> (result:
    Result<SolverResult, SolveError>)
    ensures
        result is Err <==> !in_range(instance.expression, instance.declared()),
        result matches Err(SolveError::VariableOutOfRange(v))
            ==> instance.expression.variables().contains(v) && v >= instance.declared(),
        result matches Ok(found) ==> exists|seed: u64|
            (options.seed is Some ==> options.seed == Some(seed)) && reports(
                found,
                #[trigger] solve_outcome(
                    instance.expression,
                    initial_assignment@,
                    instance.declared(),
                    seed,
                    options,
                ),
            ),
        result matches Ok(SolverResult::Sat(found)) ==> found is Some && extends(
            found->Some_0@,
            initial_assignment@,
        ) && instance.expression.value(found->Some_0@) == Some(true)
            && instance.expression.reduce(found->Some_0@) == Expression::Constant(true),
        result matches Ok(SolverResult::Unsat) ==> forall|m: Map<VariableId, bool>| #[trigger]
            extends(m, initial_assignment@) ==> instance.expression.value(m) != Some(true),
        result matches Ok(SolverResult::Unknown(_)) ==> options.max_decisions is Some,
        result is Ok && instance.expression.reduce(Map::empty()) == Expression::Constant(true) ==> (
        result matches Ok(SolverResult::Sat(found)) && found is Some && found->Some_0@
            == initial_assignment@),
        result is Ok && instance.expression.reduce(Map::empty()) == Expression::Constant(false)
            ==> (result matches Ok(SolverResult::Unsat)),
{
    let ghost e = instance.expression;
    let ghost initial = initial_assignment@;
    let ghost declared = instance.declared();
    let count = instance.var_to_str.len();
    assert(count == declared);
    match instance.expression.max_variable() {
        Some(largest) => {
            if largest as usize >= count {
                return Err(SolveError::VariableOutOfRange(largest));
            }
        },
        None => {},
    }
    assert(in_range(e, count as nat));
    let max_id: VariableId = if count == 0 {
        0
    } else if count > 65536 {
        65535
    } else {
        (count - 1) as VariableId
    };
    let seed = match options.seed {
        Some(seed) => seed,
        None => fresh_seed(),
    };
    let settings = SearchSettings { max_id, seed, skip_pure_literals: options.disable_pure_literal };
    let mut stream = DecisionStream::new(options.max_decisions);

    // reduce cnf according to initial assignment
    let mut cnf: DpllCNF = DpllCNF::from(CNF::from(instance.expression));
    let mut assignment = initial_assignment;
    disable_satisfied(&mut cnf, &assignment);
    proof {
        lemma_clauses_in_range(e, count as nat);
        lemma_solve_sound(e, initial, count as nat, seed, options);
        lemma_solve_constant(e, initial, count as nat, seed, options);
    }
    let verdict = solve_dpll_recursive(&mut cnf, &mut assignment, &settings, &mut stream);
    let ghost outcome = solve_outcome(e, initial, count as nat, seed, options);
    assert(settings == search_settings(count as nat, seed, options));
    assert(verdict == outcome.verdict && assignment@ == outcome.model);
    let found = match verdict {
        DpllSolverResult::Sat => SolverResult::Sat(Some(assignment)),
        DpllSolverResult::Unsat => SolverResult::Unsat,
        DpllSolverResult::Unknown => SolverResult::Unknown(UnknownReason::DecisionBudgetExhausted),
    };
    assert(reports(found, solve_outcome(e, initial, declared, seed, options)));
    assert(options.seed is Some ==> options.seed == Some(seed));
    match verdict {
        DpllSolverResult::Sat => Ok(found),
        DpllSolverResult::Unsat => {
            proof {
                assert forall|m: Map<VariableId, bool>| #[trigger]
                    extends(m, initial) implies e.value(m) != Some(true) by {
                    lemma_solve_complete(e, initial, count as nat, seed, options, m);
                }
            }
            Ok(found)
        },
        DpllSolverResult::Unknown => Ok(found),
    }
}

/// Decides whether the expression of the instance can be made true by an
/// assignment that extends the initial one, with a seed drawn for the
/// occasion, with pure-literal elimination and without a limit on the
/// number of decisions.
pub fn solve_dpll(instance: SATInstance, initial_assignment: Assignment) -> (result: Result<
    SolverResult,
    SolveError,
>)
    ensures
        result is Err <==> !in_range(instance.expression, instance.declared()),
        result matches Err(SolveError::VariableOutOfRange(v))
            ==> instance.expression.variables().contains(v) && v >= instance.declared(),
        result matches Ok(found) ==> exists|seed: u64|
            reports(
                found,
                #[trigger] solve_outcome(
                    instance.expression,
                    initial_assignment@,
                    instance.declared(),
                    seed,
                    SolverOptions { seed: None, disable_pure_literal: false, max_decisions: None },
                ),
            ),
        result matches Ok(SolverResult::Sat(found)) ==> found is Some && extends(
            found->Some_0@,
            initial_assignment@,
        ) && instance.expression.value(found->Some_0@) == Some(true)
            && instance.expression.reduce(found->Some_0@) == Expression::Constant(true),
        result matches Ok(SolverResult::Unsat) ==> forall|m: Map<VariableId, bool>| #[trigger]
            extends(m, initial_assignment@) ==> instance.expression.value(m) != Some(true),
        !(result matches Ok(SolverResult::Unknown(_))),
        result is Ok && instance.expression.reduce(Map::empty()) == Expression::Constant(true) ==> (
        result matches Ok(SolverResult::Sat(found)) && found is Some && found->Some_0@
            == initial_assignment@),
        result is Ok && instance.expression.reduce(Map::empty()) == Expression::Constant(false)
            ==> (result matches Ok(SolverResult::Unsat)),
{
    let options = SolverOptions { seed: None, disable_pure_literal: false, max_decisions: None };
    solve(instance, initial_assignment, options)
}

} // verus!
