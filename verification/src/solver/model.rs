//! The search as a mathematical function of the clauses, the assignment and
//! the stream of decisions: what unit propagation, pure-literal elimination
//! and branching compute, stated without the clause flags and the trail
//! that the executable search keeps.

use crate::expression::expression::{extends, VariableId};
use crate::expression::normal::{cnf_holds, disjunction_holds, Literal};
use crate::solver::clauses::{free_count, free_count_to};
use crate::solver::decision::{decide, lemma_decide};
use vstd::prelude::*;

verus! {

/// The three verdicts of the search.
#[derive(Debug, Clone, Copy, PartialEq, Eq, Structural)]
pub enum DpllSolverResult {
    Sat,
    Unsat,
    Unknown,
}

/// What steers the search beside the clauses and the assignment.
#[derive(Debug, Clone, Copy)]
pub struct SearchSettings {
    /// The largest variable identifier that a decision may pick.
    pub max_id: VariableId,
    /// The seed of the stream of decisions.
    pub seed: u64,
    /// Whether pure-literal elimination is left out.
    pub skip_pure_literals: bool,
}

/// The place of the search in its stream of decisions.
#[derive(Debug, Clone, Copy)]
pub struct DecisionStream {
    /// How many values have been drawn so far.
    pub draws: u64,
    /// How many decisions may still be made, if their number is limited.
    pub budget: Option<u64>,
}

/// The result of a search: its verdict, the assignment it ends with and the
/// place in the stream of decisions that it has reached.
pub struct Outcome {
    pub verdict: DpllSolverResult,
    pub model: Map<VariableId, bool>,
    pub stream: DecisionStream,
}

/// How many of the variable identifiers below `n` the assignment leaves open.
pub open spec fn open_below(m: Map<VariableId, bool>, n: nat) -> nat
    decreases n,
{
    if n == 0 {
        0
    } else {
        open_below(m, (n - 1) as nat) + if m.contains_key((n - 1) as VariableId) {
            0nat
        } else {
            1nat
        }
    }
}

/// How many of all variable identifiers the assignment leaves open.
pub open spec fn open_count(m: Map<VariableId, bool>) -> nat {
    open_below(m, 65536)
}

/// A clause without a true literal and with exactly one open literal.
pub open spec fn is_unit(literals: Seq<Literal>, m: Map<VariableId, bool>) -> bool {
    !disjunction_holds(literals, m) && free_count(literals, m) == 1
}

/// A clause all of whose literals are false.
pub open spec fn is_falsified(literals: Seq<Literal>, m: Map<VariableId, bool>) -> bool {
    !disjunction_holds(literals, m) && free_count(literals, m) == 0
}

/// Whether some clause is falsified.
pub open spec fn has_falsified(f: Seq<Seq<Literal>>, m: Map<VariableId, bool>) -> bool {
    exists|i: int| 0 <= i < f.len() && is_falsified(#[trigger] f[i], m)
}

/// The index of the first unit clause at or after `start`, or the number of
/// clauses if there is none.
pub open spec fn find_unit(f: Seq<Seq<Literal>>, m: Map<VariableId, bool>, start: int) -> int
    decreases f.len() - start,
{
    if start < 0 || start >= f.len() {
        f.len() as int
    } else if is_unit(f[start], m) {
        start
    } else {
        find_unit(f, m, start + 1)
    }
}

/// The index of the first open literal at or after `start`, or the number
/// of literals if there is none.
pub open spec fn first_free(literals: Seq<Literal>, m: Map<VariableId, bool>, start: int) -> int
    decreases literals.len() - start,
{
    if start < 0 || start >= literals.len() {
        literals.len() as int
    } else if literals[start].is_free(m) {
        start
    } else {
        first_free(literals, m, start + 1)
    }
}

/// The open literal of the first unit clause, if there is a unit clause.
pub open spec fn unit_literal(f: Seq<Seq<Literal>>, m: Map<VariableId, bool>) -> Option<Literal> {
    let i = find_unit(f, m, 0);
    if i < f.len() {
        Some(f[i][first_free(f[i], m, 0)])
    } else {
        None
    }
}

/// The assignment after unit propagation: while there is a unit clause, the
/// open literal of the first one is made true.
pub open spec fn propagate(f: Seq<Seq<Literal>>, m: Map<VariableId, bool>) -> Map<
    VariableId,
    bool,
>
    decreases open_count(m),
{
    match unit_literal(f, m) {
        Some(l) => {
            proof {
                lemma_unit_literal(f, m);
                lemma_open_insert(m, l.var_id, l.value, 65536);
            }
            propagate(f, m.insert(l.var_id, l.value))
        },
        None => m,
    }
}

/// The literals that unit propagation makes true, in their order: the open
/// literal of the first unit clause, then what propagation makes true once
/// that literal is.
pub open spec fn propagated_literals(f: Seq<Seq<Literal>>, m: Map<VariableId, bool>) -> Seq<Literal>
    decreases open_count(m),
{
    match unit_literal(f, m) {
        Some(l) => {
            proof {
                lemma_unit_literal(f, m);
                lemma_open_insert(m, l.var_id, l.value, 65536);
            }
            seq![l] + propagated_literals(f, m.insert(l.var_id, l.value))
        },
        None => Seq::empty(),
    }
}

/// Whether `l` is open and occurs in a clause that `m` does not satisfy.
pub open spec fn occurs_open(f: Seq<Seq<Literal>>, m: Map<VariableId, bool>, l: Literal) -> bool {
    l.is_free(m) && exists|i: int, j: int|
        0 <= i < f.len() && 0 <= j < f[i].len() && !disjunction_holds(f[i], m) && #[trigger] f[i][j]
            == l
}

/// A pure literal: it occurs in an unsatisfied clause and its negation in
/// none.
pub open spec fn is_pure(f: Seq<Seq<Literal>>, m: Map<VariableId, bool>, l: Literal) -> bool {
    occurs_open(f, m, l) && !occurs_open(f, m, l.negated())
}

/// The assignment after pure-literal elimination: every pure literal is
/// made true.
pub open spec fn with_pure_literals(f: Seq<Seq<Literal>>, m: Map<VariableId, bool>) -> Map<
    VariableId,
    bool,
> {
    Map::new(
        |v: VariableId|
            m.contains_key(v) || is_pure(f, m, Literal { var_id: v, value: true }) || is_pure(
                f,
                m,
                Literal { var_id: v, value: false },
            ),
        |v: VariableId|
            if m.contains_key(v) {
                m[v]
            } else {
                is_pure(f, m, Literal { var_id: v, value: true })
            },
    )
}

/// Making an assignment larger leaves no more variables open, and giving a
/// value to an open variable leaves one fewer open.
pub proof fn lemma_open_insert(m: Map<VariableId, bool>, v: VariableId, b: bool, n: nat)
    ensures
        open_below(m.insert(v, b), n) <= open_below(m, n),
        !m.contains_key(v) && v < n ==> open_below(m.insert(v, b), n) < open_below(m, n),
    decreases n,
{
    if n > 0 {
        lemma_open_insert(m, v, b, (n - 1) as nat);
    }
}

/// An assignment with more variables leaves no more variables open.
pub proof fn lemma_open_monotone(m: Map<VariableId, bool>, larger: Map<VariableId, bool>, n: nat)
    requires
        m.dom().subset_of(larger.dom()),
    ensures
        open_below(larger, n) <= open_below(m, n),
    decreases n,
{
    if n > 0 {
        lemma_open_monotone(m, larger, (n - 1) as nat);
    }
}

/// A clause with open literals has a first one.
pub proof fn lemma_first_free(literals: Seq<Literal>, m: Map<VariableId, bool>, start: int)
    requires
        0 <= start <= literals.len(),
    ensures
        start <= first_free(literals, m, start) <= literals.len(),
        first_free(literals, m, start) < literals.len() ==> literals[first_free(
            literals,
            m,
            start,
        )].is_free(m),
        forall|j: int|
            start <= j < first_free(literals, m, start) ==> !(#[trigger] literals[j]).is_free(m),
    decreases literals.len() - start,
{
    if start < literals.len() && !literals[start].is_free(m) {
        lemma_first_free(literals, m, start + 1);
    }
}

/// Where no literal at or after `start` is open, the count of open literals
/// is that of the literals before `start`.
pub proof fn lemma_free_count_tail(literals: Seq<Literal>, m: Map<VariableId, bool>, start: int, n: int)
    requires
        0 <= start <= n <= literals.len(),
        forall|j: int| start <= j < n ==> !(#[trigger] literals[j]).is_free(m),
    ensures
        crate::solver::clauses::free_count_to(literals, m, n)
            == crate::solver::clauses::free_count_to(literals, m, start),
    decreases n - start,
{
    if start < n {
        lemma_free_count_tail(literals, m, start, n - 1);
    }
}

/// A clause with a positive count of open literals has an open literal.
pub proof fn lemma_free_count_positive(literals: Seq<Literal>, m: Map<VariableId, bool>)
    requires
        free_count(literals, m) > 0,
    ensures
        first_free(literals, m, 0) < literals.len(),
{
    lemma_first_free(literals, m, 0);
    if first_free(literals, m, 0) >= literals.len() {
        lemma_free_count_tail(literals, m, 0, literals.len() as int);
    }
}

/// The first unit clause, if there is one, is a unit clause and no clause
/// before it is.
pub proof fn lemma_find_unit(f: Seq<Seq<Literal>>, m: Map<VariableId, bool>, start: int)
    requires
        0 <= start <= f.len(),
    ensures
        start <= find_unit(f, m, start) <= f.len(),
        find_unit(f, m, start) < f.len() ==> is_unit(f[find_unit(f, m, start)], m),
        forall|i: int| start <= i < find_unit(f, m, start) ==> !is_unit(#[trigger] f[i], m),
    decreases f.len() - start,
{
    if start < f.len() && !is_unit(f[start], m) {
        lemma_find_unit(f, m, start + 1);
    }
}

/// The literal that unit propagation picks is open and stands in a unit
/// clause.
pub proof fn lemma_unit_literal(f: Seq<Seq<Literal>>, m: Map<VariableId, bool>)
    ensures
        unit_literal(f, m) matches Some(l) ==> l.is_free(m) && exists|i: int, j: int|
            0 <= i < f.len() && 0 <= j < f[i].len() && is_unit(f[i], m) && #[trigger] f[i][j] == l,
        unit_literal(f, m) is None ==> forall|i: int|
            0 <= i < f.len() ==> !is_unit(#[trigger] f[i], m),
{
    lemma_find_unit(f, m, 0);
    let i = find_unit(f, m, 0);
    if i < f.len() {
        lemma_free_count_positive(f[i], m);
        lemma_first_free(f[i], m, 0);
        let j = first_free(f[i], m, 0);
        assert(f[i][j] == unit_literal(f, m)->Some_0);
    }
}

/// The budget after one decision has been spent.
pub open spec fn spend(budget: Option<u64>) -> Option<u64> {
    match budget {
        Some(b) => if b > 0 {
            Some((b - 1) as u64)
        } else {
            Some(0u64)
        },
        None => None,
    }
}

/// Every literal is on a variable no larger than `max_id`.
pub open spec fn within(f: Seq<Seq<Literal>>, max_id: VariableId) -> bool {
    forall|i: int, j: int|
        0 <= i < f.len() && 0 <= j < f[i].len() ==> (#[trigger] f[i][j]).var_id <= max_id
}

/// The search from the assignment `m`: unit propagation, pure-literal
/// elimination, the two tests that end a branch, and a decision with the
/// search of both of its branches. The verdict is `Sat` with the assignment
/// found; or `Unsat`, or `Unknown` where the budget of decisions ran out,
/// with the assignment the search began with.
pub open spec fn search(
    f: Seq<Seq<Literal>>,
    m: Map<VariableId, bool>,
    settings: SearchSettings,
    stream: DecisionStream,
) -> Outcome
    decreases open_count(m),
{
    let propagated = propagate(f, m);
    let extended = if settings.skip_pure_literals {
        propagated
    } else {
        with_pure_literals(f, propagated)
    };
    if cnf_holds(f, extended) {
        Outcome { verdict: DpllSolverResult::Sat, model: extended, stream }
    } else if has_falsified(f, extended) {
        Outcome { verdict: DpllSolverResult::Unsat, model: m, stream }
    } else if stream.budget == Some(0u64) {
        Outcome { verdict: DpllSolverResult::Unknown, model: m, stream }
    } else {
        let decision = decide(extended, settings, stream.draws);
        let after = DecisionStream { draws: decision.1, budget: spend(stream.budget) };
        match decision.0 {
            None => Outcome { verdict: DpllSolverResult::Unsat, model: m, stream: after },
            Some(v) => {
                proof {
                    lemma_propagate_extends(f, m);
                    lemma_pure_extends(f, propagated);
                    lemma_decide(extended, settings, stream.draws);
                    lemma_open_monotone(m, extended, 65536);
                    lemma_open_insert(extended, v, true, 65536);
                    lemma_open_insert(extended, v, false, 65536);
                }
                let first = search(f, extended.insert(v, true), settings, after);
                if first.verdict == DpllSolverResult::Sat {
                    first
                } else if first.verdict == DpllSolverResult::Unknown {
                    Outcome { verdict: DpllSolverResult::Unknown, model: m, stream: first.stream }
                } else {
                    let second = search(f, extended.insert(v, false), settings, first.stream);
                    if second.verdict == DpllSolverResult::Sat {
                        second
                    } else {
                        Outcome { verdict: second.verdict, model: m, stream: second.stream }
                    }
                }
            },
        }
    }
}

/// Unit propagation only adds to the assignment.
pub proof fn lemma_propagate_extends(f: Seq<Seq<Literal>>, m: Map<VariableId, bool>)
    ensures
        extends(propagate(f, m), m),
        forall|i: int| 0 <= i < f.len() ==> !is_unit(#[trigger] f[i], propagate(f, m)),
    decreases open_count(m),
{
    lemma_unit_literal(f, m);
    match unit_literal(f, m) {
        Some(l) => {
            let next = m.insert(l.var_id, l.value);
            lemma_open_insert(m, l.var_id, l.value, 65536);
            lemma_propagate_extends(f, next);
            assert(extends(next, m));
            assert(propagate(f, m) == propagate(f, next));
            assert forall|v: VariableId| #[trigger] m.contains_key(v) implies propagate(
                f,
                m,
            ).contains_key(v) && propagate(f, m)[v] == m[v] by {
                assert(next.contains_key(v));
            }
        },
        None => {},
    }
}

/// Pure-literal elimination only adds to the assignment.
pub proof fn lemma_pure_extends(f: Seq<Seq<Literal>>, m: Map<VariableId, bool>)
    ensures
        extends(with_pure_literals(f, m), m),
{
}

/// A literal that holds, or fails, under an assignment does so under every
/// larger one.
pub proof fn lemma_literal_monotone(
    l: Literal,
    m: Map<VariableId, bool>,
    larger: Map<VariableId, bool>,
)
    requires
        extends(larger, m),
    ensures
        l.holds(m) ==> l.holds(larger),
        l.fails(m) ==> l.fails(larger),
{
}

/// Clauses that hold under an assignment hold under every larger one.
pub proof fn lemma_holds_monotone(
    f: Seq<Seq<Literal>>,
    m: Map<VariableId, bool>,
    larger: Map<VariableId, bool>,
)
    requires
        extends(larger, m),
    ensures
        forall|i: int|
            0 <= i < f.len() && disjunction_holds(#[trigger] f[i], m) ==> disjunction_holds(
                f[i],
                larger,
            ),
        cnf_holds(f, m) ==> cnf_holds(f, larger),
{
    assert forall|i: int|
        0 <= i < f.len() && disjunction_holds(#[trigger] f[i], m) implies disjunction_holds(
        f[i],
        larger,
    ) by {
        let j = choose|j: int| 0 <= j < f[i].len() && (#[trigger] f[i][j]).holds(m);
        lemma_literal_monotone(f[i][j], m, larger);
    }
}

/// The count of open literals grows with the number of literals counted,
/// and counts every open literal.
pub proof fn lemma_free_count_grows(
    literals: Seq<Literal>,
    m: Map<VariableId, bool>,
    a: int,
    b: int,
)
    requires
        0 <= a <= b <= literals.len(),
    ensures
        free_count_to(literals, m, a) <= free_count_to(literals, m, b),
        a < b && literals[a].is_free(m) ==> free_count_to(literals, m, a) < free_count_to(
            literals,
            m,
            b,
        ),
    decreases b - a,
{
    if a < b {
        lemma_free_count_grows(literals, m, a, b - 1);
    }
}

/// In a clause with exactly one open literal, two open places are one.
pub proof fn lemma_one_free(literals: Seq<Literal>, m: Map<VariableId, bool>, j: int, k: int)
    requires
        free_count(literals, m) == 1,
        0 <= j < literals.len(),
        0 <= k < literals.len(),
        literals[j].is_free(m),
        literals[k].is_free(m),
    ensures
        j == k,
{
    let n = literals.len() as int;
    if j < k {
        lemma_free_count_grows(literals, m, 0, j);
        lemma_free_count_grows(literals, m, j, k);
        lemma_free_count_grows(literals, m, k, n);
    } else if k < j {
        lemma_free_count_grows(literals, m, 0, k);
        lemma_free_count_grows(literals, m, k, j);
        lemma_free_count_grows(literals, m, j, n);
    }
}

/// In a clause without open literals, no literal is open.
pub proof fn lemma_none_free(literals: Seq<Literal>, m: Map<VariableId, bool>, j: int)
    requires
        free_count(literals, m) == 0,
        0 <= j < literals.len(),
    ensures
        !literals[j].is_free(m),
{
    lemma_free_count_grows(literals, m, 0, j);
    lemma_free_count_grows(literals, m, j, literals.len() as int);
}

/// What unit propagation adds is forced: every assignment that extends `m`
/// and makes all clauses true extends the propagated assignment too.
pub proof fn lemma_propagate_forced(
    f: Seq<Seq<Literal>>,
    m: Map<VariableId, bool>,
    total: Map<VariableId, bool>,
)
    requires
        extends(total, m),
        cnf_holds(f, total),
    ensures
        extends(total, propagate(f, m)),
    decreases open_count(m),
{
    lemma_unit_literal(f, m);
    match unit_literal(f, m) {
        Some(l) => {
            let (i, k) = choose|i: int, k: int|
                0 <= i < f.len() && 0 <= k < f[i].len() && is_unit(f[i], m) && #[trigger] f[i][k]
                    == l;
            let j = choose|j: int| 0 <= j < f[i].len() && (#[trigger] f[i][j]).holds(total);
            if f[i][j].is_free(m) {
                lemma_one_free(f[i], m, j, k);
            } else {
                assert(!f[i][j].holds(m));
                lemma_literal_monotone(f[i][j], m, total);
            }
            assert(l.holds(total));
            let next = m.insert(l.var_id, l.value);
            assert(extends(total, next));
            lemma_open_insert(m, l.var_id, l.value, 65536);
            lemma_propagate_forced(f, next, total);
        },
        None => {},
    }
}

/// Pure-literal elimination is safe: an assignment that extends `m` and
/// makes all clauses true still does so after the pure literals have been
/// made true in it.
pub proof fn lemma_pure_safe(
    f: Seq<Seq<Literal>>,
    m: Map<VariableId, bool>,
    total: Map<VariableId, bool>,
)
    requires
        extends(total, m),
        cnf_holds(f, total),
    ensures
        extends(total.union_prefer_right(with_pure_literals(f, m)), with_pure_literals(f, m)),
        cnf_holds(f, total.union_prefer_right(with_pure_literals(f, m))),
{
    let extended = with_pure_literals(f, m);
    let merged = total.union_prefer_right(extended);
    assert forall|i: int| 0 <= i < f.len() implies disjunction_holds(#[trigger] f[i], merged) by {
        if disjunction_holds(f[i], m) {
            let j = choose|j: int| 0 <= j < f[i].len() && (#[trigger] f[i][j]).holds(m);
            assert(f[i][j].holds(merged));
        } else {
            let j = choose|j: int| 0 <= j < f[i].len() && (#[trigger] f[i][j]).holds(total);
            let x = f[i][j];
            if m.contains_key(x.var_id) {
                assert(x.holds(merged));
            } else if extended.contains_key(x.var_id) {
                assert(occurs_open(f, m, x));
                let positive = Literal { var_id: x.var_id, value: true };
                let negative = Literal { var_id: x.var_id, value: false };
                assert(x == positive || x == negative);
                assert(positive.negated() == negative);
                assert(negative.negated() == positive);
                assert(x.holds(merged));
            } else {
                assert(x.holds(merged));
            }
        }
    }
}

/// The search keeps what was assigned; a verdict of `Sat` comes with an
/// assignment that makes every clause true, and any other verdict with the
/// assignment that the search began with.
pub proof fn lemma_search_sound(
    f: Seq<Seq<Literal>>,
    m: Map<VariableId, bool>,
    settings: SearchSettings,
    stream: DecisionStream,
)
    ensures
        extends(search(f, m, settings, stream).model, m),
        search(f, m, settings, stream).verdict == DpllSolverResult::Sat ==> cnf_holds(
            f,
            search(f, m, settings, stream).model,
        ),
        search(f, m, settings, stream).verdict != DpllSolverResult::Sat ==> search(
            f,
            m,
            settings,
            stream,
        ).model == m,
        search(f, m, settings, stream).verdict == DpllSolverResult::Unknown ==> stream.budget
            is Some,
    decreases open_count(m),
{
    let propagated = propagate(f, m);
    let extended = if settings.skip_pure_literals {
        propagated
    } else {
        with_pure_literals(f, propagated)
    };
    lemma_propagate_extends(f, m);
    lemma_pure_extends(f, propagated);
    assert(extends(extended, m));
    if !cnf_holds(f, extended) && !has_falsified(f, extended) && stream.budget != Some(0u64) {
        let decision = decide(extended, settings, stream.draws);
        let after = DecisionStream { draws: decision.1, budget: spend(stream.budget) };
        if let Some(v) = decision.0 {
            lemma_decide(extended, settings, stream.draws);
            lemma_open_monotone(m, extended, 65536);
            lemma_open_insert(extended, v, true, 65536);
            lemma_open_insert(extended, v, false, 65536);
            lemma_search_sound(f, extended.insert(v, true), settings, after);
            let first = search(f, extended.insert(v, true), settings, after);
            assert(extends(extended.insert(v, true), m));
            if first.verdict == DpllSolverResult::Unsat {
                lemma_search_sound(f, extended.insert(v, false), settings, first.stream);
                assert(extends(extended.insert(v, false), m));
                lemma_search_budget(f, extended.insert(v, true), settings, after);
            }
        }
    }
}

/// A search without a budget leaves the stream without one.
pub proof fn lemma_search_budget(
    f: Seq<Seq<Literal>>,
    m: Map<VariableId, bool>,
    settings: SearchSettings,
    stream: DecisionStream,
)
    ensures
        stream.budget is None <==> search(f, m, settings, stream).stream.budget is None,
    decreases open_count(m),
{
    let propagated = propagate(f, m);
    let extended = if settings.skip_pure_literals {
        propagated
    } else {
        with_pure_literals(f, propagated)
    };
    if !cnf_holds(f, extended) && !has_falsified(f, extended) && stream.budget != Some(0u64) {
        let decision = decide(extended, settings, stream.draws);
        let after = DecisionStream { draws: decision.1, budget: spend(stream.budget) };
        if let Some(v) = decision.0 {
            lemma_propagate_extends(f, m);
            lemma_pure_extends(f, propagated);
            lemma_decide(extended, settings, stream.draws);
            lemma_open_monotone(m, extended, 65536);
            lemma_open_insert(extended, v, true, 65536);
            lemma_open_insert(extended, v, false, 65536);
            lemma_search_budget(f, extended.insert(v, true), settings, after);
            let first = search(f, extended.insert(v, true), settings, after);
            if first.verdict == DpllSolverResult::Unsat {
                lemma_search_budget(f, extended.insert(v, false), settings, first.stream);
            }
        }
    }
}

/// A verdict of `Unsat` is right: no assignment that extends the one the
/// search began with makes every clause true.
pub proof fn lemma_search_complete(
    f: Seq<Seq<Literal>>,
    m: Map<VariableId, bool>,
    settings: SearchSettings,
    stream: DecisionStream,
    total: Map<VariableId, bool>,
)
    requires
        within(f, settings.max_id),
        search(f, m, settings, stream).verdict == DpllSolverResult::Unsat,
        extends(total, m),
    ensures
        !cnf_holds(f, total),
    decreases open_count(m),
{
    if cnf_holds(f, total) {
        let propagated = propagate(f, m);
        let extended = if settings.skip_pure_literals {
            propagated
        } else {
            with_pure_literals(f, propagated)
        };
        lemma_propagate_extends(f, m);
        lemma_pure_extends(f, propagated);
        lemma_propagate_forced(f, m, total);
        let merged = if settings.skip_pure_literals {
            total
        } else {
            total.union_prefer_right(extended)
        };
        if !settings.skip_pure_literals {
            lemma_pure_safe(f, propagated, total);
        }
        assert(extends(merged, extended));
        assert(cnf_holds(f, merged));
        lemma_holds_monotone(f, extended, merged);
        if has_falsified(f, extended) {
            let i = choose|i: int| 0 <= i < f.len() && is_falsified(#[trigger] f[i], extended);
            let j = choose|j: int| 0 <= j < f[i].len() && (#[trigger] f[i][j]).holds(merged);
            lemma_none_free(f[i], extended, j);
            assert(!f[i][j].holds(extended));
            lemma_literal_monotone(f[i][j], extended, merged);
            assert(false);
        } else {
            let decision = decide(extended, settings, stream.draws);
            let after = DecisionStream { draws: decision.1, budget: spend(stream.budget) };
            lemma_decide(extended, settings, stream.draws);
            match decision.0 {
                None => {
                    let i = choose|i: int| 0 <= i < f.len() && !disjunction_holds(
                        #[trigger] f[i],
                        extended,
                    );
                    assert(!is_falsified(f[i], extended));
                    lemma_free_count_positive(f[i], extended);
                    lemma_first_free(f[i], extended, 0);
                    let j = first_free(f[i], extended, 0);
                    assert(f[i][j].var_id <= settings.max_id);
                    assert(false);
                },
                Some(v) => {
                    lemma_open_monotone(m, extended, 65536);
                    lemma_open_insert(extended, v, true, 65536);
                    lemma_open_insert(extended, v, false, 65536);
                    let b = if merged.contains_key(v) {
                        merged[v]
                    } else {
                        true
                    };
                    let larger = merged.insert(v, b);
                    assert(extends(larger, merged));
                    lemma_holds_monotone(f, merged, larger);
                    assert(extends(larger, extended.insert(v, b)));
                    let first = search(f, extended.insert(v, true), settings, after);
                    if b {
                        lemma_search_complete(f, extended.insert(v, true), settings, after, larger);
                    } else {
                        lemma_search_complete(
                            f,
                            extended.insert(v, false),
                            settings,
                            first.stream,
                            larger,
                        );
                    }
                    assert(false);
                },
            }
        }
    }
}

/// A clause that no step of the search reads under `m` or a larger
/// assignment: it has a true literal, or no literal at all.
pub open spec fn is_inert(literals: Seq<Literal>, m: Map<VariableId, bool>) -> bool {
    disjunction_holds(literals, m) || literals.len() == 0
}

/// Two lists of clauses that differ only where both have an inert clause.
pub open spec fn same_open(f: Seq<Seq<Literal>>, g: Seq<Seq<Literal>>, m: Map<VariableId, bool>) -> bool {
    &&& f.len() == g.len()
    &&& forall|i: int|
        0 <= i < f.len() ==> #[trigger] f[i] == g[i] || (is_inert(f[i], m) && is_inert(g[i], m))
}

/// An inert clause is no unit clause, and it stays inert under a larger
/// assignment.
pub proof fn lemma_inert(literals: Seq<Literal>, m: Map<VariableId, bool>, larger: Map<VariableId, bool>)
    requires
        is_inert(literals, m),
        extends(larger, m),
    ensures
        is_inert(literals, larger),
        !is_unit(literals, m),
{
    if disjunction_holds(literals, m) {
        let j = choose|j: int| 0 <= j < literals.len() && (#[trigger] literals[j]).holds(m);
        lemma_literal_monotone(literals[j], m, larger);
    }
}

/// Lists of clauses that differ only in inert clauses have the same first
/// unit clause from every place on.
pub proof fn lemma_same_find_unit(
    f: Seq<Seq<Literal>>,
    g: Seq<Seq<Literal>>,
    m: Map<VariableId, bool>,
    start: int,
)
    requires
        same_open(f, g, m),
        0 <= start <= f.len(),
    ensures
        find_unit(f, m, start) == find_unit(g, m, start),
    decreases f.len() - start,
{
    if start < f.len() {
        assert(f[start] == g[start] || (is_inert(f[start], m) && is_inert(g[start], m)));
        if !(f[start] == g[start]) {
            lemma_inert(f[start], m, m);
            lemma_inert(g[start], m, m);
        }
        lemma_same_find_unit(f, g, m, start + 1);
    }
}

/// Lists of clauses that differ only in inert clauses give the same steps
/// of unit propagation.
pub proof fn lemma_same_propagate(f: Seq<Seq<Literal>>, g: Seq<Seq<Literal>>, m: Map<VariableId, bool>)
    requires
        same_open(f, g, m),
    ensures
        unit_literal(f, m) == unit_literal(g, m),
        propagate(f, m) == propagate(g, m),
        propagated_literals(f, m) == propagated_literals(g, m),
    decreases open_count(m),
{
    lemma_same_find_unit(f, g, m, 0);
    lemma_find_unit(f, m, 0);
    lemma_unit_literal(f, m);
    let i = find_unit(f, m, 0);
    if i < f.len() {
        assert(f[i] == g[i] || (is_inert(f[i], m) && is_inert(g[i], m)));
        if !(f[i] == g[i]) {
            lemma_inert(f[i], m, m);
        }
        let l = unit_literal(f, m)->Some_0;
        let next = m.insert(l.var_id, l.value);
        lemma_open_insert(m, l.var_id, l.value, 65536);
        assert(extends(next, m));
        assert forall|k: int| 0 <= k < f.len() implies #[trigger] f[k] == g[k] || (is_inert(
            f[k],
            next,
        ) && is_inert(g[k], next)) by {
            if !(f[k] == g[k]) {
                lemma_inert(f[k], m, next);
                lemma_inert(g[k], m, next);
            }
        }
        lemma_same_propagate(f, g, next);
    }
}

/// Lists of clauses that differ only in inert clauses have the same pure
/// literals.
pub proof fn lemma_same_pure(f: Seq<Seq<Literal>>, g: Seq<Seq<Literal>>, m: Map<VariableId, bool>)
    requires
        same_open(f, g, m),
    ensures
        forall|l: Literal| #[trigger] occurs_open(f, m, l) == occurs_open(g, m, l),
        forall|l: Literal| #[trigger] is_pure(f, m, l) == is_pure(g, m, l),
        with_pure_literals(f, m) == with_pure_literals(g, m),
{
    assert forall|l: Literal| #[trigger] occurs_open(f, m, l) == occurs_open(g, m, l) by {
        lemma_same_occurs(f, g, m, l);
        lemma_same_occurs(g, f, m, l);
    }
    assert forall|l: Literal| #[trigger] is_pure(f, m, l) == is_pure(g, m, l) by {
        assert(occurs_open(f, m, l) == occurs_open(g, m, l));
        assert(occurs_open(f, m, l.negated()) == occurs_open(g, m, l.negated()));
    }
    assert(with_pure_literals(f, m) =~= with_pure_literals(g, m)) by {
        assert forall|v: VariableId|
            is_pure(f, m, Literal { var_id: v, value: true }) == is_pure(
                g,
                m,
                Literal { var_id: v, value: true },
            ) && is_pure(f, m, Literal { var_id: v, value: false }) == is_pure(
                g,
                m,
                Literal { var_id: v, value: false },
            ) by {}
    }
}

/// A literal that occurs open in one of two lists of clauses that differ
/// only in inert clauses occurs open in the other.
pub proof fn lemma_same_occurs(
    f: Seq<Seq<Literal>>,
    g: Seq<Seq<Literal>>,
    m: Map<VariableId, bool>,
    l: Literal,
)
    requires
        f.len() == g.len(),
        forall|i: int|
            0 <= i < f.len() ==> #[trigger] f[i] == g[i] || (is_inert(f[i], m) && is_inert(g[i], m)),
    ensures
        occurs_open(f, m, l) ==> occurs_open(g, m, l),
{
    if occurs_open(f, m, l) {
        let (a, b) = choose|a: int, b: int|
            0 <= a < f.len() && 0 <= b < f[a].len() && !disjunction_holds(f[a], m)
                && #[trigger] f[a][b] == l;
        assert(f[a] == g[a] || (is_inert(f[a], m) && is_inert(g[a], m)));
        assert(g[a][b] == l);
    }
}

} // verus!
