//! Pure-literal elimination: a literal whose negation occurs in no
//! unsatisfied clause can be made true without loss.

use crate::expression::expression::{extends, Assignment, VariableId};
use crate::expression::normal::{disjunction_holds, Literal};
use crate::solver::clauses::{holds_one_of, DpllCNF};
use crate::solver::model::{is_pure, occurs_open, with_pure_literals};
use crate::solver::trail::{assign_literal, lemma_records_push, records};
use std::collections::HashSet;
use vstd::prelude::*;
use vstd::std_specs::iter::IteratorSpec;

verus! {

broadcast use vstd::std_specs::hash::group_hash_axioms;

/// Whether `l` is open and occurs in an unsatisfied clause before clause
/// `i`, or in clause `i` before its place `j`.
pub open spec fn occurs_open_before(
    f: Seq<Seq<Literal>>,
    m: Map<VariableId, bool>,
    l: Literal,
    i: int,
    j: int,
) -> bool {
    l.is_free(m) && exists|a: int, b: int|
        0 <= a < f.len() && 0 <= b < f[a].len() && (a < i || (a == i && b < j))
            && !disjunction_holds(f[a], m) && #[trigger] f[a][b] == l
}

/// The two sets of the scan for pure literals say of the part scanned so
/// far which literals occur without their negation, and which with it.
pub open spec fn tracks(
    pure: Set<Literal>,
    impure: Set<Literal>,
    f: Seq<Seq<Literal>>,
    m: Map<VariableId, bool>,
    i: int,
    j: int,
) -> bool {
    &&& forall|l: Literal| #[trigger]
        pure.contains(l) == (occurs_open_before(f, m, l, i, j) && !occurs_open_before(
            f,
            m,
            l.negated(),
            i,
            j,
        ))
    &&& forall|l: Literal| #[trigger]
        impure.contains(l) == (occurs_open_before(f, m, l, i, j) && occurs_open_before(
            f,
            m,
            l.negated(),
            i,
            j,
        ))
}

/// Scanning one more place adds the literal at that place, if it is open and
/// its clause unsatisfied, and nothing else.
pub proof fn lemma_scan_step(
    f: Seq<Seq<Literal>>,
    m: Map<VariableId, bool>,
    l: Literal,
    i: int,
    j: int,
)
    requires
        0 <= i < f.len(),
        0 <= j < f[i].len(),
    ensures
        occurs_open_before(f, m, l, i, j + 1) == (occurs_open_before(f, m, l, i, j) || (l
            == f[i][j] && l.is_free(m) && !disjunction_holds(f[i], m))),
{
    if occurs_open_before(f, m, l, i, j + 1) {
        let (a, b) = choose|a: int, b: int|
            0 <= a < f.len() && 0 <= b < f[a].len() && (a < i || (a == i && b < j + 1))
                && !disjunction_holds(f[a], m) && #[trigger] f[a][b] == l;
        if !(a == i && b == j) {
            assert(f[a][b] == l);
        }
    }
    if occurs_open_before(f, m, l, i, j) {
        let (a, b) = choose|a: int, b: int|
            0 <= a < f.len() && 0 <= b < f[a].len() && (a < i || (a == i && b < j))
                && !disjunction_holds(f[a], m) && #[trigger] f[a][b] == l;
        assert(f[a][b] == l);
    }
    if l == f[i][j] && l.is_free(m) && !disjunction_holds(f[i], m) {
        assert(f[i][j] == l);
    }
}

/// Passing to the next clause adds nothing once the clause is scanned, or
/// if the clause is satisfied.
pub proof fn lemma_scan_next(
    f: Seq<Seq<Literal>>,
    m: Map<VariableId, bool>,
    l: Literal,
    i: int,
    j: int,
)
    requires
        0 <= i < f.len(),
        0 <= j <= f[i].len(),
        j == f[i].len() || disjunction_holds(f[i], m),
    ensures
        occurs_open_before(f, m, l, i + 1, 0) == occurs_open_before(f, m, l, i, j),
{
    if occurs_open_before(f, m, l, i + 1, 0) {
        let (a, b) = choose|a: int, b: int|
            0 <= a < f.len() && 0 <= b < f[a].len() && (a < i + 1 || (a == i + 1 && b < 0))
                && !disjunction_holds(f[a], m) && #[trigger] f[a][b] == l;
        assert(f[a][b] == l);
    }
    if occurs_open_before(f, m, l, i, j) {
        let (a, b) = choose|a: int, b: int|
            0 <= a < f.len() && 0 <= b < f[a].len() && (a < i || (a == i && b < j))
                && !disjunction_holds(f[a], m) && #[trigger] f[a][b] == l;
        assert(f[a][b] == l);
    }
}

/// Once all clauses are scanned, what was seen is what occurs.
pub proof fn lemma_scan_end(f: Seq<Seq<Literal>>, m: Map<VariableId, bool>, l: Literal)
    ensures
        occurs_open_before(f, m, l, f.len() as int, 0) == occurs_open(
            f,
            m,
            l,
        ),
        !occurs_open_before(f, m, l, 0, 0),
{
    if occurs_open_before(f, m, l, f.len() as int, 0) {
        let (a, b) = choose|a: int, b: int|
            0 <= a < f.len() && 0 <= b < f[a].len() && (a < f.len() || (a == f.len() && b < 0))
                && !disjunction_holds(f[a], m) && #[trigger] f[a][b] == l;
        assert(f[a][b] == l);
    }
    if occurs_open(f, m, l) {
        let (a, b) = choose|a: int, b: int|
            0 <= a < f.len() && 0 <= b < f[a].len() && !disjunction_holds(f[a], m)
                && #[trigger] f[a][b] == l;
        assert(f[a][b] == l);
    }
}

/// The number that stands for a literal in a set of literals: twice its
/// variable, and one more for the variable itself.
pub open spec fn literal_code(l: Literal) -> u32 {
    (2 * l.var_id + if l.value {
        1int
    } else {
        0int
    }) as u32
}

/// The literals whose numbers a set holds.
pub open spec fn coded(codes: Set<u32>) -> Set<Literal> {
    Set::new(|l: Literal| codes.contains(literal_code(l)))
}

/// Every number of the set stands for a literal.
pub open spec fn all_codes(codes: Set<u32>) -> bool {
    forall|c: u32| #[trigger] codes.contains(c) ==> c < 131072
}

/// The assignment `m` with the literals of `added` made true.
pub open spec fn with_literals(m: Map<VariableId, bool>, added: Seq<Literal>) -> Map<
    VariableId,
    bool,
> {
    Map::new(
        |v: VariableId|
            m.contains_key(v) || added.contains(Literal { var_id: v, value: true })
                || added.contains(Literal { var_id: v, value: false }),
        |v: VariableId|
            if m.contains_key(v) {
                m[v]
            } else {
                added.contains(Literal { var_id: v, value: true })
            },
    )
}

/// Different literals have different numbers.
pub proof fn lemma_code_injective()
    ensures
        forall|a: Literal, b: Literal|
            #[trigger] literal_code(a) == #[trigger] literal_code(b) ==> a == b,
{
}

/// The number that stands for a literal.
pub fn code_of(literal: Literal) -> (code: u32)
    ensures
        code == literal_code(literal),
        code < 131072,
{
    2 * (literal.var_id as u32) + if literal.value {
        1
    } else {
        0
    }
}

/// The literal that a number stands for.
pub fn literal_of(code: u32) -> (literal: Literal)
    requires
        code < 131072,
    ensures
        literal_code(literal) == code,
{
    Literal::new((code / 2) as VariableId, code % 2 == 1)
}

/// Takes one open literal of an unsatisfied clause into the two sets of the
/// scan: it is a candidate on first sight, and the sight of its negation
/// moves both to the impure literals.
pub fn note_literal(pure: &mut HashSet<u32>, impure: &mut HashSet<u32>, literal: Literal)
    requires
        all_codes(old(pure)@),
        all_codes(old(impure)@),
    ensures
        all_codes(final(pure)@),
        all_codes(final(impure)@),
        coded(old(pure)@).contains(literal.negated()) ==> coded(final(pure)@) == coded(
            old(pure)@,
        ).remove(literal.negated()) && coded(final(impure)@) == coded(old(impure)@).insert(
            literal,
        ).insert(literal.negated()),
        !coded(old(pure)@).contains(literal.negated()) && !coded(old(impure)@).contains(literal)
            ==> coded(final(pure)@) == coded(old(pure)@).insert(literal) && coded(final(impure)@)
            == coded(old(impure)@),
        !coded(old(pure)@).contains(literal.negated()) && coded(old(impure)@).contains(literal)
            ==> coded(final(pure)@) == coded(old(pure)@) && coded(final(impure)@) == coded(
            old(impure)@,
        ),
{
    proof {
        lemma_code_injective();
    }
    let code = code_of(literal);
    let negated = code_of(literal.not());
    if pure.contains(&negated) {
        pure.remove(&negated);
        impure.insert(code);
        impure.insert(negated);
        proof {
            assert(coded(pure@) =~= coded(old(pure)@).remove(literal.negated()));
            assert(coded(impure@) =~= coded(old(impure)@).insert(literal).insert(
                literal.negated(),
            ));
        }
    } else if !impure.contains(&code) {
        pure.insert(code);
        proof {
            assert(coded(pure@) =~= coded(old(pure)@).insert(literal));
        }
    }
}

/// The literals that occur open in the enabled clauses without their
/// negation, by their numbers.
pub fn find_pure_literals(cnf: &DpllCNF, assignment: &Assignment) -> (result: HashSet<u32>)
    requires
        cnf.sound_under(assignment@),
    ensures
        all_codes(result@),
        forall|l: Literal| #[trigger]
            coded(result@).contains(l) == is_pure(cnf.shown(), assignment@, l),
{
    let ghost f = cnf.shown();
    let ghost m = assignment@;
    let mut pure_literals: HashSet<u32> = HashSet::new();
    let mut impure_literals: HashSet<u32> = HashSet::new();
    proof {
        assert forall|l: Literal| !occurs_open_before(f, m, l, 0, 0) by {
            lemma_scan_end(f, m, l);
        }
    }
    let mut i: usize = 0;
    while i < cnf.clauses.len()
        invariant
            i <= cnf.clauses.len(),
            f == cnf.shown(),
            m == assignment@,
            cnf.sound_under(m),
            all_codes(pure_literals@),
            all_codes(impure_literals@),
            tracks(coded(pure_literals@), coded(impure_literals@), f, m, i as int, 0),
        decreases cnf.clauses.len() - i,
    {
        let clause = &cnf.clauses[i];
        assert(f[i as int] == if clause.is_disabled {
            Seq::<Literal>::empty()
        } else {
            clause.literals@
        });
        let mut j: usize = 0;
        if !clause.is_disabled {
            while j < clause.literals.len()
                invariant
                    j <= clause.literals.len(),
                    i < cnf.clauses.len(),
                    f == cnf.shown(),
                    m == assignment@,
                    f[i as int] == clause.literals@,
                    !disjunction_holds(f[i as int], m),
                    all_codes(pure_literals@),
                    all_codes(impure_literals@),
                    tracks(
                        coded(pure_literals@),
                        coded(impure_literals@),
                        f,
                        m,
                        i as int,
                        j as int,
                    ),
                decreases clause.literals.len() - j,
            {
                let literal = clause.literals[j];
                let ghost pure_before = coded(pure_literals@);
                let ghost impure_before = coded(impure_literals@);
                if !assignment.values.contains_key(&literal.var_id) {
                    note_literal(&mut pure_literals, &mut impure_literals, literal);
                }
                proof {
                    assert(f[i as int][j as int] == literal);
                    assert(literal.negated().negated() == literal);
                    assert(pure_before.contains(literal) == (occurs_open_before(
                        f,
                        m,
                        literal,
                        i as int,
                        j as int,
                    ) && !occurs_open_before(f, m, literal.negated(), i as int, j as int)));
                    assert(pure_before.contains(literal.negated()) == (occurs_open_before(
                        f,
                        m,
                        literal.negated(),
                        i as int,
                        j as int,
                    ) && !occurs_open_before(f, m, literal, i as int, j as int)));
                    assert(impure_before.contains(literal) == (occurs_open_before(
                        f,
                        m,
                        literal,
                        i as int,
                        j as int,
                    ) && occurs_open_before(f, m, literal.negated(), i as int, j as int)));
                    assert forall|l: Literal| #[trigger]
                        coded(pure_literals@).contains(l) == (occurs_open_before(
                            f,
                            m,
                            l,
                            i as int,
                            j + 1,
                        ) && !occurs_open_before(f, m, l.negated(), i as int, j + 1)) by {
                        lemma_scan_step(f, m, l, i as int, j as int);
                        lemma_scan_step(f, m, l.negated(), i as int, j as int);
                        assert(pure_before.contains(l) == (occurs_open_before(
                            f,
                            m,
                            l,
                            i as int,
                            j as int,
                        ) && !occurs_open_before(f, m, l.negated(), i as int, j as int)));
                        assert(l.negated().negated() == l);
                    }
                    assert forall|l: Literal| #[trigger]
                        coded(impure_literals@).contains(l) == (occurs_open_before(
                            f,
                            m,
                            l,
                            i as int,
                            j + 1,
                        ) && occurs_open_before(f, m, l.negated(), i as int, j + 1)) by {
                        lemma_scan_step(f, m, l, i as int, j as int);
                        lemma_scan_step(f, m, l.negated(), i as int, j as int);
                        assert(impure_before.contains(l) == (occurs_open_before(
                            f,
                            m,
                            l,
                            i as int,
                            j as int,
                        ) && occurs_open_before(f, m, l.negated(), i as int, j as int)));
                        assert(l.negated().negated() == l);
                    }
                }
                j += 1;
            }
        }
        proof {
            assert forall|l: Literal|
                occurs_open_before(f, m, l, i + 1, 0) == occurs_open_before(
                    f,
                    m,
                    l,
                    i as int,
                    j as int,
                ) by {
                lemma_scan_next(f, m, l, i as int, j as int);
            }
        }
        i += 1;
    }
    proof {
        assert forall|l: Literal| #[trigger]
            coded(pure_literals@).contains(l) == is_pure(f, m, l) by {
            lemma_scan_end(f, m, l);
            lemma_scan_end(f, m, l.negated());
        }
    }
    pure_literals
}

/// Where no enabled clause holds a true literal, a literal is pure in the
/// clauses shown exactly if its variable is open, it occurs in an enabled
/// clause and its negation occurs in none.
pub proof fn lemma_pure_by_flags(cnf: DpllCNF, m: Map<VariableId, bool>, l: Literal)
    requires
        cnf.sound_under(m),
    ensures
        is_pure(cnf.shown(), m, l) == cnf.pure_in(m, l),
{
    lemma_occurs_by_flags(cnf, m, l);
    lemma_occurs_by_flags(cnf, m, l.negated());
}

/// Where no enabled clause holds a true literal, a literal with an open
/// variable occurs open in the clauses shown exactly if it occurs in an
/// enabled clause.
pub proof fn lemma_occurs_by_flags(cnf: DpllCNF, m: Map<VariableId, bool>, l: Literal)
    requires
        cnf.sound_under(m),
    ensures
        occurs_open(cnf.shown(), m, l) == (l.is_free(m) && cnf.occurs_enabled(l)),
{
    let f = cnf.shown();
    if occurs_open(f, m, l) {
        let (a, b) = choose|a: int, b: int|
            0 <= a < f.len() && 0 <= b < f[a].len() && !disjunction_holds(f[a], m)
                && #[trigger] f[a][b] == l;
        assert(!cnf.clauses[a].is_disabled);
        assert(cnf.clauses[a].literals@[b] == l);
    }
    if l.is_free(m) && cnf.occurs_enabled(l) {
        let (i, j) = choose|i: int, j: int|
            0 <= i < cnf.clauses.len() && 0 <= j < cnf.clauses[i].literals@.len()
                && !cnf.clauses[i].is_disabled && #[trigger] cnf.clauses[i].literals@[j] == l;
        assert(f[i] == cnf.clauses[i].literals@);
        assert(f[i][j] == l);
    }
}

/// Pure-literal elimination: every literal that occurs open in an enabled
/// clause, and whose negation does not, is made true and added to the
/// trail. The trail keeps what it held and gets exactly the pure literals,
/// each once, in the order in which the set of pure literals hands them
/// out.
///
/// It is enough that no enabled clause holds a true literal. Where each
/// disabled clause holds one as well, as in the search, that stays so.
pub fn eliminate_pure_literals(
    cnf: &mut DpllCNF,
    assignment: &mut Assignment,
    new_assignments: &mut Vec<Literal>,
)
    requires
        old(cnf).sound_under(old(assignment)@),
    ensures
        final(cnf).formula() == old(cnf).formula(),
        final(cnf).sound_under(final(assignment)@),
        old(cnf).consistent_with(old(assignment)@) ==> final(cnf).consistent_with(
            final(assignment)@,
        ),
        final(assignment)@ == with_pure_literals(old(cnf).shown(), old(assignment)@),
        old(new_assignments)@.is_prefix_of(final(new_assignments)@),
        final(new_assignments)@.skip(old(new_assignments)@.len() as int).no_duplicates(),
        forall|l: Literal|
            #[trigger] final(new_assignments)@.skip(old(new_assignments)@.len() as int).contains(l)
                <==> old(cnf).pure_in(old(assignment)@, l),
        extends(final(assignment)@, old(assignment)@),
        forall|k: int|
            old(new_assignments)@.len() <= k < final(new_assignments)@.len() ==> (
            #[trigger] final(new_assignments)@[k]).is_free(old(assignment)@)
                && final(new_assignments)@[k].holds(final(assignment)@),
        final(cnf).clauses.len() == old(cnf).clauses.len(),
        forall|i: int|
            0 <= i < old(cnf).clauses.len() ==> (#[trigger] final(cnf).clauses[i]).literals
                == old(cnf).clauses[i].literals && final(cnf).clauses[i].is_disabled == (old(
                cnf,
            ).clauses[i].is_disabled || holds_one_of(
                old(cnf).clauses[i].literals@,
                final(new_assignments)@.skip(old(new_assignments)@.len() as int),
            )),
        forall|base: Map<VariableId, bool>| #[trigger]
            records(base, old(new_assignments)@, old(assignment)@) ==> records(
                base,
                final(new_assignments)@,
                final(assignment)@,
            ),
{
    let ghost f = cnf.shown();
    let ghost m = assignment@;
    let ghost trail_before = new_assignments@;
    let ghost mut added: Seq<Literal> = Seq::empty();
    let pure_literals = find_pure_literals(cnf, assignment);
    proof {
        lemma_code_injective();
        assert(assignment@ =~= with_literals(m, added));
        assert(new_assignments@ =~= trail_before + added);
        assert forall|l: Literal| is_pure(f, m, l) implies exists|k: int|
            0 <= k < pure_literals.iter().remaining().len() && *(
            #[trigger] pure_literals.iter().remaining()[k]) == literal_code(l) by {
            let keys = pure_literals.iter().remaining();
            assert(coded(pure_literals@).contains(l));
            assert(keys.unref().to_set().contains(literal_code(l)));
            let k = choose|k: int| 0 <= k < keys.unref().len() && keys.unref()[k] == literal_code(l);
            assert(*keys[k] == literal_code(l));
        }
    }
    for code in it: pure_literals.iter()
        invariant
            cnf.formula() == old(cnf).formula(),
            f == old(cnf).shown(),
            cnf.clauses.len() == old(cnf).clauses.len(),
            cnf.sound_under(assignment@),
            old(cnf).consistent_with(m) ==> cnf.consistent_with(assignment@),
            all_codes(pure_literals@),
            it.seq() == pure_literals.iter().remaining(),
            forall|l: Literal| #[trigger] coded(pure_literals@).contains(l) == is_pure(f, m, l),
            added.len() == it.index(),
            forall|k: int| 0 <= k < added.len() ==> literal_code(#[trigger] added[k]) == *it.seq()[k],
            forall|k: int| 0 <= k < added.len() ==> is_pure(f, m, #[trigger] added[k]),
            forall|l: Literal|
                is_pure(f, m, l) ==> added.contains(l) || exists|k: int|
                    it.index() <= k < it.seq().len() && *(#[trigger] it.seq()[k]) == literal_code(
                        l,
                    ),
            new_assignments@ == trail_before + added,
            trail_before == old(new_assignments)@,
            assignment@ == with_literals(m, added),
            m == old(assignment)@,
            forall|i: int|
                0 <= i < cnf.clauses.len() ==> (#[trigger] cnf.clauses[i]).literals == old(
                    cnf,
                ).clauses[i].literals && cnf.clauses[i].is_disabled == (old(
                    cnf,
                ).clauses[i].is_disabled || holds_one_of(old(cnf).clauses[i].literals@, added)),
            forall|base: Map<VariableId, bool>| #[trigger]
                records(base, old(new_assignments)@, old(assignment)@) ==> records(
                    base,
                    new_assignments@,
                    assignment@,
                ),
    {
        let ghost at = it.index();
        let ghost keys = it.seq();
        let ghost before = assignment@;
        let ghost trail = new_assignments@;
        let ghost earlier = added;
        let ghost flags = *cnf;
        proof {
            assert(keys[at] == code);
            assert(keys.unref().to_set() == pure_literals@);
            assert(keys.unref()[at] == *code);
            assert(pure_literals@.contains(*code));
        }
        let literal = literal_of(*code);
        proof {
            assert(coded(pure_literals@).contains(literal));
            assert(is_pure(f, m, literal));
            // no literal of this variable was added before
            assert forall|k: int| 0 <= k < earlier.len() implies (#[trigger] earlier[k]).var_id
                != literal.var_id by {
                assert(*keys[k] != *keys[at]);
                assert(is_pure(f, m, earlier[k]));
                if earlier[k].var_id == literal.var_id {
                    assert(earlier[k] == literal.negated());
                }
            }
            assert(literal.is_free(before));
            added = added.push(literal);
        }
        assign_literal(cnf, assignment, literal);
        new_assignments.push(literal);
        proof {
            assert(new_assignments@ =~= trail_before + added);
            assert forall|x: Literal| added.contains(x) <==> earlier.contains(x) || x == literal by {
                if earlier.contains(x) {
                    let k = choose|k: int| 0 <= k < earlier.len() && earlier[k] == x;
                    assert(added[k] == x);
                }
                if x == literal {
                    assert(added[earlier.len() as int] == x);
                }
                if added.contains(x) {
                    let k = choose|k: int| 0 <= k < added.len() && added[k] == x;
                    if k < earlier.len() {
                        assert(earlier[k] == x);
                    }
                }
            }
            assert(!earlier.contains(literal.negated())) by {
                if earlier.contains(literal.negated()) {
                    let k = choose|k: int| 0 <= k < earlier.len() && earlier[k] == literal.negated();
                    assert(earlier[k].var_id != literal.var_id);
                }
            }
            assert(literal.negated().negated() == literal);
            assert(assignment@ =~= with_literals(m, added));
            assert forall|l: Literal| is_pure(f, m, l) implies added.contains(l) || exists|k: int|
                at + 1 <= k < keys.len() && *(#[trigger] keys[k]) == literal_code(l) by {
                if !earlier.contains(l) {
                    let k = choose|k: int|
                        at <= k < keys.len() && *(#[trigger] keys[k]) == literal_code(l);
                    if k == at {
                        assert(l == literal);
                    }
                }
            }
            assert forall|i: int| 0 <= i < cnf.clauses.len() implies (#[trigger] cnf.clauses[i]).literals
                == old(cnf).clauses[i].literals && cnf.clauses[i].is_disabled == (old(
                cnf,
            ).clauses[i].is_disabled || holds_one_of(old(cnf).clauses[i].literals@, added)) by {
                let c = old(cnf).clauses[i].literals@;
                assert(flags.clauses[i].literals == old(cnf).clauses[i].literals);
                if holds_one_of(c, earlier) {
                    let k = choose|k: int| 0 <= k < earlier.len() && c.contains(#[trigger] earlier[k]);
                    assert(c.contains(added[k]));
                }
                if c.contains(literal) {
                    assert(c.contains(added[earlier.len() as int]));
                }
                if holds_one_of(c, added) {
                    let k = choose|k: int| 0 <= k < added.len() && c.contains(#[trigger] added[k]);
                    if k < earlier.len() {
                        assert(c.contains(earlier[k]));
                    }
                }
            }
            assert forall|base: Map<VariableId, bool>| #[trigger]
                records(base, old(new_assignments)@, old(assignment)@) implies records(
                base,
                new_assignments@,
                assignment@,
            ) by {
                lemma_records_push(base, trail, before, literal);
            }
        }
    }
    proof {
        assert forall|l: Literal| added.contains(l) <==> is_pure(f, m, l) by {
            if added.contains(l) {
                let k = choose|k: int| 0 <= k < added.len() && added[k] == l;
                assert(is_pure(f, m, added[k]));
            }
        }
        assert(assignment@ =~= with_pure_literals(f, m));
        assert(new_assignments@.skip(trail_before.len() as int) =~= added);
        assert forall|l: Literal| is_pure(f, m, l) == old(cnf).pure_in(m, l) by {
            lemma_pure_by_flags(*old(cnf), m, l);
        }
        assert forall|k: int|
            trail_before.len() <= k < new_assignments@.len() implies (
        #[trigger] new_assignments@[k]).is_free(m) && new_assignments@[k].holds(assignment@) by {
            let l = added[k - trail_before.len()];
            assert(new_assignments@[k] == l);
            assert(is_pure(f, m, l));
            assert(added.contains(l));
        }
        assert(added.no_duplicates()) by {
            assert forall|j: int, k: int| 0 <= j < added.len() && 0 <= k < added.len() && j
                != k implies added[j] != added[k] by {
                assert(literal_code(added[j]) != literal_code(added[k]));
            }
        }
    }
}

} // verus!
