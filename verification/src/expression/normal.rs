//! Literals, clauses and the transformation of expressions into disjunctive
//! and conjunctive normal form.

use super::expression::{Assignment, Expression, VariableId};
use std::collections::HashMap;
use vstd::prelude::*;

verus! {

/// A variable or its negation: `value` is `true` for the variable itself and
/// `false` for its negation.
#[derive(Debug, Clone, Copy, Hash, PartialEq, Eq, Structural)]
pub struct Literal {
    pub var_id: VariableId,
    pub value: bool,
}

/// A collection of distinct literals, read as their disjunction in a
/// [`CNF`] and as their conjunction in a [`DNF`].
#[derive(Debug, Default, Clone, Hash, PartialEq, Eq)]
pub struct Clause {
    pub literals: Vec<Literal>,
}

/// A disjunction of conjunctive clauses.
#[derive(Debug)]
pub struct DNF {
    pub clauses: Vec<Clause>,
}

/// A conjunction of disjunctive clauses.
#[derive(Debug, Default, Clone)]
pub struct CNF {
    pub clauses: Vec<Clause>,
}

impl Literal {
    /// The literal of the given variable and polarity.
    pub fn new(var_id: VariableId, value: bool) -> (result: Self)
        ensures
            result == (Literal { var_id, value }),
    {
        Self { var_id, value }
    }

    /// The literal of the same variable and the opposite polarity.
    pub open spec fn negated(self) -> Literal {
        Literal { var_id: self.var_id, value: !self.value }
    }

    /// Whether the assignment `m` makes the literal true.
    pub open spec fn holds(self, m: Map<VariableId, bool>) -> bool {
        m.contains_key(self.var_id) && m[self.var_id] == self.value
    }

    /// Whether the assignment `m` makes the literal false.
    pub open spec fn fails(self, m: Map<VariableId, bool>) -> bool {
        m.contains_key(self.var_id) && m[self.var_id] != self.value
    }

    /// Whether the assignment `m` leaves the literal's variable open.
    pub open spec fn is_free(self, m: Map<VariableId, bool>) -> bool {
        !m.contains_key(self.var_id)
    }

    /// The expression that the literal stands for.
    pub open spec fn as_expression(self) -> Expression {
        if self.value {
            Expression::Variable(self.var_id)
        } else {
            Expression::Not(Box::new(Expression::Variable(self.var_id)))
        }
    }

    /// The literal of the same variable and the opposite polarity.
    pub fn not(&self) -> (result: Self)
        ensures
            result == self.negated(),
    {
        Self::new(self.var_id, !self.value)
    }

    /// The identifier of the literal's variable.
    pub fn id(&self) -> (result: VariableId)
        ensures
            result == self.var_id,
    {
        self.var_id
    }
}

/// The literals of `a`, followed by those of `b` that have not occurred
/// before, in their order.
pub open spec fn merge_literals(a: Seq<Literal>, b: Seq<Literal>) -> Seq<Literal>
    decreases b.len(),
{
    if b.len() == 0 {
        a
    } else {
        let front = merge_literals(a, b.drop_last());
        if front.contains(b.last()) {
            front
        } else {
            front.push(b.last())
        }
    }
}

/// Whether some literal of `literals` is true under `m`.
pub open spec fn disjunction_holds(literals: Seq<Literal>, m: Map<VariableId, bool>) -> bool {
    exists|i: int| 0 <= i < literals.len() && (#[trigger] literals[i]).holds(m)
}

/// Whether every literal of `literals` is true under `m`.
pub open spec fn conjunction_holds(literals: Seq<Literal>, m: Map<VariableId, bool>) -> bool {
    forall|i: int| 0 <= i < literals.len() ==> (#[trigger] literals[i]).holds(m)
}

/// Whether `m` makes every clause of a conjunctive normal form true.
pub open spec fn cnf_holds(clauses: Seq<Seq<Literal>>, m: Map<VariableId, bool>) -> bool {
    forall|i: int| 0 <= i < clauses.len() ==> disjunction_holds(#[trigger] clauses[i], m)
}

/// Whether `m` makes some clause of a disjunctive normal form true.
pub open spec fn dnf_holds(clauses: Seq<Seq<Literal>>, m: Map<VariableId, bool>) -> bool {
    exists|i: int| 0 <= i < clauses.len() && conjunction_holds(#[trigger] clauses[i], m)
}

impl View for Clause {
    type V = Seq<Literal>;

    open spec fn view(&self) -> Seq<Literal> {
        self.literals@
    }
}

impl Clause {
    /// No literal occurs twice.
    pub open spec fn wf(&self) -> bool {
        self.literals@.no_duplicates()
    }

    /// A clause of the given literals, each kept once, at its first place.
    pub fn new(literals: Vec<Literal>) -> (result: Self)
        ensures
            result@ == merge_literals(Seq::empty(), literals@),
            result.wf(),
    {
        let mut kept: Vec<Literal> = Vec::new();
        append_new_literals(&mut kept, &literals);
        Self { literals: kept }
    }
}

/// The views of the clauses of a normal form, in their order.
pub open spec fn clause_views(clauses: Seq<Clause>) -> Seq<Seq<Literal>> {
    clauses.map_values(|c: Clause| c@)
}

impl View for DNF {
    type V = Seq<Seq<Literal>>;

    open spec fn view(&self) -> Seq<Seq<Literal>> {
        clause_views(self.clauses@)
    }
}

impl View for CNF {
    type V = Seq<Seq<Literal>>;

    open spec fn view(&self) -> Seq<Seq<Literal>> {
        clause_views(self.clauses@)
    }
}

impl DNF {
    /// No clause holds a literal twice.
    pub open spec fn wf(&self) -> bool {
        forall|i: int| 0 <= i < self.clauses.len() ==> (#[trigger] self.clauses[i]).wf()
    }

    /// The disjunctive normal form of the given clauses.
    pub fn new(clauses: Vec<Clause>) -> (result: Self)
        ensures
            result.clauses == clauses,
    {
        Self { clauses }
    }
}

impl CNF {
    /// No clause holds a literal twice.
    pub open spec fn wf(&self) -> bool {
        forall|i: int| 0 <= i < self.clauses.len() ==> (#[trigger] self.clauses[i]).wf()
    }

    /// The conjunctive normal form of the given clauses.
    pub fn new(clauses: Vec<Clause>) -> (result: Self)
        ensures
            result.clauses == clauses,
    {
        Self { clauses }
    }
}

/// Whether `literal` occurs among `literals`.
pub fn contains_literal(literals: &Vec<Literal>, literal: Literal) -> (found: bool)
    ensures
        found == literals@.contains(literal),
{
    let mut i: usize = 0;
    while i < literals.len()
        invariant
            i <= literals.len(),
            forall|j: int| 0 <= j < i ==> literals@[j] != literal,
        decreases literals.len() - i,
    {
        if literals[i] == literal {
            return true;
        }
        i += 1;
    }
    false
}

/// Appends to `target` the literals of `source` that it does not hold yet.
pub fn append_new_literals(target: &mut Vec<Literal>, source: &Vec<Literal>)
    ensures
        final(target)@ == merge_literals(old(target)@, source@),
        old(target)@.no_duplicates() ==> final(target)@.no_duplicates(),
{
    let mut i: usize = 0;
    while i < source.len()
        invariant
            i <= source.len(),
            target@ == merge_literals(old(target)@, source@.take(i as int)),
            old(target)@.no_duplicates() ==> target@.no_duplicates(),
        decreases source.len() - i,
    {
        let literal = source[i];
        proof {
            assert(source@.take(i + 1).drop_last() == source@.take(i as int));
        }
        if !contains_literal(target, literal) {
            target.push(literal);
        }
        i += 1;
    }
    proof {
        assert(source@.take(source.len() as int) == source@);
    }
}

impl Expression {
    /// The negation normal form of the expression, or of its negation where
    /// `negated` is set: negations are pushed inwards by De Morgan's laws and
    /// double negations are dropped, until every negation stands directly
    /// above a variable; a negated constant is the other constant.
    pub open spec fn nnf_signed(self, negated: bool) -> Expression
        decreases self,
    {
        match self {
            Expression::And(l, r) => if negated {
                Expression::Or(Box::new(l.nnf_signed(true)), Box::new(r.nnf_signed(true)))
            } else {
                Expression::And(Box::new(l.nnf_signed(false)), Box::new(r.nnf_signed(false)))
            },
            Expression::Or(l, r) => if negated {
                Expression::And(Box::new(l.nnf_signed(true)), Box::new(r.nnf_signed(true)))
            } else {
                Expression::Or(Box::new(l.nnf_signed(false)), Box::new(r.nnf_signed(false)))
            },
            Expression::Not(e) => e.nnf_signed(!negated),
            Expression::Constant(value) => Expression::Constant(negated != value),
            Expression::Variable(_) => if negated {
                Expression::Not(Box::new(self))
            } else {
                self
            },
        }
    }

    /// Negation normal form.
    pub open spec fn nnf(self) -> Expression {
        self.nnf_signed(false)
    }

    /// The conjunction of `a` and `b` with the conjunction distributed over
    /// the disjunctions at the top of `b` and of `a`.
    pub open spec fn distribute_and(a: Expression, b: Expression) -> Expression
        decreases a.size() + b.size(),
    {
        match b {
            Expression::Or(bl, br) => Expression::Or(
                Box::new(Expression::distribute_and(a, *bl)),
                Box::new(Expression::distribute_and(a, *br)),
            ),
            _ => match a {
                Expression::Or(al, ar) => Expression::Or(
                    Box::new(Expression::distribute_and(*al, b)),
                    Box::new(Expression::distribute_and(*ar, b)),
                ),
                _ => Expression::And(Box::new(a), Box::new(b)),
            },
        }
    }

    /// The expression with every conjunction distributed over the
    /// disjunctions below it.
    pub open spec fn distributed(self) -> Expression
        decreases self,
    {
        match self {
            Expression::And(l, r) => Expression::distribute_and(l.distributed(), r.distributed()),
            Expression::Or(l, r) => Expression::Or(
                Box::new(l.distributed()),
                Box::new(r.distributed()),
            ),
            Expression::Not(e) => Expression::Not(Box::new(e.distributed())),
            _ => self,
        }
    }

    /// The disjunctive normal form: constants folded, negations pushed to the
    /// leaves, conjunctions distributed over disjunctions.
    pub open spec fn dnf_form(self) -> Expression {
        self.reduce(Map::empty()).nnf().distributed()
    }

    /// The conjunctive normal form, obtained by duality from the disjunctive
    /// normal form of the negated expression.
    pub open spec fn cnf_form(self) -> Expression {
        Expression::Not(Box::new(Expression::Not(Box::new(self)).dnf_form())).nnf()
    }

    /// The literals of a clause-shaped expression, each once, in the order of
    /// their first occurrence. A constant contributes nothing, and a negation
    /// of anything but a variable contributes what stands below it.
    pub open spec fn literal_seq(self) -> Seq<Literal>
        decreases self,
    {
        match self {
            Expression::Variable(v) => seq![Literal { var_id: v, value: true }],
            Expression::Constant(_) => Seq::empty(),
            Expression::And(l, r) => merge_literals(l.literal_seq(), r.literal_seq()),
            Expression::Or(l, r) => merge_literals(l.literal_seq(), r.literal_seq()),
            Expression::Not(e) => match *e {
                Expression::Variable(v) => seq![Literal { var_id: v, value: false }],
                _ => e.literal_seq(),
            },
        }
    }

    /// The clauses of a conjunction of clause-shaped expressions, the
    /// rightmost first. The constant `true` gives no clause, and the
    /// constant `false` the empty clause.
    pub open spec fn cnf_clauses(self) -> Seq<Seq<Literal>>
        decreases self,
    {
        match self {
            Expression::And(l, r) => r.cnf_clauses() + l.cnf_clauses(),
            Expression::Constant(value) => if value {
                Seq::empty()
            } else {
                seq![Seq::empty()]
            },
            _ => seq![self.literal_seq()],
        }
    }

    /// The clauses of a disjunction of clause-shaped expressions, the
    /// rightmost first. The constant `false` gives no clause, and the
    /// constant `true` the empty clause.
    pub open spec fn dnf_clauses(self) -> Seq<Seq<Literal>>
        decreases self,
    {
        match self {
            Expression::Or(l, r) => r.dnf_clauses() + l.dnf_clauses(),
            Expression::Constant(value) => if value {
                seq![Seq::empty()]
            } else {
                Seq::empty()
            },
            _ => seq![self.literal_seq()],
        }
    }

    /// Distributes the conjunction of two expressions over the disjunctions
    /// at their tops.
    pub fn distribute_pair(a: Expression, b: Expression) -> (result: Expression)
        ensures
            result == Expression::distribute_and(a, b),
        decreases a.size() + b.size(),
    {
        match b {
            Expression::Or(inner_lhs, inner_rhs) => {
                let left = Expression::distribute_pair(a.clone(), *inner_lhs);
                let right = Expression::distribute_pair(a, *inner_rhs);
                Expression::Or(Box::new(left), Box::new(right))
            },
            b => match a {
                Expression::Or(inner_lhs, inner_rhs) => {
                    let left = Expression::distribute_pair(*inner_lhs, b.clone());
                    let right = Expression::distribute_pair(*inner_rhs, b);
                    Expression::Or(Box::new(left), Box::new(right))
                },
                a => Expression::And(Box::new(a), Box::new(b)),
            },
        }
    }

    /// Distribute 'And' expressions over 'Or' expressions, as in
    /// `(v0 | v1) & v2 => (v0 & v2) | (v1 & v2)`, until no conjunction stands
    /// above a disjunction.
    pub fn distribute_and_over_or(self) -> (result: Expression)
        ensures
            result == self.distributed(),
        decreases self,
    {
        match self {
            Expression::And(lhs, rhs) => {
                let left = lhs.distribute_and_over_or();
                let right = rhs.distribute_and_over_or();
                Expression::distribute_pair(left, right)
            },
            Expression::Or(lhs, rhs) => Expression::Or(
                Box::new(lhs.distribute_and_over_or()),
                Box::new(rhs.distribute_and_over_or()),
            ),
            Expression::Not(expr) => Expression::Not(Box::new(expr.distribute_and_over_or())),
            other => other,
        }
    }

    /// Move 'Not' expressions inside, as in
    /// `-((v0 | v1) & -v2) => (-v0 & -v1) | v2`.
    pub fn recursive_demorgan(self) -> (result: Expression)
        ensures
            result == self.nnf(),
            result.is_nnf(),
        decreases self.size(),
    {
        proof {
            reveal_with_fuel(Expression::size, 3);
            reveal_with_fuel(Expression::nnf_signed, 3);
            self.lemma_nnf_shape(false);
        }
        match self {
            Expression::And(lhs, rhs) => Expression::And(
                Box::new(lhs.recursive_demorgan()),
                Box::new(rhs.recursive_demorgan()),
            ),
            Expression::Or(lhs, rhs) => Expression::Or(
                Box::new(lhs.recursive_demorgan()),
                Box::new(rhs.recursive_demorgan()),
            ),
            Expression::Not(expr) => match *expr {
                Expression::And(lhs, rhs) => {
                    let inner_lhs = Expression::Not(lhs).recursive_demorgan();
                    let inner_rhs = Expression::Not(rhs).recursive_demorgan();
                    Expression::Or(Box::new(inner_lhs), Box::new(inner_rhs))
                },
                Expression::Or(lhs, rhs) => {
                    let inner_lhs = Expression::Not(lhs).recursive_demorgan();
                    let inner_rhs = Expression::Not(rhs).recursive_demorgan();
                    Expression::And(Box::new(inner_lhs), Box::new(inner_rhs))
                },
                Expression::Not(inner_expr) => inner_expr.recursive_demorgan(),
                Expression::Constant(value) => Expression::Constant(!value),
                other => Expression::Not(Box::new(other)),
            },
            other => other,
        }
    }

    /// Convert `self` into an expression in disjunctive normal form, i.e. a
    /// disjunction of conjunctions.
    pub fn to_dnf_expr(self) -> (result: Expression)
        ensures
            result == self.dnf_form(),
            result.is_nnf(),
            result.is_dnf() || result == self.reduce(Map::empty()) && result is Constant,
            forall|m: Map<VariableId, bool>| #[trigger] result.value(m) == self.value(m),
    {
        proof {
            self.lemma_dnf_shape();
            self.lemma_dnf_is_nnf();
            assert forall|m: Map<VariableId, bool>| #[trigger]
                self.dnf_form().value(m) == self.value(m) by {
                self.lemma_dnf_equivalent(m);
            }
        }
        let reduced = self.evaluate(&Assignment::new(HashMap::new()));
        let nnf = reduced.recursive_demorgan();
        nnf.distribute_and_over_or()
    }

    /// Convert `self` into an expression in conjunctive normal form, i.e. a
    /// conjunction of disjunctions.
    pub fn to_cnf_expr(self) -> (result: Expression)
        ensures
            result == self.cnf_form(),
            result.is_nnf(),
            result.is_cnf() || result == self.reduce(Map::empty()) && result is Constant,
            forall|m: Map<VariableId, bool>| #[trigger] result.value(m) == self.value(m),
    {
        proof {
            self.lemma_cnf_shape();
            self.lemma_cnf_is_nnf();
            assert forall|m: Map<VariableId, bool>| #[trigger]
                self.cnf_form().value(m) == self.value(m) by {
                self.lemma_cnf_equivalent(m);
            }
        }
        let negated_dnf = Expression::Not(Box::new(self)).to_dnf_expr();
        Expression::Not(Box::new(negated_dnf)).recursive_demorgan()
    }

    /// Collect all literals of `self`, each once.
    pub fn collect_literals(&self) -> (result: Vec<Literal>)
        ensures
            result@ == self.literal_seq(),
            result@.no_duplicates(),
        decreases self,
    {
        proof {
            self.lemma_literal_seq_distinct();
        }
        match self {
            Expression::Variable(var) => vec![Literal::new(*var, true)],
            Expression::Constant(_) => Vec::new(),
            Expression::And(lhs, rhs) => {
                let mut literals_lhs = lhs.collect_literals();
                let literals_rhs = rhs.collect_literals();
                append_new_literals(&mut literals_lhs, &literals_rhs);
                literals_lhs
            },
            Expression::Or(lhs, rhs) => {
                let mut literals_lhs = lhs.collect_literals();
                let literals_rhs = rhs.collect_literals();
                append_new_literals(&mut literals_lhs, &literals_rhs);
                literals_lhs
            },
            Expression::Not(expr) => match &**expr {
                Expression::Variable(var) => vec![Literal::new(*var, false)],
                _ => expr.collect_literals(),
            },
        }
    }
}

/// The clauses still to be drawn from a stack of pending conjuncts, those of
/// the top of the stack first.
pub open spec fn pending_cnf_clauses(stack: Seq<Expression>) -> Seq<Seq<Literal>>
    decreases stack.len(),
{
    if stack.len() == 0 {
        Seq::empty()
    } else {
        stack.last().cnf_clauses() + pending_cnf_clauses(stack.drop_last())
    }
}

/// The clauses still to be drawn from a stack of pending disjuncts, those of
/// the top of the stack first.
pub open spec fn pending_dnf_clauses(stack: Seq<Expression>) -> Seq<Seq<Literal>>
    decreases stack.len(),
{
    if stack.len() == 0 {
        Seq::empty()
    } else {
        stack.last().dnf_clauses() + pending_dnf_clauses(stack.drop_last())
    }
}

/// The number of nodes of all expressions on a stack.
pub open spec fn stack_size(stack: Seq<Expression>) -> nat
    decreases stack.len(),
{
    if stack.len() == 0 {
        0
    } else {
        stack.last().size() + stack_size(stack.drop_last())
    }
}

/// Merging into nothing keeps a sequence of distinct literals as it is.
pub proof fn lemma_merge_distinct(s: Seq<Literal>)
    requires
        s.no_duplicates(),
    ensures
        merge_literals(Seq::empty(), s) == s,
    decreases s.len(),
{
    if s.len() > 0 {
        lemma_merge_distinct(s.drop_last());
    }
}

/// Merging keeps a literal exactly if one of the two sequences holds it.
pub proof fn lemma_merge_contains(a: Seq<Literal>, b: Seq<Literal>, x: Literal)
    ensures
        merge_literals(a, b).contains(x) <==> a.contains(x) || b.contains(x),
    decreases b.len(),
{
    if b.len() > 0 {
        lemma_merge_contains(a, b.drop_last(), x);
        let front = merge_literals(a, b.drop_last());
        assert(b.drop_last().push(b.last()) == b);
        if b.contains(x) {
            let i = choose|i: int| 0 <= i < b.len() && b[i] == x;
            if i < b.len() - 1 {
                assert(b.drop_last()[i] == x);
            }
        }
        if b.drop_last().contains(x) {
            let i = choose|i: int| 0 <= i < b.drop_last().len() && b.drop_last()[i] == x;
            assert(b[i] == x);
        }
        if !front.contains(b.last()) {
            assert(front.push(b.last())[front.len() as int] == b.last());
            if front.contains(x) {
                let i = choose|i: int| 0 <= i < front.len() && front[i] == x;
                assert(front.push(b.last())[i] == x);
            }
        }
    }
}

/// Merging two sequences of distinct literals gives distinct literals.
pub proof fn lemma_merge_keeps_distinct(a: Seq<Literal>, b: Seq<Literal>)
    requires
        a.no_duplicates(),
    ensures
        merge_literals(a, b).no_duplicates(),
    decreases b.len(),
{
    if b.len() > 0 {
        lemma_merge_keeps_distinct(a, b.drop_last());
    }
}

impl Expression {
    /// The literals collected from an expression are distinct.
    pub proof fn lemma_literal_seq_distinct(self)
        ensures
            self.literal_seq().no_duplicates(),
        decreases self,
    {
        match self {
            Expression::And(l, r) => {
                l.lemma_literal_seq_distinct();
                lemma_merge_keeps_distinct(l.literal_seq(), r.literal_seq());
            },
            Expression::Or(l, r) => {
                l.lemma_literal_seq_distinct();
                lemma_merge_keeps_distinct(l.literal_seq(), r.literal_seq());
            },
            Expression::Not(e) => {
                e.lemma_literal_seq_distinct();
            },
            _ => {},
        }
    }
}

/// Pushing an expression on a stack of pending conjuncts puts its clauses
/// in front of the pending ones.
pub proof fn lemma_push_pending_cnf(stack: Seq<Expression>, e: Expression)
    ensures
        pending_cnf_clauses(stack.push(e)) == e.cnf_clauses() + pending_cnf_clauses(stack),
        stack_size(stack.push(e)) == e.size() + stack_size(stack),
{
    assert(stack.push(e).drop_last() == stack);
}

/// Pushing an expression on a stack of pending disjuncts puts its clauses
/// in front of the pending ones.
pub proof fn lemma_push_pending_dnf(stack: Seq<Expression>, e: Expression)
    ensures
        pending_dnf_clauses(stack.push(e)) == e.dnf_clauses() + pending_dnf_clauses(stack),
        stack_size(stack.push(e)) == e.size() + stack_size(stack),
{
    assert(stack.push(e).drop_last() == stack);
}

impl vstd::std_specs::convert::FromSpecImpl<Expression> for CNF {
    open spec fn obeys_from_spec() -> bool {
        false
    }

    open spec fn from_spec(v: Expression) -> CNF {
        arbitrary()
    }
}

impl From<Expression> for CNF {
    /// The conjunctive normal form of `value`, one clause for each conjunct;
    /// no clause for an expression that is `true` whatever its variables
    /// are, and the empty clause for one that is `false`.
    fn from(value: Expression) -> (result: CNF)
        ensures
            result@ == value.cnf_form().cnf_clauses(),
            result.wf(),
            forall|m: Map<VariableId, bool>| #[trigger]
                cnf_holds(result@, m) <==> value.value(m) == Some(true),
    {
        let ghost form = value.cnf_form();
        proof {
            assert forall|m: Map<VariableId, bool>| #[trigger]
                cnf_holds(form.cnf_clauses(), m) <==> value.value(m) == Some(true) by {
                value.lemma_cnf_clauses_equivalent(m);
            }
        }
        let cnf_expr = value.to_cnf_expr();
        let mut clauses: Vec<Clause> = Vec::new();
        let mut remaining: Vec<Expression> = Vec::new();
        remaining.push(cnf_expr);
        proof {
            lemma_push_pending_cnf(Seq::empty(), form);
            assert(clause_views(clauses@) + pending_cnf_clauses(remaining@)
                == form.cnf_clauses());
        }
        while remaining.len() > 0
            invariant
                clause_views(clauses@) + pending_cnf_clauses(remaining@) == form.cnf_clauses(),
                forall|i: int| 0 <= i < clauses.len() ==> (#[trigger] clauses[i]).wf(),
            decreases stack_size(remaining@),
        {
            let ghost before = remaining@;
            let ghost drawn = clause_views(clauses@);
            let top = remaining.pop().unwrap();
            let ghost rest = remaining@;
            proof {
                assert(before == rest.push(top));
                lemma_push_pending_cnf(rest, top);
            }
            match top {
                Expression::And(lhs, rhs) => {
                    proof {
                        lemma_push_pending_cnf(rest, *lhs);
                        lemma_push_pending_cnf(rest.push(*lhs), *rhs);
                    }
                    remaining.push(*lhs);
                    remaining.push(*rhs);
                    proof {
                        assert(drawn + pending_cnf_clauses(remaining@) == drawn
                            + pending_cnf_clauses(before));
                    }
                },
                Expression::Constant(value) => {
                    if !value {
                        clauses.push(Clause::new(Vec::new()));
                        proof {
                            assert(clause_views(clauses@) == drawn.push(Seq::<Literal>::empty()));
                        }
                    }
                    proof {
                        assert(clause_views(clauses@) + pending_cnf_clauses(remaining@) == drawn
                            + pending_cnf_clauses(before));
                    }
                },
                other => {
                    let literals = other.collect_literals();
                    proof {
                        other.lemma_literal_seq_distinct();
                        lemma_merge_distinct(literals@);
                    }
                    clauses.push(Clause::new(literals));
                    proof {
                        assert(clause_views(clauses@) == drawn.push(other.literal_seq()));
                        assert(clause_views(clauses@) + pending_cnf_clauses(remaining@) == drawn
                            + pending_cnf_clauses(before));
                    }
                },
            }
        }
        proof {
            assert(clause_views(clauses@) + Seq::<Seq<Literal>>::empty() == clause_views(
                clauses@,
            ));
        }
        CNF::new(clauses)
    }
}

impl vstd::std_specs::convert::FromSpecImpl<Expression> for DNF {
    open spec fn obeys_from_spec() -> bool {
        false
    }

    open spec fn from_spec(v: Expression) -> DNF {
        arbitrary()
    }
}

impl From<Expression> for DNF {
    /// The disjunctive normal form of `value`, one clause for each disjunct.
    fn from(value: Expression) -> (result: DNF)
        ensures
            result@ == value.dnf_form().dnf_clauses(),
            result.wf(),
            forall|m: Map<VariableId, bool>| #[trigger]
                dnf_holds(result@, m) <==> value.value(m) == Some(true),
    {
        let ghost form = value.dnf_form();
        proof {
            assert forall|m: Map<VariableId, bool>| #[trigger]
                dnf_holds(form.dnf_clauses(), m) <==> value.value(m) == Some(true) by {
                value.lemma_dnf_clauses_equivalent(m);
            }
        }
        let dnf_expr = value.to_dnf_expr();
        let mut clauses: Vec<Clause> = Vec::new();
        let mut remaining: Vec<Expression> = Vec::new();
        remaining.push(dnf_expr);
        proof {
            lemma_push_pending_dnf(Seq::empty(), form);
            assert(clause_views(clauses@) + pending_dnf_clauses(remaining@)
                == form.dnf_clauses());
        }
        while remaining.len() > 0
            invariant
                clause_views(clauses@) + pending_dnf_clauses(remaining@) == form.dnf_clauses(),
                forall|i: int| 0 <= i < clauses.len() ==> (#[trigger] clauses[i]).wf(),
            decreases stack_size(remaining@),
        {
            let ghost before = remaining@;
            let ghost drawn = clause_views(clauses@);
            let top = remaining.pop().unwrap();
            let ghost rest = remaining@;
            proof {
                assert(before == rest.push(top));
                lemma_push_pending_dnf(rest, top);
            }
            match top {
                Expression::Or(lhs, rhs) => {
                    proof {
                        lemma_push_pending_dnf(rest, *lhs);
                        lemma_push_pending_dnf(rest.push(*lhs), *rhs);
                    }
                    remaining.push(*lhs);
                    remaining.push(*rhs);
                    proof {
                        assert(drawn + pending_dnf_clauses(remaining@) == drawn
                            + pending_dnf_clauses(before));
                    }
                },
                Expression::Constant(value) => {
                    if value {
                        clauses.push(Clause::new(Vec::new()));
                        proof {
                            assert(clause_views(clauses@) == drawn.push(Seq::<Literal>::empty()));
                        }
                    }
                    proof {
                        assert(clause_views(clauses@) + pending_dnf_clauses(remaining@) == drawn
                            + pending_dnf_clauses(before));
                    }
                },
                other => {
                    let literals = other.collect_literals();
                    proof {
                        other.lemma_literal_seq_distinct();
                        lemma_merge_distinct(literals@);
                    }
                    clauses.push(Clause::new(literals));
                    proof {
                        assert(clause_views(clauses@) == drawn.push(other.literal_seq()));
                        assert(clause_views(clauses@) + pending_dnf_clauses(remaining@) == drawn
                            + pending_dnf_clauses(before));
                    }
                },
            }
        }
        proof {
            assert(clause_views(clauses@) + Seq::<Seq<Literal>>::empty() == clause_views(
                clauses@,
            ));
        }
        DNF::new(clauses)
    }
}

impl Expression {
    /// A variable or the negation of a variable.
    pub open spec fn is_literal(self) -> bool {
        match self {
            Expression::Variable(_) => true,
            Expression::Not(e) => *e is Variable,
            _ => false,
        }
    }

    /// Negations stand only directly above variables.
    pub open spec fn is_nnf(self) -> bool
        decreases self,
    {
        match self {
            Expression::And(l, r) => l.is_nnf() && r.is_nnf(),
            Expression::Or(l, r) => l.is_nnf() && r.is_nnf(),
            Expression::Not(e) => *e is Variable,
            _ => true,
        }
    }

    /// A conjunction of literals.
    pub open spec fn is_conjunction(self) -> bool
        decreases self,
    {
        match self {
            Expression::And(l, r) => l.is_conjunction() && r.is_conjunction(),
            _ => self.is_literal(),
        }
    }

    /// A disjunction of literals.
    pub open spec fn is_disjunction(self) -> bool
        decreases self,
    {
        match self {
            Expression::Or(l, r) => l.is_disjunction() && r.is_disjunction(),
            _ => self.is_literal(),
        }
    }

    /// A disjunction of conjunctions of literals.
    pub open spec fn is_dnf(self) -> bool
        decreases self,
    {
        match self {
            Expression::Or(l, r) => l.is_dnf() && r.is_dnf(),
            _ => self.is_conjunction(),
        }
    }

    /// A conjunction of disjunctions of literals.
    pub open spec fn is_cnf(self) -> bool
        decreases self,
    {
        match self {
            Expression::And(l, r) => l.is_cnf() && r.is_cnf(),
            _ => self.is_disjunction(),
        }
    }
}

/// The disjunction of the literals, built up from the constant `false`.
pub open spec fn clause_expression(literals: Seq<Literal>) -> Expression
    decreases literals.len(),
{
    if literals.len() == 0 {
        Expression::Constant(false)
    } else {
        Expression::Or(
            Box::new(clause_expression(literals.drop_last())),
            Box::new(literals.last().as_expression()),
        )
    }
}

/// The conjunction of the clauses, built up from the constant `true`.
pub open spec fn cnf_expression(clauses: Seq<Seq<Literal>>) -> Expression
    decreases clauses.len(),
{
    if clauses.len() == 0 {
        Expression::Constant(true)
    } else {
        Expression::And(
            Box::new(cnf_expression(clauses.drop_last())),
            Box::new(clause_expression(clauses.last())),
        )
    }
}

impl vstd::std_specs::convert::FromSpecImpl<Literal> for Expression {
    open spec fn obeys_from_spec() -> bool {
        true
    }

    open spec fn from_spec(v: Literal) -> Expression {
        v.as_expression()
    }
}

impl From<Literal> for Expression {
    /// The variable of the literal, or its negation.
    fn from(value: Literal) -> (result: Expression) {
        if value.value == true {
            Expression::Variable(value.var_id)
        } else {
            Expression::Not(Box::new(Expression::Variable(value.var_id)))
        }
    }
}

impl vstd::std_specs::convert::FromSpecImpl<CNF> for Expression {
    open spec fn obeys_from_spec() -> bool {
        true
    }

    open spec fn from_spec(v: CNF) -> Expression {
        cnf_expression(v@)
    }
}

impl From<CNF> for Expression {
    /// The conjunction of the clauses, each the disjunction of its
    /// literals.
    fn from(value: CNF) -> (result: Expression) {
        let mut whole = Expression::Constant(true);
        let mut i: usize = 0;
        while i < value.clauses.len()
            invariant
                i <= value.clauses.len(),
                whole == cnf_expression(value@.take(i as int)),
            decreases value.clauses.len() - i,
        {
            let clause = &value.clauses[i];
            let mut part = Expression::Constant(false);
            let mut j: usize = 0;
            while j < clause.literals.len()
                invariant
                    j <= clause.literals.len(),
                    part == clause_expression(clause@.take(j as int)),
                decreases clause.literals.len() - j,
            {
                proof {
                    assert(clause@.take(j + 1).drop_last() == clause@.take(j as int));
                }
                part = Expression::Or(Box::new(part), Box::new(Expression::from(clause.literals[j])));
                j += 1;
            }
            proof {
                assert(clause@.take(clause.literals.len() as int) == clause@);
                assert(value@.take(i + 1).drop_last() == value@.take(i as int));
            }
            whole = Expression::And(Box::new(whole), Box::new(part));
            i += 1;
        }
        proof {
            assert(value@.take(value.clauses.len() as int) == value@);
        }
        whole
    }
}

} // verus!
