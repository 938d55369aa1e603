//! What holds of partial evaluation and of the normal forms: they keep the
//! value of an expression under every assignment, they have the shape their
//! names promise, and transforming twice changes nothing.

use super::expression::{and3, extends, not3, Expression, VariableId};
use super::normal::{
    clause_expression, cnf_expression, cnf_holds, conjunction_holds, disjunction_holds,
    dnf_holds, lemma_merge_contains, merge_literals, Literal,
};
use vstd::prelude::*;

verus! {

impl Expression {
    /// Under an assignment that covers every variable, the three-valued
    /// value is the truth-table value.
    pub proof fn lemma_value_total(self, m: Map<VariableId, bool>)
        requires
            self.total_under(m),
        ensures
            self.value(m) == Some(self.truth(m)),
        decreases self,
    {
        match self {
            Expression::And(l, r) => {
                l.lemma_value_total(m);
                r.lemma_value_total(m);
            },
            Expression::Or(l, r) => {
                l.lemma_value_total(m);
                r.lemma_value_total(m);
            },
            Expression::Not(e) => {
                e.lemma_value_total(m);
            },
            _ => {},
        }
    }

    /// Partial evaluation ends in a constant exactly where the assignment
    /// decides the value, and then in that value.
    pub proof fn lemma_reduce_decides(self, m: Map<VariableId, bool>)
        ensures
            match self.value(m) {
                Some(c) => self.reduce(m) == Expression::Constant(c),
                None => !(self.reduce(m) is Constant),
            },
        decreases self,
    {
        match self {
            Expression::And(l, r) => {
                l.lemma_reduce_decides(m);
                r.lemma_reduce_decides(m);
            },
            Expression::Or(l, r) => {
                l.lemma_reduce_decides(m);
                r.lemma_reduce_decides(m);
            },
            Expression::Not(e) => {
                e.lemma_reduce_decides(m);
            },
            _ => {},
        }
    }

    /// Under an assignment that covers every variable, partial evaluation
    /// reduces the expression to a single constant, its truth-table value.
    pub proof fn lemma_reduce_total(self, m: Map<VariableId, bool>)
        requires
            self.total_under(m),
        ensures
            self.reduce(m) == Expression::Constant(self.truth(m)),
    {
        self.lemma_value_total(m);
        self.lemma_reduce_decides(m);
    }

    /// What partial evaluation leaves is a single constant or holds no
    /// constant at all; it holds no assigned variable and no new variable.
    pub proof fn lemma_reduce_folds(self, m: Map<VariableId, bool>)
        ensures
            self.reduce(m) is Constant || !self.reduce(m).has_constant(),
            self.reduce(m).variables().subset_of(self.variables()),
            self.reduce(m).variables().disjoint(m.dom()),
        decreases self,
    {
        match self {
            Expression::And(l, r) => {
                l.lemma_reduce_folds(m);
                r.lemma_reduce_folds(m);
            },
            Expression::Or(l, r) => {
                l.lemma_reduce_folds(m);
                r.lemma_reduce_folds(m);
            },
            Expression::Not(e) => {
                e.lemma_reduce_folds(m);
            },
            _ => {},
        }
    }

    /// Partial evaluation under `m0` keeps the value under every assignment
    /// that extends `m0`.
    pub proof fn lemma_reduce_value(self, m0: Map<VariableId, bool>, m: Map<VariableId, bool>)
        requires
            extends(m, m0),
        ensures
            self.reduce(m0).value(m) == self.value(m),
            self.reduce(m0).truth(m) == self.truth(m),
        decreases self,
    {
        match self {
            Expression::Variable(v) => {
                if m0.contains_key(v) {
                    assert(m.contains_key(v) && m[v] == m0[v]);
                }
            },
            Expression::And(l, r) => {
                l.lemma_reduce_value(m0, m);
                r.lemma_reduce_value(m0, m);
            },
            Expression::Or(l, r) => {
                l.lemma_reduce_value(m0, m);
                r.lemma_reduce_value(m0, m);
            },
            Expression::Not(e) => {
                e.lemma_reduce_value(m0, m);
            },
            _ => {},
        }
    }

    /// Folding constants leaves an expression without constants as it is.
    pub proof fn lemma_reduce_identity(self)
        requires
            !self.has_constant(),
        ensures
            self.reduce(Map::empty()) == self,
        decreases self,
    {
        reveal_with_fuel(Expression::has_constant, 2);
        match self {
            Expression::And(l, r) => {
                l.lemma_reduce_identity();
                r.lemma_reduce_identity();
            },
            Expression::Or(l, r) => {
                l.lemma_reduce_identity();
                r.lemma_reduce_identity();
            },
            Expression::Not(e) => {
                e.lemma_reduce_identity();
            },
            _ => {},
        }
    }

    /// Pushing negations inwards keeps the value, or flips it where the
    /// negated form was asked for.
    pub proof fn lemma_nnf_value(self, negated: bool, m: Map<VariableId, bool>)
        ensures
            self.nnf_signed(negated).value(m) == if negated {
                not3(self.value(m))
            } else {
                self.value(m)
            },
            self.nnf_signed(negated).truth(m) == (negated != self.truth(m)),
            self.nnf_signed(negated).variables() == self.variables(),
        decreases self,
    {
        match self {
            Expression::And(l, r) => {
                l.lemma_nnf_value(negated, m);
                r.lemma_nnf_value(negated, m);
            },
            Expression::Or(l, r) => {
                l.lemma_nnf_value(negated, m);
                r.lemma_nnf_value(negated, m);
            },
            Expression::Not(e) => {
                e.lemma_nnf_value(!negated, m);
            },
            _ => {},
        }
    }

    /// Distributing a conjunction over disjunctions keeps its value.
    pub proof fn lemma_distribute_and_value(a: Expression, b: Expression, m: Map<VariableId, bool>)
        ensures
            Expression::distribute_and(a, b).value(m) == and3(a.value(m), b.value(m)),
            Expression::distribute_and(a, b).truth(m) == (a.truth(m) && b.truth(m)),
            Expression::distribute_and(a, b).variables() == a.variables().union(b.variables()),
        decreases a.size() + b.size(),
    {
        match b {
            Expression::Or(bl, br) => {
                Expression::lemma_distribute_and_value(a, *bl, m);
                Expression::lemma_distribute_and_value(a, *br, m);
            },
            _ => match a {
                Expression::Or(al, ar) => {
                    Expression::lemma_distribute_and_value(*al, b, m);
                    Expression::lemma_distribute_and_value(*ar, b, m);
                },
                _ => {},
            },
        }
    }

    /// Distribution keeps the value of an expression.
    pub proof fn lemma_distributed_value(self, m: Map<VariableId, bool>)
        ensures
            self.distributed().value(m) == self.value(m),
            self.distributed().truth(m) == self.truth(m),
            self.distributed().variables() == self.variables(),
        decreases self,
    {
        match self {
            Expression::And(l, r) => {
                l.lemma_distributed_value(m);
                r.lemma_distributed_value(m);
                Expression::lemma_distribute_and_value(l.distributed(), r.distributed(), m);
            },
            Expression::Or(l, r) => {
                l.lemma_distributed_value(m);
                r.lemma_distributed_value(m);
            },
            Expression::Not(e) => {
                e.lemma_distributed_value(m);
            },
            _ => {},
        }
    }

    /// The disjunctive normal form is equivalent to the expression: both
    /// have the same value under every assignment, partial or total, and so
    /// the same truth table.
    pub proof fn lemma_dnf_equivalent(self, m: Map<VariableId, bool>)
        ensures
            self.dnf_form().value(m) == self.value(m),
            self.dnf_form().truth(m) == self.truth(m),
            self.dnf_form().variables().subset_of(self.variables()),
    {
        let folded = self.reduce(Map::empty());
        self.lemma_reduce_value(Map::empty(), m);
        self.lemma_reduce_folds(Map::empty());
        folded.lemma_nnf_value(false, m);
        folded.nnf().lemma_distributed_value(m);
    }

    /// The conjunctive normal form is equivalent to the expression: both
    /// have the same value under every assignment, partial or total, and so
    /// the same truth table.
    pub proof fn lemma_cnf_equivalent(self, m: Map<VariableId, bool>)
        ensures
            self.cnf_form().value(m) == self.value(m),
            self.cnf_form().truth(m) == self.truth(m),
            self.cnf_form().variables().subset_of(self.variables()),
    {
        let negation = Expression::Not(Box::new(self));
        negation.lemma_dnf_equivalent(m);
        Expression::Not(Box::new(negation.dnf_form())).lemma_nnf_value(false, m);
    }
}

impl Expression {
    /// Pushing negations inwards leaves negations only directly above
    /// variables, and it brings no constant into an expression that has
    /// none.
    pub proof fn lemma_nnf_shape(self, negated: bool)
        ensures
            self.nnf_signed(negated).is_nnf(),
            !self.has_constant() ==> !self.nnf_signed(negated).has_constant(),
        decreases self,
    {
        match self {
            Expression::And(l, r) => {
                l.lemma_nnf_shape(negated);
                r.lemma_nnf_shape(negated);
            },
            Expression::Or(l, r) => {
                l.lemma_nnf_shape(negated);
                r.lemma_nnf_shape(negated);
            },
            Expression::Not(e) => {
                e.lemma_nnf_shape(!negated);
            },
            _ => {
                reveal_with_fuel(Expression::has_constant, 2);
            },
        }
    }

    /// Conjunctions, disjunctions and both normal forms are free of
    /// constants and have negations only directly above variables.
    pub proof fn lemma_shapes_are_nnf(self)
        requires
            self.is_conjunction() || self.is_disjunction() || self.is_dnf() || self.is_cnf(),
        ensures
            self.is_nnf(),
            !self.has_constant(),
        decreases self,
    {
        reveal_with_fuel(Expression::has_constant, 2);
        match self {
            Expression::And(l, r) => {
                l.lemma_shapes_are_nnf();
                r.lemma_shapes_are_nnf();
            },
            Expression::Or(l, r) => {
                l.lemma_shapes_are_nnf();
                r.lemma_shapes_are_nnf();
            },
            _ => {},
        }
    }

    /// Distributing the conjunction of two disjunctive normal forms gives a
    /// disjunctive normal form.
    pub proof fn lemma_distribute_and_shape(a: Expression, b: Expression)
        requires
            a.is_dnf(),
            b.is_dnf(),
        ensures
            Expression::distribute_and(a, b).is_dnf(),
        decreases a.size() + b.size(),
    {
        match b {
            Expression::Or(bl, br) => {
                Expression::lemma_distribute_and_shape(a, *bl);
                Expression::lemma_distribute_and_shape(a, *br);
            },
            _ => match a {
                Expression::Or(al, ar) => {
                    Expression::lemma_distribute_and_shape(*al, b);
                    Expression::lemma_distribute_and_shape(*ar, b);
                },
                _ => {},
            },
        }
    }

    /// Distribution turns a negation normal form without constants into a
    /// disjunction of conjunctions of literals.
    pub proof fn lemma_distributed_shape(self)
        requires
            self.is_nnf(),
            !self.has_constant(),
        ensures
            self.distributed().is_dnf(),
        decreases self,
    {
        reveal_with_fuel(Expression::distributed, 2);
        reveal_with_fuel(Expression::is_dnf, 2);
        reveal_with_fuel(Expression::is_conjunction, 2);
        match self {
            Expression::And(l, r) => {
                l.lemma_distributed_shape();
                r.lemma_distributed_shape();
                Expression::lemma_distribute_and_shape(l.distributed(), r.distributed());
            },
            Expression::Or(l, r) => {
                l.lemma_distributed_shape();
                r.lemma_distributed_shape();
            },
            _ => {},
        }
    }

    /// A disjunctive normal form is left as it is by distribution.
    pub proof fn lemma_distributed_fixed(self)
        requires
            self.is_dnf(),
        ensures
            self.distributed() == self,
        decreases self,
    {
        reveal_with_fuel(Expression::distributed, 2);
        reveal_with_fuel(Expression::is_dnf, 2);
        reveal_with_fuel(Expression::is_conjunction, 2);
        match self {
            Expression::And(l, r) => {
                l.lemma_distributed_fixed();
                r.lemma_distributed_fixed();
            },
            Expression::Or(l, r) => {
                l.lemma_distributed_fixed();
                r.lemma_distributed_fixed();
            },
            _ => {},
        }
    }

    /// Negating a normal form and pushing the negation inwards gives the
    /// dual shape.
    pub proof fn lemma_dual_shape(self)
        ensures
            self.is_literal() ==> self.nnf_signed(true).is_literal(),
            self.is_conjunction() ==> self.nnf_signed(true).is_disjunction(),
            self.is_disjunction() ==> self.nnf_signed(true).is_conjunction(),
            self.is_dnf() ==> self.nnf_signed(true).is_cnf(),
            self.is_cnf() ==> self.nnf_signed(true).is_dnf(),
        decreases self,
    {
        reveal_with_fuel(Expression::nnf_signed, 2);
        match self {
            Expression::And(l, r) => {
                l.lemma_dual_shape();
                r.lemma_dual_shape();
            },
            Expression::Or(l, r) => {
                l.lemma_dual_shape();
                r.lemma_dual_shape();
            },
            _ => {},
        }
    }

    /// A negation normal form without constants is its own negation normal
    /// form, and negating it twice gives it back.
    pub proof fn lemma_double_dual(self)
        requires
            self.is_nnf(),
            !self.has_constant(),
        ensures
            self.nnf_signed(false) == self,
            self.nnf_signed(true).nnf_signed(true) == self,
        decreases self,
    {
        reveal_with_fuel(Expression::nnf_signed, 2);
        match self {
            Expression::And(l, r) => {
                l.lemma_double_dual();
                r.lemma_double_dual();
            },
            Expression::Or(l, r) => {
                l.lemma_double_dual();
                r.lemma_double_dual();
            },
            _ => {},
        }
    }

    /// The disjunctive normal form is the constant that the expression folds
    /// to, if it folds to one, and a disjunction of conjunctions of literals
    /// otherwise.
    pub proof fn lemma_dnf_shape(self)
        ensures
            self.reduce(Map::empty()) is Constant ==> self.dnf_form() == self.reduce(Map::empty()),
            !(self.reduce(Map::empty()) is Constant) ==> self.dnf_form().is_dnf(),
    {
        let folded = self.reduce(Map::empty());
        self.lemma_reduce_folds(Map::empty());
        if !(folded is Constant) {
            folded.lemma_nnf_shape(false);
            folded.nnf().lemma_distributed_shape();
        }
    }

    /// The conjunctive normal form is the constant that the expression folds
    /// to, if it folds to one, and a conjunction of disjunctions of literals
    /// otherwise.
    pub proof fn lemma_cnf_shape(self)
        ensures
            self.reduce(Map::empty()) is Constant ==> self.cnf_form() == self.reduce(Map::empty()),
            !(self.reduce(Map::empty()) is Constant) ==> self.cnf_form().is_cnf(),
    {
        let negation = Expression::Not(Box::new(self));
        negation.lemma_dnf_shape();
        reveal_with_fuel(Expression::nnf_signed, 2);
        if !(self.reduce(Map::empty()) is Constant) {
            negation.dnf_form().lemma_dual_shape();
        }
    }

    /// In the disjunctive normal form negations stand only directly above
    /// variables.
    pub proof fn lemma_dnf_is_nnf(self)
        ensures
            self.dnf_form().is_nnf(),
    {
        self.lemma_dnf_shape();
        if !(self.reduce(Map::empty()) is Constant) {
            self.dnf_form().lemma_shapes_are_nnf();
        }
    }

    /// In the conjunctive normal form negations stand only directly above
    /// variables.
    pub proof fn lemma_cnf_is_nnf(self)
        ensures
            self.cnf_form().is_nnf(),
    {
        self.lemma_cnf_shape();
        if !(self.reduce(Map::empty()) is Constant) {
            self.cnf_form().lemma_shapes_are_nnf();
        }
    }

    /// Transforming a disjunctive normal form once more changes nothing.
    pub proof fn lemma_dnf_idempotent(self)
        ensures
            self.dnf_form().dnf_form() == self.dnf_form(),
    {
        let form = self.dnf_form();
        self.lemma_dnf_shape();
        if !(self.reduce(Map::empty()) is Constant) {
            form.lemma_shapes_are_nnf();
            form.lemma_reduce_identity();
            form.lemma_double_dual();
            form.lemma_distributed_fixed();
        }
    }

    /// Transforming a conjunctive normal form once more changes nothing: the
    /// expression is the same, and so are its clauses.
    pub proof fn lemma_cnf_idempotent(self)
        ensures
            self.cnf_form().cnf_form() == self.cnf_form(),
            self.cnf_form().cnf_form().cnf_clauses() == self.cnf_form().cnf_clauses(),
    {
        let form = self.cnf_form();
        self.lemma_cnf_shape();
        reveal_with_fuel(Expression::nnf_signed, 3);
        reveal_with_fuel(Expression::reduce, 3);
        if !(self.reduce(Map::empty()) is Constant) {
            let negation = Expression::Not(Box::new(form));
            form.lemma_shapes_are_nnf();
            assert(!negation.has_constant());
            negation.lemma_reduce_identity();
            form.lemma_dual_shape();
            form.lemma_double_dual();
            form.nnf_signed(true).lemma_distributed_fixed();
            assert(negation.dnf_form() == form.nnf_signed(true));
        } else {
            let c = self.reduce(Map::empty())->Constant_0;
            let negation = Expression::Not(Box::new(form));
            assert(form == Expression::Constant(c));
            assert(negation.reduce(Map::empty()) == Expression::Constant(!c));
            assert(negation.dnf_form() == Expression::Constant(!c));
        }
    }
}

/// A merged sequence of literals holds as a disjunction where one of the two
/// parts does, and as a conjunction where both do.
pub proof fn lemma_merge_holds(a: Seq<Literal>, b: Seq<Literal>, m: Map<VariableId, bool>)
    ensures
        disjunction_holds(merge_literals(a, b), m) <==> disjunction_holds(a, m)
            || disjunction_holds(b, m),
        conjunction_holds(merge_literals(a, b), m) <==> conjunction_holds(a, m)
            && conjunction_holds(b, m),
{
    let merged = merge_literals(a, b);
    assert forall|x: Literal|
        #[trigger] merged.contains(x) <==> a.contains(x) || b.contains(x) by {
        lemma_merge_contains(a, b, x);
    }
    if disjunction_holds(merged, m) {
        let i = choose|i: int| 0 <= i < merged.len() && (#[trigger] merged[i]).holds(m);
        assert(merged.contains(merged[i]));
        if a.contains(merged[i]) {
            let j = choose|j: int| 0 <= j < a.len() && a[j] == merged[i];
            assert(a[j].holds(m));
        } else {
            let j = choose|j: int| 0 <= j < b.len() && b[j] == merged[i];
            assert(b[j].holds(m));
        }
    }
    if disjunction_holds(a, m) {
        let i = choose|i: int| 0 <= i < a.len() && (#[trigger] a[i]).holds(m);
        assert(a.contains(a[i]));
        assert(merged.contains(a[i]));
        let j = choose|j: int| 0 <= j < merged.len() && merged[j] == a[i];
        assert(merged[j].holds(m));
    }
    if disjunction_holds(b, m) {
        let i = choose|i: int| 0 <= i < b.len() && (#[trigger] b[i]).holds(m);
        assert(b.contains(b[i]));
        assert(merged.contains(b[i]));
        let j = choose|j: int| 0 <= j < merged.len() && merged[j] == b[i];
        assert(merged[j].holds(m));
    }
    if conjunction_holds(merged, m) {
        assert forall|i: int| 0 <= i < a.len() implies (#[trigger] a[i]).holds(m) by {
            assert(a.contains(a[i]));
            assert(merged.contains(a[i]));
            let j = choose|j: int| 0 <= j < merged.len() && merged[j] == a[i];
            assert(merged[j].holds(m));
        }
        assert forall|i: int| 0 <= i < b.len() implies (#[trigger] b[i]).holds(m) by {
            assert(b.contains(b[i]));
            assert(merged.contains(b[i]));
            let j = choose|j: int| 0 <= j < merged.len() && merged[j] == b[i];
            assert(merged[j].holds(m));
        }
    }
    if conjunction_holds(a, m) && conjunction_holds(b, m) {
        assert forall|i: int| 0 <= i < merged.len() implies (#[trigger] merged[i]).holds(m) by {
            assert(merged.contains(merged[i]));
            if a.contains(merged[i]) {
                let j = choose|j: int| 0 <= j < a.len() && a[j] == merged[i];
                assert(a[j].holds(m));
            } else {
                let j = choose|j: int| 0 <= j < b.len() && b[j] == merged[i];
                assert(b[j].holds(m));
            }
        }
    }
}

/// A conjunctive normal form made of two parts holds where both parts do.
pub proof fn lemma_cnf_holds_concat(
    a: Seq<Seq<Literal>>,
    b: Seq<Seq<Literal>>,
    m: Map<VariableId, bool>,
)
    ensures
        cnf_holds(a + b, m) <==> cnf_holds(a, m) && cnf_holds(b, m),
{
    let both = a + b;
    if cnf_holds(both, m) {
        assert forall|i: int| 0 <= i < a.len() implies disjunction_holds(#[trigger] a[i], m) by {
            assert(both[i] == a[i]);
        }
        assert forall|i: int| 0 <= i < b.len() implies disjunction_holds(#[trigger] b[i], m) by {
            assert(both[a.len() + i] == b[i]);
        }
    }
    if cnf_holds(a, m) && cnf_holds(b, m) {
        assert forall|i: int| 0 <= i < both.len() implies disjunction_holds(
            #[trigger] both[i],
            m,
        ) by {
            if i < a.len() {
                assert(both[i] == a[i]);
            } else {
                assert(both[i] == b[i - a.len()]);
            }
        }
    }
}

/// A disjunctive normal form made of two parts holds where one part does.
pub proof fn lemma_dnf_holds_concat(
    a: Seq<Seq<Literal>>,
    b: Seq<Seq<Literal>>,
    m: Map<VariableId, bool>,
)
    ensures
        dnf_holds(a + b, m) <==> dnf_holds(a, m) || dnf_holds(b, m),
{
    let both = a + b;
    if dnf_holds(both, m) {
        let i = choose|i: int| 0 <= i < both.len() && conjunction_holds(#[trigger] both[i], m);
        if i < a.len() {
            assert(both[i] == a[i]);
        } else {
            assert(both[i] == b[i - a.len()]);
        }
    }
    if dnf_holds(a, m) {
        let i = choose|i: int| 0 <= i < a.len() && conjunction_holds(#[trigger] a[i], m);
        assert(both[i] == a[i]);
    }
    if dnf_holds(b, m) {
        let i = choose|i: int| 0 <= i < b.len() && conjunction_holds(#[trigger] b[i], m);
        assert(both[a.len() + i] == b[i]);
    }
}

impl Expression {
    /// The literals collected from a disjunction of literals hold as a
    /// disjunction exactly where the expression is true, and those collected
    /// from a conjunction of literals hold as a conjunction exactly where
    /// the expression is true.
    pub proof fn lemma_clause_value(self, m: Map<VariableId, bool>)
        ensures
            self.is_disjunction() ==> (disjunction_holds(self.literal_seq(), m) <==> self.value(m)
                == Some(true)),
            self.is_conjunction() ==> (conjunction_holds(self.literal_seq(), m) <==> self.value(m)
                == Some(true)),
        decreases self,
    {
        reveal_with_fuel(Expression::value, 2);
        match self {
            Expression::Variable(v) => {
                let s = self.literal_seq();
                assert(s[0].holds(m) <==> self.value(m) == Some(true));
            },
            Expression::And(l, r) => {
                l.lemma_clause_value(m);
                r.lemma_clause_value(m);
                lemma_merge_holds(l.literal_seq(), r.literal_seq(), m);
            },
            Expression::Or(l, r) => {
                l.lemma_clause_value(m);
                r.lemma_clause_value(m);
                lemma_merge_holds(l.literal_seq(), r.literal_seq(), m);
            },
            Expression::Not(e) => {
                if *e is Variable {
                    let s = self.literal_seq();
                    assert(s[0].holds(m) <==> self.value(m) == Some(true));
                }
            },
            _ => {},
        }
    }

    /// The clauses of a conjunction of disjunctions of literals all hold
    /// exactly where the expression is true.
    pub proof fn lemma_cnf_clauses_value(self, m: Map<VariableId, bool>)
        requires
            self.is_cnf(),
        ensures
            cnf_holds(self.cnf_clauses(), m) <==> self.value(m) == Some(true),
        decreases self,
    {
        match self {
            Expression::And(l, r) => {
                l.lemma_cnf_clauses_value(m);
                r.lemma_cnf_clauses_value(m);
                lemma_cnf_holds_concat(r.cnf_clauses(), l.cnf_clauses(), m);
            },
            _ => {
                self.lemma_clause_value(m);
                let cs = self.cnf_clauses();
                assert(cs[0] == self.literal_seq());
            },
        }
    }

    /// One of the clauses of a disjunction of conjunctions of literals holds
    /// exactly where the expression is true.
    pub proof fn lemma_dnf_clauses_value(self, m: Map<VariableId, bool>)
        requires
            self.is_dnf(),
        ensures
            dnf_holds(self.dnf_clauses(), m) <==> self.value(m) == Some(true),
        decreases self,
    {
        match self {
            Expression::Or(l, r) => {
                l.lemma_dnf_clauses_value(m);
                r.lemma_dnf_clauses_value(m);
                lemma_dnf_holds_concat(r.dnf_clauses(), l.dnf_clauses(), m);
            },
            _ => {
                self.lemma_clause_value(m);
                let cs = self.dnf_clauses();
                assert(cs[0] == self.literal_seq());
            },
        }
    }

    /// The clauses of the conjunctive normal form all hold under an
    /// assignment exactly where the expression is true under it; under an
    /// assignment that covers every variable, exactly where its truth-table
    /// value is `true`.
    pub proof fn lemma_cnf_clauses_equivalent(self, m: Map<VariableId, bool>)
        ensures
            cnf_holds(self.cnf_form().cnf_clauses(), m) <==> self.value(m) == Some(true),
            self.total_under(m) ==> (cnf_holds(self.cnf_form().cnf_clauses(), m) <==> self.truth(
                m,
            )),
    {
        self.lemma_cnf_shape();
        self.lemma_cnf_equivalent(m);
        if self.total_under(m) {
            self.lemma_value_total(m);
        }
        if self.reduce(Map::empty()) is Constant {
            let cs = self.cnf_form().cnf_clauses();
            if self.reduce(Map::empty()) == Expression::Constant(false) {
                assert(cs[0] == Seq::<Literal>::empty());
            }
            self.lemma_reduce_value(Map::empty(), m);
        } else {
            self.cnf_form().lemma_cnf_clauses_value(m);
        }
    }

    /// One of the clauses of the disjunctive normal form holds under an
    /// assignment exactly where the expression is true under it; under an
    /// assignment that covers every variable, exactly where its truth-table
    /// value is `true`.
    pub proof fn lemma_dnf_clauses_equivalent(self, m: Map<VariableId, bool>)
        ensures
            dnf_holds(self.dnf_form().dnf_clauses(), m) <==> self.value(m) == Some(true),
            self.total_under(m) ==> (dnf_holds(self.dnf_form().dnf_clauses(), m) <==> self.truth(
                m,
            )),
    {
        self.lemma_dnf_shape();
        self.lemma_dnf_equivalent(m);
        if self.total_under(m) {
            self.lemma_value_total(m);
        }
        if self.reduce(Map::empty()) is Constant {
            let cs = self.dnf_form().dnf_clauses();
            if self.reduce(Map::empty()) == Expression::Constant(true) {
                assert(cs[0] == Seq::<Literal>::empty());
            }
            self.lemma_reduce_value(Map::empty(), m);
        } else {
            self.dnf_form().lemma_dnf_clauses_value(m);
        }
    }

    /// Every literal collected from an expression is on one of its
    /// variables.
    pub proof fn lemma_literal_seq_variables(self)
        ensures
            forall|i: int|
                0 <= i < self.literal_seq().len() ==> self.variables().contains(
                    (#[trigger] self.literal_seq()[i]).var_id,
                ),
        decreases self,
    {
        reveal_with_fuel(Expression::variables, 2);
        let s = self.literal_seq();
        match self {
            Expression::Variable(v) => {
                assert(s.len() == 1 && s[0].var_id == v);
                assert(self.variables().contains(v));
            },
            Expression::Constant(_) => {
                assert(s.len() == 0);
            },
            Expression::And(l, r) => {
                l.lemma_literal_seq_variables();
                r.lemma_literal_seq_variables();
                Expression::lemma_merged_variables(*l, *r, self);
            },
            Expression::Or(l, r) => {
                l.lemma_literal_seq_variables();
                r.lemma_literal_seq_variables();
                Expression::lemma_merged_variables(*l, *r, self);
            },
            Expression::Not(e) => {
                e.lemma_literal_seq_variables();
                match *e {
                    Expression::Variable(v) => {
                        assert(s.len() == 1 && s[0].var_id == v);
                        assert(self.variables().contains(v));
                    },
                    _ => {
                        assert(s == e.literal_seq());
                        assert(self.variables() == e.variables());
                    },
                }
            },
        }
        assert forall|i: int| 0 <= i < s.len() implies self.variables().contains(
            (#[trigger] s[i]).var_id,
        ) by {}
    }

    proof fn lemma_merged_variables(l: Expression, r: Expression, whole: Expression)
        requires
            whole.literal_seq() == merge_literals(l.literal_seq(), r.literal_seq()),
            whole.variables() == l.variables().union(r.variables()),
            forall|i: int|
                0 <= i < l.literal_seq().len() ==> l.variables().contains(
                    (#[trigger] l.literal_seq()[i]).var_id,
                ),
            forall|i: int|
                0 <= i < r.literal_seq().len() ==> r.variables().contains(
                    (#[trigger] r.literal_seq()[i]).var_id,
                ),
        ensures
            forall|i: int|
                0 <= i < whole.literal_seq().len() ==> whole.variables().contains(
                    (#[trigger] whole.literal_seq()[i]).var_id,
                ),
    {
        let merged = whole.literal_seq();
        assert forall|i: int| 0 <= i < merged.len() implies whole.variables().contains(
            (#[trigger] merged[i]).var_id,
        ) by {
            lemma_merge_contains(l.literal_seq(), r.literal_seq(), merged[i]);
            assert(merged.contains(merged[i]));
            if l.literal_seq().contains(merged[i]) {
                let j = choose|j: int|
                    0 <= j < l.literal_seq().len() && l.literal_seq()[j] == merged[i];
                assert(l.variables().contains(l.literal_seq()[j].var_id));
            } else {
                let j = choose|j: int|
                    0 <= j < r.literal_seq().len() && r.literal_seq()[j] == merged[i];
                assert(r.variables().contains(r.literal_seq()[j].var_id));
            }
        }
    }

    /// Every literal of every clause drawn from an expression is on one of
    /// its variables.
    pub proof fn lemma_clauses_variables(self)
        ensures
            forall|i: int, j: int|
                0 <= i < self.cnf_clauses().len() && 0 <= j < self.cnf_clauses()[i].len()
                    ==> self.variables().contains((#[trigger] self.cnf_clauses()[i][j]).var_id),
            forall|i: int, j: int|
                0 <= i < self.dnf_clauses().len() && 0 <= j < self.dnf_clauses()[i].len()
                    ==> self.variables().contains((#[trigger] self.dnf_clauses()[i][j]).var_id),
        decreases self,
    {
        self.lemma_literal_seq_variables();
        match self {
            Expression::And(l, r) => {
                l.lemma_clauses_variables();
                r.lemma_clauses_variables();
                let cs = self.cnf_clauses();
                assert forall|i: int, j: int|
                    0 <= i < cs.len() && 0 <= j < cs[i].len() implies self.variables().contains(
                    (#[trigger] cs[i][j]).var_id,
                ) by {
                    if i < r.cnf_clauses().len() {
                        assert(cs[i] == r.cnf_clauses()[i]);
                        assert(r.variables().contains(r.cnf_clauses()[i][j].var_id));
                    } else {
                        let k = i - r.cnf_clauses().len();
                        assert(cs[i] == l.cnf_clauses()[k]);
                        assert(l.variables().contains(l.cnf_clauses()[k][j].var_id));
                    }
                }
            },
            Expression::Or(l, r) => {
                l.lemma_clauses_variables();
                r.lemma_clauses_variables();
                let cs = self.dnf_clauses();
                assert forall|i: int, j: int|
                    0 <= i < cs.len() && 0 <= j < cs[i].len() implies self.variables().contains(
                    (#[trigger] cs[i][j]).var_id,
                ) by {
                    if i < r.dnf_clauses().len() {
                        assert(cs[i] == r.dnf_clauses()[i]);
                        assert(r.variables().contains(r.dnf_clauses()[i][j].var_id));
                    } else {
                        let k = i - r.dnf_clauses().len();
                        assert(cs[i] == l.dnf_clauses()[k]);
                        assert(l.variables().contains(l.dnf_clauses()[k][j].var_id));
                    }
                }
            },
            _ => {},
        }
    }
}

/// The disjunction built from the literals of a clause is true exactly
/// where one of the literals is, and the conjunction built from clauses
/// exactly where every clause holds.
pub proof fn lemma_cnf_expression_value(clauses: Seq<Seq<Literal>>, m: Map<VariableId, bool>)
    ensures
        cnf_expression(clauses).value(m) == Some(true) <==> cnf_holds(clauses, m),
    decreases clauses.len(),
{
    if clauses.len() > 0 {
        let front = clauses.drop_last();
        lemma_cnf_expression_value(front, m);
        lemma_clause_expression_value(clauses.last(), m);
        if cnf_holds(clauses, m) {
            assert forall|i: int| 0 <= i < front.len() implies disjunction_holds(
                #[trigger] front[i],
                m,
            ) by {
                assert(front[i] == clauses[i]);
            }
            assert(disjunction_holds(clauses[clauses.len() - 1], m));
        }
        if cnf_holds(front, m) && disjunction_holds(clauses.last(), m) {
            assert forall|i: int| 0 <= i < clauses.len() implies disjunction_holds(
                #[trigger] clauses[i],
                m,
            ) by {
                if i < front.len() {
                    assert(front[i] == clauses[i]);
                }
            }
        }
    }
}

/// The disjunction built from literals is true exactly where one of the
/// literals is.
pub proof fn lemma_clause_expression_value(literals: Seq<Literal>, m: Map<VariableId, bool>)
    ensures
        clause_expression(literals).value(m) == Some(true) <==> disjunction_holds(literals, m),
    decreases literals.len(),
{
    reveal_with_fuel(Expression::value, 3);
    if literals.len() > 0 {
        let front = literals.drop_last();
        let last = literals.last();
        lemma_clause_expression_value(front, m);
        assert(last.as_expression().value(m) == Some(true) <==> last.holds(m));
        if disjunction_holds(literals, m) {
            let i = choose|i: int| 0 <= i < literals.len() && (#[trigger] literals[i]).holds(m);
            if i < front.len() {
                assert(front[i].holds(m));
            }
        }
        if disjunction_holds(front, m) {
            let i = choose|i: int| 0 <= i < front.len() && (#[trigger] front[i]).holds(m);
            assert(literals[i].holds(m));
        }
        if last.holds(m) {
            assert(literals[literals.len() - 1].holds(m));
        }
    }
}

} // verus!
