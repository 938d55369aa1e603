//! Expressions over named variables, assignments of truth values to
//! variables, and partial evaluation of an expression under an assignment.

use std::collections::HashMap;
use vstd::prelude::*;

verus! {

broadcast use vstd::std_specs::hash::group_hash_axioms;

/// Identifier of a propositional variable.
pub type VariableId = u16;

/// A Boolean expression.
#[derive(Debug)]
pub enum Expression {
    Variable(VariableId),
    Constant(bool),
    And(Box<Expression>, Box<Expression>),
    Or(Box<Expression>, Box<Expression>),
    Not(Box<Expression>),
}

/// A partial mapping from variables to truth values.
#[derive(Debug)]
pub struct Assignment {
    pub values: HashMap<VariableId, bool>,
}

impl View for Assignment {
    type V = Map<VariableId, bool>;

    open spec fn view(&self) -> Map<VariableId, bool> {
        self.values@
    }
}

/// Whether `larger` gives every variable of `m` the value that `m` gives it.
pub open spec fn extends(larger: Map<VariableId, bool>, m: Map<VariableId, bool>) -> bool {
    forall|v: VariableId| #[trigger] m.contains_key(v) ==> larger.contains_key(v) && larger[v] == m[v]
}

/// Conjunction in three-valued logic: `None` stands for "not yet known".
pub open spec fn and3(a: Option<bool>, b: Option<bool>) -> Option<bool> {
    if a == Some(false) || b == Some(false) {
        Some(false)
    } else if a == Some(true) && b == Some(true) {
        Some(true)
    } else {
        None
    }
}

/// Disjunction in three-valued logic.
pub open spec fn or3(a: Option<bool>, b: Option<bool>) -> Option<bool> {
    if a == Some(true) || b == Some(true) {
        Some(true)
    } else if a == Some(false) && b == Some(false) {
        Some(false)
    } else {
        None
    }
}

/// Negation in three-valued logic.
pub open spec fn not3(a: Option<bool>) -> Option<bool> {
    match a {
        Some(b) => Some(!b),
        None => None,
    }
}

impl Expression {
    /// Number of nodes of the expression tree.
    pub open spec fn size(self) -> nat
        decreases self,
    {
        match self {
            Expression::Variable(_) => 1,
            Expression::Constant(_) => 1,
            Expression::And(l, r) => 1 + l.size() + r.size(),
            Expression::Or(l, r) => 1 + l.size() + r.size(),
            Expression::Not(e) => 1 + e.size(),
        }
    }

    /// The variables that occur in the expression.
    pub open spec fn variables(self) -> Set<VariableId>
        decreases self,
    {
        match self {
            Expression::Variable(v) => set![v],
            Expression::Constant(_) => Set::empty(),
            Expression::And(l, r) => l.variables().union(r.variables()),
            Expression::Or(l, r) => l.variables().union(r.variables()),
            Expression::Not(e) => e.variables(),
        }
    }

    /// Whether a constant occurs anywhere in the expression.
    pub open spec fn has_constant(self) -> bool
        decreases self,
    {
        match self {
            Expression::Variable(_) => false,
            Expression::Constant(_) => true,
            Expression::And(l, r) => l.has_constant() || r.has_constant(),
            Expression::Or(l, r) => l.has_constant() || r.has_constant(),
            Expression::Not(e) => e.has_constant(),
        }
    }

    /// Whether `m` gives a value to every variable of the expression.
    pub open spec fn total_under(self, m: Map<VariableId, bool>) -> bool {
        self.variables().subset_of(m.dom())
    }

    /// The truth-table value of the expression under `m`, read as a total
    /// valuation.
    pub open spec fn truth(self, m: Map<VariableId, bool>) -> bool
        decreases self,
    {
        match self {
            Expression::Variable(v) => m[v],
            Expression::Constant(c) => c,
            Expression::And(l, r) => l.truth(m) && r.truth(m),
            Expression::Or(l, r) => l.truth(m) || r.truth(m),
            Expression::Not(e) => !e.truth(m),
        }
    }

    /// The value of the expression under the partial assignment `m`, as far
    /// as `m` decides it.
    pub open spec fn value(self, m: Map<VariableId, bool>) -> Option<bool>
        decreases self,
    {
        match self {
            Expression::Variable(v) => if m.contains_key(v) {
                Some(m[v])
            } else {
                None
            },
            Expression::Constant(c) => Some(c),
            Expression::And(l, r) => and3(l.value(m), r.value(m)),
            Expression::Or(l, r) => or3(l.value(m), r.value(m)),
            Expression::Not(e) => not3(e.value(m)),
        }
    }

    /// The expression that partial evaluation under `m` yields: assigned
    /// variables become constants and constants are folded away.
    pub open spec fn reduce(self, m: Map<VariableId, bool>) -> Expression
        decreases self,
    {
        match self {
            Expression::Variable(v) => if m.contains_key(v) {
                Expression::Constant(m[v])
            } else {
                Expression::Variable(v)
            },
            Expression::Constant(c) => Expression::Constant(c),
            Expression::And(l, r) => {
                let a = l.reduce(m);
                let b = r.reduce(m);
                match a {
                    Expression::Constant(c) => if c {
                        b
                    } else {
                        Expression::Constant(false)
                    },
                    _ => match b {
                        Expression::Constant(c) => if c {
                            a
                        } else {
                            Expression::Constant(false)
                        },
                        _ => Expression::And(Box::new(a), Box::new(b)),
                    },
                }
            },
            Expression::Or(l, r) => {
                let a = l.reduce(m);
                let b = r.reduce(m);
                match a {
                    Expression::Constant(c) => if c {
                        Expression::Constant(true)
                    } else {
                        b
                    },
                    _ => match b {
                        Expression::Constant(c) => if c {
                            Expression::Constant(true)
                        } else {
                            a
                        },
                        _ => Expression::Or(Box::new(a), Box::new(b)),
                    },
                }
            },
            Expression::Not(e) => match e.reduce(m) {
                Expression::Constant(c) => Expression::Constant(!c),
                a => Expression::Not(Box::new(a)),
            },
        }
    }

    /// (Partially) evaluate `self` under the given assignment.
    pub fn evaluate(self, assignment: &Assignment) -> (result: Expression)
        ensures
            result == self.reduce(assignment@),
            self.total_under(assignment@) ==> result == Expression::Constant(
                self.truth(assignment@),
            ),
            result is Constant <==> self.value(assignment@) is Some,
            result is Constant || !result.has_constant(),
            result.variables().subset_of(self.variables()),
            result.variables().disjoint(assignment@.dom()),
        decreases self,
    {
        proof {
            self.lemma_reduce_decides(assignment@);
            self.lemma_reduce_folds(assignment@);
            if self.total_under(assignment@) {
                self.lemma_reduce_total(assignment@);
            }
        }
        match self {
            Expression::Variable(var) => {
                match assignment.values.get(&var) {
                    Some(val) => Expression::Constant(*val),
                    None => Expression::Variable(var),
                }
            },
            Expression::Constant(c) => Expression::Constant(c),
            Expression::And(lhs, rhs) => {
                let value_lhs = lhs.evaluate(assignment);
                let value_rhs = rhs.evaluate(assignment);
                match value_lhs {
                    Expression::Constant(val) => if val {
                        value_rhs
                    } else {
                        Expression::Constant(false)
                    },
                    _ => match value_rhs {
                        Expression::Constant(val) => if val {
                            value_lhs
                        } else {
                            Expression::Constant(false)
                        },
                        _ => Expression::And(Box::new(value_lhs), Box::new(value_rhs)),
                    },
                }
            },
            Expression::Or(lhs, rhs) => {
                let value_lhs = lhs.evaluate(assignment);
                let value_rhs = rhs.evaluate(assignment);
                match value_lhs {
                    Expression::Constant(val) => if val {
                        Expression::Constant(true)
                    } else {
                        value_rhs
                    },
                    _ => match value_rhs {
                        Expression::Constant(val) => if val {
                            Expression::Constant(true)
                        } else {
                            value_lhs
                        },
                        _ => Expression::Or(Box::new(value_lhs), Box::new(value_rhs)),
                    },
                }
            },
            Expression::Not(expr) => {
                let value = expr.evaluate(assignment);
                match value {
                    Expression::Constant(val) => Expression::Constant(!val),
                    _ => Expression::Not(Box::new(value)),
                }
            },
        }
    }
}

impl Clone for Expression {
    fn clone(&self) -> (copy: Self)
        ensures
            copy == *self,
        decreases self,
    {
        match self {
            Expression::Variable(v) => Expression::Variable(*v),
            Expression::Constant(c) => Expression::Constant(*c),
            Expression::And(l, r) => Expression::And(
                Box::new((**l).clone()),
                Box::new((**r).clone()),
            ),
            Expression::Or(l, r) => Expression::Or(
                Box::new((**l).clone()),
                Box::new((**r).clone()),
            ),
            Expression::Not(e) => Expression::Not(Box::new((**e).clone())),
        }
    }
}

impl Assignment {
    /// An assignment holding exactly the given values.
    pub fn new(values: HashMap<VariableId, bool>) -> (result: Self)
        ensures
            result@ == values@,
            result.values == values,
    {
        Self { values }
    }
}

impl Expression {
    /// The largest variable of the expression, if it has any variable.
    pub fn max_variable(&self) -> (result: Option<VariableId>)
        ensures
            result is None <==> self.variables() == Set::<VariableId>::empty(),
            result matches Some(v) ==> self.variables().contains(v) && forall|w: VariableId|
                self.variables().contains(w) ==> w <= v,
        decreases self,
    {
        match self {
            Expression::Variable(v) => {
                assert(self.variables().contains(*v));
                Some(*v)
            },
            Expression::Constant(_) => None,
            Expression::And(lhs, rhs) => {
                let result = larger_variable(lhs.max_variable(), rhs.max_variable());
                proof {
                    if result is None {
                        assert(self.variables() =~= Set::<VariableId>::empty());
                    } else {
                        assert(self.variables().contains(result->Some_0));
                    }
                }
                result
            },
            Expression::Or(lhs, rhs) => {
                let result = larger_variable(lhs.max_variable(), rhs.max_variable());
                proof {
                    if result is None {
                        assert(self.variables() =~= Set::<VariableId>::empty());
                    } else {
                        assert(self.variables().contains(result->Some_0));
                    }
                }
                result
            },
            Expression::Not(expr) => expr.max_variable(),
        }
    }
}

/// The larger of two variables, where there are two.
pub fn larger_variable(a: Option<VariableId>, b: Option<VariableId>) -> (result: Option<
    VariableId,
>)
    ensures
        result == match (a, b) {
            (Some(x), Some(y)) => if x >= y {
                Some(x)
            } else {
                Some(y)
            },
            (Some(x), None) => Some(x),
            (None, other) => other,
        },
{
    match (a, b) {
        (Some(x), Some(y)) => if x >= y {
            Some(x)
        } else {
            Some(y)
        },
        (Some(x), None) => Some(x),
        (None, other) => other,
    }
}

/// The map that holds the pairs, a later pair of a variable in place of an
/// earlier one.
pub open spec fn map_of_pairs(pairs: Seq<(VariableId, bool)>) -> Map<VariableId, bool>
    decreases pairs.len(),
{
    if pairs.len() == 0 {
        Map::empty()
    } else {
        map_of_pairs(pairs.drop_last()).insert(pairs.last().0, pairs.last().1)
    }
}

impl Assignment {
    /// The value of a variable, if it has one.
    pub fn get(&self, variable: VariableId) -> (result: Option<bool>)
        ensures
            result == if self@.contains_key(variable) {
                Some(self@[variable])
            } else {
                None
            },
    {
        match self.values.get(&variable) {
            Some(value) => Some(*value),
            None => None,
        }
    }

    /// The number of variables that have a value.
    pub fn len(&self) -> (result: usize)
        ensures
            result == self@.len(),
    {
        self.values.len()
    }
}

impl<const N: usize> vstd::std_specs::convert::FromSpecImpl<[(VariableId, bool); N]> for Assignment {
    open spec fn obeys_from_spec() -> bool {
        false
    }

    open spec fn from_spec(v: [(VariableId, bool); N]) -> Assignment {
        arbitrary()
    }
}

impl<const N: usize> From<[(VariableId, bool); N]> for Assignment {
    /// The assignment that holds the given pairs.
    fn from(value: [(VariableId, bool); N]) -> (result: Assignment)
        ensures
            result@ == map_of_pairs(value@),
    {
        let mut values: HashMap<VariableId, bool> = HashMap::new();
        let mut i: usize = 0;
        while i < N
            invariant
                i <= N,
                value@.len() == N,
                values@ == map_of_pairs(value@.take(i as int)),
            decreases N - i,
        {
            proof {
                assert(value@.take(i + 1).drop_last() == value@.take(i as int));
            }
            let pair = value[i];
            values.insert(pair.0, pair.1);
            i += 1;
        }
        proof {
            assert(value@.take(N as int) == value@);
        }
        Assignment::new(values)
    }
}

impl Clone for Assignment {
    fn clone(&self) -> (copy: Self)
        ensures
            copy@ == self@,
    {
        Assignment { values: self.values.clone() }
    }
}

impl Default for Assignment {
    /// The assignment without values.
    fn default() -> (result: Self)
        ensures
            result@ == Map::<VariableId, bool>::empty(),
    {
        Assignment { values: HashMap::new() }
    }
}

impl PartialEq for Expression {
    fn eq(&self, other: &Self) -> (result: bool)
        decreases self,
    {
        match (self, other) {
            (Expression::Variable(a), Expression::Variable(b)) => *a == *b,
            (Expression::Constant(a), Expression::Constant(b)) => *a == *b,
            (Expression::And(al, ar), Expression::And(bl, br)) => (**al).eq(&**bl) && (**ar).eq(
                &**br,
            ),
            (Expression::Or(al, ar), Expression::Or(bl, br)) => (**al).eq(&**bl) && (**ar).eq(
                &**br,
            ),
            (Expression::Not(a), Expression::Not(b)) => (**a).eq(&**b),
            _ => false,
        }
    }
}

impl vstd::std_specs::cmp::PartialEqSpecImpl for Expression {
    open spec fn obeys_eq_spec() -> bool {
        true
    }

    open spec fn eq_spec(&self, other: &Self) -> bool {
        *self == *other
    }
}

/// The expressions that the references of a walk point to.
pub open spec fn pointed_to(nodes: Seq<&Expression>) -> Seq<Expression> {
    nodes.map_values(|e: &Expression| *e)
}

impl Expression {
    /// The nodes of the expression tree: the expression itself, then the
    /// nodes of its left and of its right subtree.
    pub open spec fn nodes(self) -> Seq<Expression>
        decreases self,
    {
        match self {
            Expression::And(l, r) => seq![self] + l.nodes() + r.nodes(),
            Expression::Or(l, r) => seq![self] + l.nodes() + r.nodes(),
            Expression::Not(e) => seq![self] + e.nodes(),
            _ => seq![self],
        }
    }

    /// The variable with the given identifier.
    pub fn variable(id: VariableId) -> (result: Expression)
        ensures
            result == Expression::Variable(id),
    {
        Expression::Variable(id)
    }

    /// The constant of the given value.
    pub fn constant(value: bool) -> (result: Expression)
        ensures
            result == Expression::Constant(value),
    {
        Expression::Constant(value)
    }

    /// The conjunction of two expressions.
    pub fn and(left: Expression, right: Expression) -> (result: Expression)
        ensures
            result == Expression::And(Box::new(left), Box::new(right)),
    {
        Expression::And(Box::new(left), Box::new(right))
    }

    /// The disjunction of two expressions.
    pub fn or(left: Expression, right: Expression) -> (result: Expression)
        ensures
            result == Expression::Or(Box::new(left), Box::new(right)),
    {
        Expression::Or(Box::new(left), Box::new(right))
    }

    /// The negation of an expression.
    pub fn negation(inner: Expression) -> (result: Expression)
        ensures
            result == Expression::Not(Box::new(inner)),
    {
        Expression::Not(Box::new(inner))
    }

    /// Walks the expression tree and lists its nodes, each before the nodes
    /// below it, the left subtree before the right one.
    pub fn walk(&self) -> (result: Vec<&Expression>)
        ensures
            pointed_to(result@) == self.nodes(),
    {
        let mut result: Vec<&Expression> = Vec::new();
        self.walk_into(&mut result);
        result
    }

    /// Appends the nodes of the expression tree to a walk.
    pub fn walk_into<'a>(&'a self, visited: &mut Vec<&'a Expression>)
        ensures
            pointed_to(final(visited)@) == pointed_to(old(visited)@) + self.nodes(),
        decreases self,
    {
        let ghost before = pointed_to(visited@);
        visited.push(self);
        assert(pointed_to(visited@) =~= before + seq![*self]);
        match self {
            Expression::And(lhs, rhs) => {
                lhs.walk_into(visited);
                rhs.walk_into(visited);
                assert(pointed_to(visited@) =~= before + self.nodes());
            },
            Expression::Or(lhs, rhs) => {
                lhs.walk_into(visited);
                rhs.walk_into(visited);
                assert(pointed_to(visited@) =~= before + self.nodes());
            },
            Expression::Not(expr) => {
                expr.walk_into(visited);
                assert(pointed_to(visited@) =~= before + self.nodes());
            },
            _ => {},
        }
    }
}

} // verus!
