//! Expressions over variable names, as a parser yields them, and the
//! interning of the names: every name gets the next free identifier when it
//! is first met.

pub mod text;

use crate::expression::expression::{Expression, VariableId};
use crate::solver::dpll::in_range;
use crate::solver::instance::SATInstance;
use std::collections::HashMap;
use vstd::prelude::*;

verus! {

broadcast use vstd::std_specs::hash::group_hash_axioms;

/// A Boolean expression over named variables.
#[derive(Debug)]
pub enum ParsedExpression {
    Variable(String),
    Constant(bool),
    And(Box<ParsedExpression>, Box<ParsedExpression>),
    Or(Box<ParsedExpression>, Box<ParsedExpression>),
    Not(Box<ParsedExpression>),
}

/// What a parsed expression says: its shape and the characters of its
/// names.
pub enum Syntax {
    Variable(Seq<char>),
    Constant(bool),
    And(Box<Syntax>, Box<Syntax>),
    Or(Box<Syntax>, Box<Syntax>),
    Not(Box<Syntax>),
}

impl ParsedExpression {
    /// The shape of the expression and the characters of its names.
    pub open spec fn syntax(self) -> Syntax
        decreases self,
    {
        match self {
            ParsedExpression::Variable(name) => Syntax::Variable(name@),
            ParsedExpression::Constant(value) => Syntax::Constant(value),
            ParsedExpression::And(l, r) => Syntax::And(
                Box::new(l.syntax()),
                Box::new(r.syntax()),
            ),
            ParsedExpression::Or(l, r) => Syntax::Or(Box::new(l.syntax()), Box::new(r.syntax())),
            ParsedExpression::Not(inner) => Syntax::Not(Box::new(inner.syntax())),
        }
    }
}

impl View for ParsedExpression {
    type V = Syntax;

    open spec fn view(&self) -> Syntax {
        self.syntax()
    }
}

impl Clone for ParsedExpression {
    fn clone(&self) -> (copy: Self)
        ensures
            copy == *self,
        decreases self,
    {
        match self {
            ParsedExpression::Variable(name) => ParsedExpression::Variable(name.clone()),
            ParsedExpression::Constant(value) => ParsedExpression::Constant(*value),
            ParsedExpression::And(l, r) => ParsedExpression::And(
                Box::new((**l).clone()),
                Box::new((**r).clone()),
            ),
            ParsedExpression::Or(l, r) => ParsedExpression::Or(
                Box::new((**l).clone()),
                Box::new((**r).clone()),
            ),
            ParsedExpression::Not(inner) => ParsedExpression::Not(Box::new((**inner).clone())),
        }
    }
}

/// Why names could not be interned.
#[derive(Debug, Clone, Copy, PartialEq, Eq, Structural)]
pub enum InternError {
    /// All identifiers are taken and a further name was met.
    TooManyVariables,
}

/// The identifiers of a name table are those below their number.
pub open spec fn dense(table: Map<VariableId, String>) -> bool {
    &&& table.dom().finite()
    &&& table.len() <= 65536
    &&& forall|v: VariableId| #[trigger] table.contains_key(v) <==> v < table.len()
}

/// Whether `larger` names every variable of `table` as `table` does.
pub open spec fn keeps_names(larger: Map<VariableId, String>, table: Map<VariableId, String>) -> bool {
    forall|v: VariableId| #[trigger]
        table.contains_key(v) ==> larger.contains_key(v) && larger[v] == table[v]
}

/// The least identifier below `n` that the table gives the name `name`.
pub open spec fn find_name(table: Map<VariableId, String>, name: Seq<char>, n: int) -> Option<
    VariableId,
>
    decreases n,
{
    if n <= 0 {
        None
    } else {
        match find_name(table, name, n - 1) {
            Some(id) => Some(id),
            None => if table.contains_key((n - 1) as VariableId) && table[(n - 1) as VariableId]@
                == name {
                Some((n - 1) as VariableId)
            } else {
                None
            },
        }
    }
}

impl ParsedExpression {
    /// Whether `e` is this expression with every name replaced by an
    /// identifier that the table gives this name.
    pub open spec fn denoted_by(self, e: Expression, table: Map<VariableId, String>) -> bool
        decreases self,
    {
        match (self, e) {
            (ParsedExpression::Variable(name), Expression::Variable(id)) => table.contains_key(id)
                && table[id]@ == name@,
            (ParsedExpression::Constant(a), Expression::Constant(b)) => a == b,
            (ParsedExpression::And(l, r), Expression::And(el, er)) => l.denoted_by(*el, table)
                && r.denoted_by(*er, table),
            (ParsedExpression::Or(l, r), Expression::Or(el, er)) => l.denoted_by(*el, table)
                && r.denoted_by(*er, table),
            (ParsedExpression::Not(inner), Expression::Not(ei)) => inner.denoted_by(*ei, table),
            _ => false,
        }
    }

    /// The expression with its names interned one after the other, from left
    /// to right, and the name table after that. A name that the table holds
    /// gets its least identifier; any other name gets the next free
    /// identifier and enters the table. Without a free identifier there is
    /// no expression.
    pub open spec fn interned(self, table: Map<VariableId, String>) -> (
        Option<Expression>,
        Map<VariableId, String>,
    )
        decreases self,
    {
        match self {
            ParsedExpression::Variable(name) => match find_name(table, name@, table.len() as int) {
                Some(id) => (Some(Expression::Variable(id)), table),
                None => if table.len() >= 65536 {
                    (None, table)
                } else {
                    (
                        Some(Expression::Variable(table.len() as VariableId)),
                        table.insert(table.len() as VariableId, name),
                    )
                },
            },
            ParsedExpression::Constant(value) => (Some(Expression::Constant(value)), table),
            ParsedExpression::And(l, r) => {
                let left = l.interned(table);
                match left.0 {
                    None => (None, left.1),
                    Some(a) => {
                        let right = r.interned(left.1);
                        match right.0 {
                            None => (None, right.1),
                            Some(b) => (
                                Some(Expression::And(Box::new(a), Box::new(b))),
                                right.1,
                            ),
                        }
                    },
                }
            },
            ParsedExpression::Or(l, r) => {
                let left = l.interned(table);
                match left.0 {
                    None => (None, left.1),
                    Some(a) => {
                        let right = r.interned(left.1);
                        match right.0 {
                            None => (None, right.1),
                            Some(b) => (Some(Expression::Or(Box::new(a), Box::new(b))), right.1),
                        }
                    },
                }
            },
            ParsedExpression::Not(inner) => {
                let below = inner.interned(table);
                match below.0 {
                    None => (None, below.1),
                    Some(a) => (Some(Expression::Not(Box::new(a))), below.1),
                }
            },
        }
    }

    /// An expression that denotes this one under a table denotes it under
    /// every table that keeps the names.
    pub proof fn lemma_denoted_kept(
        self,
        e: Expression,
        table: Map<VariableId, String>,
        larger: Map<VariableId, String>,
    )
        requires
            self.denoted_by(e, table),
            keeps_names(larger, table),
        ensures
            self.denoted_by(e, larger),
        decreases self,
    {
        match (self, e) {
            (ParsedExpression::And(l, r), Expression::And(el, er)) => {
                l.lemma_denoted_kept(*el, table, larger);
                r.lemma_denoted_kept(*er, table, larger);
            },
            (ParsedExpression::Or(l, r), Expression::Or(el, er)) => {
                l.lemma_denoted_kept(*el, table, larger);
                r.lemma_denoted_kept(*er, table, larger);
            },
            (ParsedExpression::Not(inner), Expression::Not(ei)) => {
                inner.lemma_denoted_kept(*ei, table, larger);
            },
            _ => {},
        }
    }

    /// Interning keeps a dense table dense and its names in place; the
    /// expression it yields is this one with identifiers for the names, and
    /// all its variables are named by the table.
    pub proof fn lemma_interned(self, table: Map<VariableId, String>)
        requires
            dense(table),
        ensures
            dense(self.interned(table).1),
            keeps_names(self.interned(table).1, table),
            self.interned(table).0 matches Some(e) ==> self.denoted_by(e, self.interned(table).1)
                && in_range(e, self.interned(table).1.len()),
        decreases self,
    {
        reveal_with_fuel(Expression::variables, 2);
        match self {
            ParsedExpression::Variable(name) => {
                lemma_find_name(table, name@, table.len() as int);
                match find_name(table, name@, table.len() as int) {
                    Some(id) => {
                        assert(Expression::Variable(id).variables() =~= set![id]);
                    },
                    None => {
                        if table.len() < 65536 {
                            let id = table.len() as VariableId;
                            lemma_dense_insert(table, name);
                            assert(self.interned(table).1.contains_key(id));
                            assert(Expression::Variable(id).variables() =~= set![id]);
                        }
                    },
                }
            },
            ParsedExpression::Constant(value) => {
                assert(self.interned(table).0 == Some(Expression::Constant(value)));
                assert(in_range(Expression::Constant(value), table.len()));
            },
            ParsedExpression::And(l, r) => {
                l.lemma_interned(table);
                let left = l.interned(table);
                if let Some(a) = left.0 {
                    r.lemma_interned(left.1);
                    let right = r.interned(left.1);
                    assert(keeps_names(right.1, table));
                    if let Some(b) = right.0 {
                        l.lemma_denoted_kept(a, left.1, right.1);
                        lemma_len_kept(left.1, right.1);
                        let whole = Expression::And(Box::new(a), Box::new(b));
                        assert(whole.variables() == a.variables().union(b.variables()));
                        assert(in_range(whole, right.1.len()));
                        assert(self.denoted_by(whole, right.1));
                    }
                }
            },
            ParsedExpression::Or(l, r) => {
                l.lemma_interned(table);
                let left = l.interned(table);
                if let Some(a) = left.0 {
                    r.lemma_interned(left.1);
                    let right = r.interned(left.1);
                    if let Some(b) = right.0 {
                        l.lemma_denoted_kept(a, left.1, right.1);
                        lemma_len_kept(left.1, right.1);
                        let whole = Expression::Or(Box::new(a), Box::new(b));
                        assert(whole.variables() == a.variables().union(b.variables()));
                        assert(in_range(whole, right.1.len()));
                    }
                }
            },
            ParsedExpression::Not(inner) => {
                inner.lemma_interned(table);
                let below = inner.interned(table);
                if let Some(a) = below.0 {
                    let whole = Expression::Not(Box::new(a));
                    assert(whole.variables() == a.variables());
                    assert(in_range(whole, below.1.len()));
                    assert(self.denoted_by(whole, below.1));
                }
            },
        }
    }

    /// Replaces the names of the expression by identifiers: an identifier
    /// of the table for a name that it holds, and the next free identifier
    /// for a name that it does not hold yet, which enters the table.
    pub fn intern_to_expression(self, interned_variables: &mut HashMap<VariableId, String>) -> (result:
        Result<Expression, InternError>)
        requires
            dense(old(interned_variables)@),
        ensures
            result is Ok <==> self.interned(old(interned_variables)@).0 is Some,
            result matches Ok(e) ==> self.interned(old(interned_variables)@).0 == Some(e)
                && self.denoted_by(e, final(interned_variables)@) && in_range(
                e,
                final(interned_variables)@.len(),
            ),
            final(interned_variables)@ == self.interned(old(interned_variables)@).1,
            dense(final(interned_variables)@),
            keeps_names(final(interned_variables)@, old(interned_variables)@),
        decreases self,
    {
        proof {
            self.lemma_interned(interned_variables@);
        }
        let ghost whole = self;
        match self {
            ParsedExpression::Variable(var) => {
                let count = interned_variables.len();
                let mut id: usize = 0;
                while id < count
                    invariant
                        id <= count,
                        count == interned_variables@.len(),
                        count <= 65536,
                        whole == self,
                        whole == ParsedExpression::Variable(var),
                        dense(interned_variables@),
                        interned_variables@ == old(interned_variables)@,
                        find_name(interned_variables@, var@, id as int) is None,
                        whole.interned(interned_variables@).0 matches Some(e) ==> whole.denoted_by(
                            e,
                            whole.interned(interned_variables@).1,
                        ) && in_range(e, whole.interned(interned_variables@).1.len()),
                    decreases count - id,
                {
                    let key = id as VariableId;
                    match interned_variables.get(&key) {
                        Some(name) => {
                            if *name == var {
                                proof {
                                    lemma_find_name_stays(
                                        interned_variables@,
                                        var@,
                                        id + 1,
                                        count as int,
                                    );
                                }
                                return Ok(Expression::Variable(key));
                            }
                        },
                        None => {},
                    }
                    id += 1;
                }
                if count > u16::MAX as usize {
                    return Err(InternError::TooManyVariables);
                }
                let id = count as VariableId;
                interned_variables.insert(id, var);
                Ok(Expression::Variable(id))
            },
            ParsedExpression::Constant(val) => Ok(Expression::Constant(val)),
            ParsedExpression::And(lhs, rhs) => {
                let expr_lhs = match lhs.intern_to_expression(interned_variables) {
                    Ok(e) => e,
                    Err(error) => {
                        return Err(error);
                    },
                };
                let expr_rhs = match rhs.intern_to_expression(interned_variables) {
                    Ok(e) => e,
                    Err(error) => {
                        return Err(error);
                    },
                };
                Ok(Expression::And(Box::new(expr_lhs), Box::new(expr_rhs)))
            },
            ParsedExpression::Or(lhs, rhs) => {
                let expr_lhs = match lhs.intern_to_expression(interned_variables) {
                    Ok(e) => e,
                    Err(error) => {
                        return Err(error);
                    },
                };
                let expr_rhs = match rhs.intern_to_expression(interned_variables) {
                    Ok(e) => e,
                    Err(error) => {
                        return Err(error);
                    },
                };
                Ok(Expression::Or(Box::new(expr_lhs), Box::new(expr_rhs)))
            },
            ParsedExpression::Not(expr) => {
                match expr.intern_to_expression(interned_variables) {
                    Ok(interned) => Ok(Expression::Not(Box::new(interned))),
                    Err(error) => Err(error),
                }
            },
        }
    }
}

/// What `find_name` finds is an identifier with that name, and it finds one
/// if there is one below `n`.
pub proof fn lemma_find_name(table: Map<VariableId, String>, name: Seq<char>, n: int)
    requires
        n <= 65536,
    ensures
        find_name(table, name, n) matches Some(id) ==> id < n && table.contains_key(id)
            && table[id]@ == name,
        find_name(table, name, n) is None ==> forall|v: VariableId|
            v < n && #[trigger] table.contains_key(v) ==> table[v]@ != name,
    decreases n,
{
    if n > 0 {
        lemma_find_name(table, name, n - 1);
    }
}

/// A name that is found below `n` is found below every larger bound, with
/// the same identifier.
pub proof fn lemma_find_name_stays(table: Map<VariableId, String>, name: Seq<char>, n: int, larger: int)
    requires
        n <= larger,
        find_name(table, name, n) is Some,
    ensures
        find_name(table, name, larger) == find_name(table, name, n),
    decreases larger - n,
{
    if n < larger {
        lemma_find_name_stays(table, name, n, larger - 1);
    }
}

/// A dense table that gets the next identifier is dense.
pub proof fn lemma_dense_insert(table: Map<VariableId, String>, name: String)
    requires
        dense(table),
        table.len() < 65536,
    ensures
        dense(table.insert(table.len() as VariableId, name)),
        table.insert(table.len() as VariableId, name).len() == table.len() + 1,
        keeps_names(table.insert(table.len() as VariableId, name), table),
{
    let id = table.len() as VariableId;
    assert(!table.contains_key(id));
    assert(table.insert(id, name).dom() =~= table.dom().insert(id));
}

/// A dense table that keeps the names of another dense table is no
/// smaller.
pub proof fn lemma_len_kept(table: Map<VariableId, String>, larger: Map<VariableId, String>)
    requires
        dense(table),
        dense(larger),
        keeps_names(larger, table),
    ensures
        table.len() <= larger.len(),
{
    if table.len() > 0 {
        let last = (table.len() - 1) as VariableId;
        assert(table.contains_key(last));
    }
}

impl SATInstance {
    /// The instance of a parsed expression: its names interned into a
    /// fresh table.
    pub fn from_parsed(value: ParsedExpression) -> (result: Result<SATInstance, InternError>)
        ensures
            result is Ok <==> value.interned(Map::empty()).0 is Some,
            result matches Ok(instance) ==> Some(instance.expression) == value.interned(
                Map::empty(),
            ).0 && instance.var_to_str@ == value.interned(Map::empty()).1 && instance.wf()
                && value.denoted_by(instance.expression, instance.var_to_str@) && in_range(
                instance.expression,
                instance.declared(),
            ),
    {
        let mut interned_variables: HashMap<VariableId, String> = HashMap::new();
        match value.intern_to_expression(&mut interned_variables) {
            Ok(interned_expression) => Ok(SATInstance::new(interned_expression, interned_variables)),
            Err(error) => Err(error),
        }
    }
}

} // verus!
