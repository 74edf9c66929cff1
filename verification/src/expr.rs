use vstd::prelude::*;
use crate::error::{SchemaError, SchemaErrorView};
use crate::sat::{sat_add, sat_add_usize};
use crate::schema::{contains_name, name_index, DataType, Schema, SpecField};

verus! {

/// A comparison or logical operator.  Every operator here yields a boolean
/// column, which is all the planner needs to know about it.
#[derive(Clone, Copy, Debug, PartialEq, Eq, Structural)]
pub enum Operator {
    Eq,
    NotEq,
    Lt,
    LtEq,
    Gt,
    GtEq,
    And,
    Or,
}

/// A join-key or predicate expression.  The planner resolves an expression
/// against a schema to the (name, type) of its output column; it never
/// evaluates one.
#[derive(Debug)]
pub enum Expr {
    /// A column reference.
    Col(String),
    /// A literal of the given type; its output column is named `literal`.
    Lit(DataType),
    /// The inner expression with its output column renamed.
    Alias(Box<Expr>, String),
    /// The inner expression with its output type changed.
    Cast(Box<Expr>, DataType),
    /// A comparison; boolean-typed, named after its left side.
    Binary(Box<Expr>, Operator, Box<Expr>),
}

/// The output field of `e` resolved against schema `s`: the name and type
/// of the column the expression would produce, or the unknown-column error
/// for the first unresolvable reference.
pub open spec fn spec_to_field(e: Expr, s: Seq<SpecField>) -> Result<SpecField, SchemaErrorView>
    decreases e,
{
    match e {
        Expr::Col(name) => if contains_name(s, name@) {
            Ok((name@, s[name_index(s, name@)].1))
        } else {
            Err(SchemaErrorView::UnknownColumn(name@))
        },
        Expr::Lit(dtype) => Ok(("literal"@, dtype)),
        Expr::Alias(inner, name) => match spec_to_field(*inner, s) {
            Ok(f) => Ok((name@, f.1)),
            Err(e) => Err(e),
        },
        Expr::Cast(inner, dtype) => match spec_to_field(*inner, s) {
            Ok(f) => Ok((f.0, dtype)),
            Err(e) => Err(e),
        },
        Expr::Binary(left, _, _) => match spec_to_field(*left, s) {
            Ok(f) => Ok((f.0, DataType::Boolean)),
            Err(e) => Err(e),
        },
    }
}

/// The number of comparison nodes in `e`, clamped to the machine word; the
/// estimator reads it as the count of filtering predicates.
pub open spec fn spec_binary_count(e: Expr) -> int
    decreases e,
{
    match e {
        Expr::Binary(left, _, right) => sat_add(
            1,
            sat_add(spec_binary_count(*left), spec_binary_count(*right)),
        ),
        Expr::Alias(inner, _) => spec_binary_count(*inner),
        Expr::Cast(inner, _) => spec_binary_count(*inner),
        _ => 0,
    }
}

pub proof fn lemma_binary_count_bounds(e: Expr)
    ensures
        0 <= spec_binary_count(e) <= usize::MAX,
    decreases e,
{
    match e {
        Expr::Binary(left, _, right) => {
            lemma_binary_count_bounds(*left);
            lemma_binary_count_bounds(*right);
        },
        Expr::Alias(inner, _) => lemma_binary_count_bounds(*inner),
        Expr::Cast(inner, _) => lemma_binary_count_bounds(*inner),
        _ => {},
    }
}

impl Expr {
    /// Resolve the output column of this expression against `schema`.
    pub fn to_field(&self, schema: &Schema) -> (r: Result<(String, DataType), SchemaError>)
        requires
            schema.wf(),
        ensures
            match r {
                Ok(f) => spec_to_field(*self, schema@) == Ok::<SpecField, SchemaErrorView>(
                    (f.0@, f.1),
                ),
                Err(e) => spec_to_field(*self, schema@) == Err::<SpecField, SchemaErrorView>(e@),
            },
        decreases *self,
    {
        match self {
            Expr::Col(name) => match schema.position(name) {
                Some(i) => {
                    proof {
                        let k = name_index(schema@, name@);
                        assert(schema@[k].0 == name@);
                        assert(k == i as int);
                    }
                    Ok((name.clone(), schema.dtype_at(i)))
                },
                None => Err(SchemaError::UnknownColumn(name.clone())),
            },
            Expr::Lit(dtype) => Ok(("literal".to_owned(), *dtype)),
            Expr::Alias(inner, name) => match inner.to_field(schema) {
                Ok(f) => Ok((name.clone(), f.1)),
                Err(e) => Err(e),
            },
            Expr::Cast(inner, dtype) => match inner.to_field(schema) {
                Ok(f) => Ok((f.0, *dtype)),
                Err(e) => Err(e),
            },
            Expr::Binary(left, _, _) => match left.to_field(schema) {
                Ok(f) => Ok((f.0, DataType::Boolean)),
                Err(e) => Err(e),
            },
        }
    }

    /// Count the comparison nodes of this expression.
    pub fn binary_count(&self) -> (r: usize)
        ensures
            r == spec_binary_count(*self),
        decreases *self,
    {
        match self {
            Expr::Binary(left, _, right) => {
                let a = left.binary_count();
                let b = right.binary_count();
                proof {
                    lemma_binary_count_bounds(**left);
                    lemma_binary_count_bounds(**right);
                }
                sat_add_usize(1, sat_add_usize(a, b))
            },
            Expr::Alias(inner, _) => inner.binary_count(),
            Expr::Cast(inner, _) => inner.binary_count(),
            _ => 0,
        }
    }
}

} // verus!
