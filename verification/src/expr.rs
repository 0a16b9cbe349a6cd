use vstd::prelude::*;

verus! {

/// One `WHEN ... THEN ...` arm of a searched `CASE` expression.
///
/// The condition and result expressions belong to the columnar
/// evaluation engine, an external collaborator of this crate; only the
/// assembled shape is tracked here, so the expression type is left
/// generic.
pub struct WhenClause<E> {
    pub when: E,
    pub then_expr: E,
}

impl<E> WhenClause<E> {
    pub fn new(when: E, then_expr: E) -> (r: Self)
        ensures
            r.when == when,
            r.then_expr == then_expr,
    {
        WhenClause { when, then_expr }
    }
}

/// A searched `CASE` expression: its declared return type, its
/// `WHEN`/`THEN` arms in order, and an optional `ELSE` arm. Evaluation
/// over columnar data is performed by the external engine; this is the
/// assembled form handed to it.
pub struct CaseExpression<T, E> {
    pub return_type: T,
    pub when_clauses: Vec<WhenClause<E>>,
    pub else_clause: Option<E>,
}

impl<T, E> CaseExpression<T, E> {
    pub fn new(return_type: T, when_clauses: Vec<WhenClause<E>>, else_clause: Option<E>) -> (r:
        Self)
        ensures
            r.return_type == return_type,
            r.when_clauses@ == when_clauses@,
            r.else_clause == else_clause,
    {
        Self { return_type, when_clauses, else_clause }
    }

    pub fn return_type(&self) -> (r: &T)
        ensures
            *r == self.return_type,
    {
        &self.return_type
    }
}

/// The type of a value produced by the evaluation engine, as the
/// scheduler-facing interface names it.
#[derive(Clone, Copy, Debug, PartialEq, Eq, Structural)]
pub enum DataTypeKind {
    Boolean,
    Int32,
    Int64,
    Decimal,
}

/// A value type together with its nullability.
#[derive(Clone, Copy, Debug, PartialEq, Eq, Structural)]
pub struct DataTypeRef {
    pub kind: DataTypeKind,
    pub nullable: bool,
}

/// The sleep primitive: pauses the session for the duration its child
/// expression yields, and returns `NULL` for every input. Evaluation —
/// the sleeping itself — happens in the external engine; only the
/// assembled form is tracked here.
pub struct PgSleepExpression<E> {
    pub child_expr: E,
    pub return_type: DataTypeRef,
}

impl<E> PgSleepExpression<E> {
    pub fn new(child_expr: E) -> (r: Self)
        ensures
            r.child_expr == child_expr,
            r.return_type == (DataTypeRef { kind: DataTypeKind::Int32, nullable: true }),
    {
        PgSleepExpression {
            child_expr,
            return_type: DataTypeRef { kind: DataTypeKind::Int32, nullable: true },
        }
    }

    pub fn return_type(&self) -> (r: DataTypeRef)
        ensures
            r == self.return_type,
    {
        self.return_type
    }
}

} // verus!
