use lsm_levels::expr::CaseExpression;
use lsm_levels::expr::DataTypeKind;
use lsm_levels::expr::DataTypeRef;
use lsm_levels::expr::PgSleepExpression;
use lsm_levels::expr::WhenClause;

#[test]
fn pg_sleep_new_returns_nullable_int32() {
    let expr = PgSleepExpression::new(7u32);
    assert_eq!(expr.child_expr, 7);
    assert_eq!(
        expr.return_type(),
        DataTypeRef { kind: DataTypeKind::Int32, nullable: true }
    );
}

#[test]
fn when_clause_new_keeps_arms() {
    let clause = WhenClause::new("x <= 2", "3.1");
    assert_eq!(clause.when, "x <= 2");
    assert_eq!(clause.then_expr, "3.1");
}

#[test]
fn case_expression_new_keeps_parts() {
    let clauses = vec![WhenClause::new(1u32, 2u32), WhenClause::new(3u32, 4u32)];
    let case = CaseExpression::new("float32", clauses, Some(5u32));
    assert_eq!(case.return_type, "float32");
    assert_eq!(case.when_clauses.len(), 2);
    assert_eq!(case.when_clauses[0].when, 1);
    assert_eq!(case.when_clauses[1].then_expr, 4);
    assert_eq!(case.else_clause, Some(5));
}
