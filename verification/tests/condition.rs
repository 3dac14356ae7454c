use cleargate_flow::condition::{compare_values, truthy, CondValue};
use cleargate_flow::expression::CompOp;

fn s(t: &str) -> CondValue {
    CondValue::Str(t.to_string())
}

#[test]
fn nulls_equal_only_nulls() {
    assert_eq!(compare_values(&CondValue::Null, &CondValue::Null, CompOp::Eq), Some(true));
    assert_eq!(compare_values(&CondValue::Null, &s("x"), CompOp::Eq), Some(false));
    assert_eq!(compare_values(&CondValue::Null, &s("x"), CompOp::Ne), Some(true));
    assert_eq!(compare_values(&CondValue::Number, &CondValue::Null, CompOp::Gt), Some(false));
}

#[test]
fn any_comparison_with_a_missing_field_is_false() {
    for op in [CompOp::Eq, CompOp::Ne, CompOp::Gt, CompOp::Lt, CompOp::Ge, CompOp::Le] {
        assert_eq!(compare_values(&CondValue::Missing, &s("x"), op), Some(false));
        assert_eq!(compare_values(&CondValue::Number, &CondValue::Missing, op), Some(false));
        assert_eq!(compare_values(&CondValue::Missing, &CondValue::Null, op), Some(false));
    }
    assert_eq!(truthy(&CondValue::Missing), Some(false));
}

#[test]
fn strings_compare_by_code_points() {
    assert_eq!(compare_values(&s("b"), &s("a"), CompOp::Gt), Some(true));
    assert_eq!(compare_values(&s("a"), &s("ab"), CompOp::Lt), Some(true));
    assert_eq!(compare_values(&s("a"), &s("a"), CompOp::Ge), Some(true));
    assert_eq!(compare_values(&s("a"), &s("a"), CompOp::Ne), Some(false));
}

#[test]
fn booleans_are_only_equal_or_not() {
    assert_eq!(compare_values(&CondValue::Bool(true), &CondValue::Bool(true), CompOp::Eq), Some(true));
    assert_eq!(compare_values(&CondValue::Bool(true), &CondValue::Bool(false), CompOp::Gt), Some(false));
    assert_eq!(compare_values(&CondValue::Bool(true), &s("true"), CompOp::Eq), Some(false));
}

#[test]
fn numbers_are_left_to_the_numeric_comparison() {
    assert_eq!(compare_values(&CondValue::Number, &CondValue::Number, CompOp::Eq), None);
    assert_eq!(compare_values(&CondValue::Number, &s("1"), CompOp::Eq), Some(false));
}

#[test]
fn truthiness() {
    assert_eq!(truthy(&CondValue::Null), Some(false));
    assert_eq!(truthy(&s("")), Some(false));
    assert_eq!(truthy(&s("x")), Some(true));
    assert_eq!(truthy(&CondValue::Other), Some(true));
    assert_eq!(truthy(&CondValue::Bool(false)), Some(false));
    assert_eq!(truthy(&CondValue::Number), None);
}
