use cleargate_flow::expression::{
    parse_tokens, resolve_path, tokenize, CompOp, Expr, Operand, ParseFailure, Token,
};
use cleargate_flow::condition::{condition_holds, condition_questions, NumQuestion, NumSource};
use cleargate_flow::errors::ExpressionError;
use cleargate_flow::json::{JsonNumber, JsonValue};

fn parse(text: &str) -> Result<Expr, ParseFailure> {
    parse_tokens(&tokenize(text).expect("tokenizes"))
}

#[test]
fn test_invalid_expression() {
    assert!(matches!(parse("=="), Err(ParseFailure::ExpectedValue(0))));
}

#[test]
fn test_empty_expression() {
    assert!(matches!(parse(""), Err(ParseFailure::Empty)));
}

#[test]
fn tokens_of_a_comparison() {
    let ts = tokenize(r#"finish_reason == "stop""#).unwrap();
    assert_eq!(ts.len(), 3);
    assert!(matches!(&ts[0], Token::Ident(s) if s == "finish_reason"));
    assert!(matches!(&ts[1], Token::Eq));
    assert!(matches!(&ts[2], Token::Str(s) if s == "stop"));
}

#[test]
fn tokens_of_operators_and_literals() {
    let ts = tokenize("!a && b != 'x' || c >= -1.5 && d <= 2 && e > true && f < null").unwrap();
    let kinds: Vec<String> = ts.iter().map(|t| format!("{t:?}")).collect();
    assert_eq!(
        kinds,
        vec![
            "Not", "Ident(\"a\")", "And", "Ident(\"b\")", "Ne", "Str(\"x\")", "Or", "Ident(\"c\")",
            "Ge", "Num(\"-1.5\")", "And", "Ident(\"d\")", "Le", "Num(\"2\")", "And",
            "Ident(\"e\")", "Gt", "Bool(true)", "And", "Ident(\"f\")", "Lt", "Null"
        ]
    );
}

#[test]
fn tokenizer_errors() {
    match tokenize("a == \"open") {
        Err(ExpressionError::Parse { message }) => assert_eq!(message, "unterminated string literal"),
        other => panic!("unexpected {other:?}"),
    }
    match tokenize("x == 1.2.3") {
        Err(ExpressionError::Parse { message }) => assert_eq!(message, "invalid number: 1.2.3"),
        other => panic!("unexpected {other:?}"),
    }
    match tokenize("a = b") {
        Err(ExpressionError::Parse { message }) => assert_eq!(message, "unexpected character: ="),
        other => panic!("unexpected {other:?}"),
    }
    match tokenize("a & b") {
        Err(ExpressionError::Parse { message }) => assert_eq!(message, "unexpected character: &"),
        other => panic!("unexpected {other:?}"),
    }
}

#[test]
fn dotted_paths_are_one_token() {
    let ts = tokenize("result.confidence > 0.9").unwrap();
    assert!(matches!(&ts[0], Token::Ident(s) if s == "result.confidence"));
    assert!(matches!(&ts[2], Token::Num(s) if s == "0.9"));
}

#[test]
fn precedence_of_or_and_not() {
    // a || b && !c == d  parses as  a || (b && (!(c == d)))
    match parse("a || b && !c == d").unwrap() {
        Expr::Or(l, r) => {
            assert!(matches!(*l, Expr::Value(Operand::Path(ref p)) if p == "a"));
            match *r {
                Expr::And(l2, r2) => {
                    assert!(matches!(*l2, Expr::Value(Operand::Path(ref p)) if p == "b"));
                    match *r2 {
                        Expr::Not(inner) => assert!(matches!(
                            *inner,
                            Expr::Compare(Operand::Path(_), CompOp::Eq, Operand::Path(_))
                        )),
                        other => panic!("unexpected {other:?}"),
                    }
                }
                other => panic!("unexpected {other:?}"),
            }
        }
        other => panic!("unexpected {other:?}"),
    }
}

#[test]
fn trailing_and_missing_tokens() {
    assert!(matches!(parse("a b"), Err(ParseFailure::Trailing(1))));
    assert!(matches!(parse("a =="), Err(ParseFailure::UnexpectedEnd)));
    assert!(matches!(parse("a && && b"), Err(ParseFailure::ExpectedValue(2))));
}

fn obj(entries: Vec<(&str, JsonValue)>) -> JsonValue {
    JsonValue::Object(entries.into_iter().map(|(k, v)| (k.to_string(), v)).collect())
}

#[test]
fn paths_resolve_member_by_member() {
    let data = obj(vec![("a", obj(vec![("b", obj(vec![("c", JsonValue::Str("deep".into()))]))]))]);
    assert!(matches!(resolve_path(&data, "a.b.c"), Some(JsonValue::Str(s)) if s == "deep"));
    assert!(resolve_path(&data, "a.x").is_none());
    assert!(resolve_path(&data, "a.b.c.d").is_none());
    assert!(resolve_path(&data, "a.").is_none());
    assert!(matches!(resolve_path(&data, "a"), Some(JsonValue::Object(_))));
}

// A harness for the conditions of the tests: it answers the core's
// questions about numbers on their `f64` values, with an epsilon tolerance.
fn to_json(v: &serde_json::Value) -> JsonValue {
    match v {
        serde_json::Value::Null => JsonValue::Null,
        serde_json::Value::Bool(b) => JsonValue::Bool(*b),
        serde_json::Value::Number(n) => JsonValue::Number(match (n.as_u64(), n.as_i64()) {
            (Some(u), _) => JsonNumber::PosInt(u),
            (None, Some(i)) => JsonNumber::NegInt(i),
            _ => JsonNumber::Float(n.as_f64().unwrap().to_bits()),
        }),
        serde_json::Value::String(s) => JsonValue::Str(s.clone()),
        serde_json::Value::Array(a) => JsonValue::Array(a.iter().map(to_json).collect()),
        serde_json::Value::Object(m) => JsonValue::Object(m.iter().map(|(k, v)| (k.clone(), to_json(v))).collect()),
    }
}

fn number(n: &NumSource) -> f64 {
    match n {
        NumSource::Literal(t) => t.parse().unwrap_or(0.0),
        NumSource::Value(JsonNumber::PosInt(u)) => *u as f64,
        NumSource::Value(JsonNumber::NegInt(i)) => *i as f64,
        NumSource::Value(JsonNumber::Float(bits)) => f64::from_bits(*bits),
    }
}

fn answer(q: &NumQuestion) -> bool {
    match q {
        NumQuestion::NonZero(n) => number(n) != 0.0,
        NumQuestion::Compare(a, op, b) => {
            let (l, r) = (number(a), number(b));
            let close = (l - r).abs() < f64::EPSILON;
            match op {
                CompOp::Eq => close,
                CompOp::Ne => !close,
                CompOp::Gt => l > r,
                CompOp::Lt => l < r,
                CompOp::Ge => l >= r || close,
                CompOp::Le => l <= r || close,
            }
        }
    }
}

fn evaluate(text: &str, data: serde_json::Value) -> bool {
    let expr = parse(text).expect("parses");
    let data = to_json(&data);
    let answers: Vec<bool> = condition_questions(&expr, &data).iter().map(answer).collect();
    condition_holds(&expr, &data, &answers).expect("one answer per question")
}

fn j(text: &str) -> serde_json::Value {
    serde_json::from_str(text).unwrap()
}

#[test]
fn test_equality() {
    assert!(evaluate(r#"finish_reason == "stop""#, j(r#"{"finish_reason": "stop"}"#)));
}

#[test]
fn test_inequality() {
    assert!(!evaluate(r#"finish_reason != "stop""#, j(r#"{"finish_reason": "stop"}"#)));
}

#[test]
fn test_string_comparison_tool_calls() {
    assert!(evaluate(r#"finish_reason == "tool_calls""#, j(r#"{"finish_reason": "tool_calls"}"#)));
}

#[test]
fn test_numeric_comparison_gt() {
    assert!(evaluate("score > 0.5", j(r#"{"score": 0.8}"#)));
    assert!(!evaluate("score > 0.5", j(r#"{"score": 0.3}"#)));
}

#[test]
fn test_numeric_comparison_lt() {
    assert!(evaluate("score < 0.5", j(r#"{"score": 0.3}"#)));
    assert!(!evaluate("score < 0.5", j(r#"{"score": 0.8}"#)));
}

#[test]
fn test_numeric_equality_coercion() {
    assert!(evaluate("count == 1", j(r#"{"count": 1.0}"#)));
    assert!(evaluate("count == 1.0", j(r#"{"count": 1}"#)));
}

#[test]
fn test_boolean_literal() {
    assert!(evaluate("enabled == true", j(r#"{"enabled": true}"#)));
    assert!(!evaluate("enabled == true", j(r#"{"enabled": false}"#)));
}

#[test]
fn test_null_comparison() {
    assert!(evaluate("value == null", j(r#"{"value": null}"#)));
    assert!(!evaluate("value == null", j(r#"{"value": "something"}"#)));
}

#[test]
fn test_logical_and() {
    assert!(evaluate("a == 1 && b == 2", j(r#"{"a": 1, "b": 2}"#)));
    assert!(!evaluate("a == 1 && b == 99", j(r#"{"a": 1, "b": 2}"#)));
}

#[test]
fn test_logical_or() {
    assert!(evaluate("a == 1 || b == 99", j(r#"{"a": 1, "b": 2}"#)));
    assert!(!evaluate("a == 99 || b == 99", j(r#"{"a": 1, "b": 2}"#)));
}

#[test]
fn test_logical_not() {
    assert!(evaluate("!done", j(r#"{"done": false}"#)));
    assert!(!evaluate("!done", j(r#"{"done": true}"#)));
}

#[test]
fn test_nested_field() {
    assert!(evaluate("result.confidence > 0.9", j(r#"{"result": {"confidence": 0.95}}"#)));
}

#[test]
fn test_deeply_nested() {
    assert!(evaluate(r#"a.b.c == "deep""#, j(r#"{"a": {"b": {"c": "deep"}}}"#)));
}

#[test]
fn test_missing_field() {
    assert!(!evaluate(r#"missing == "x""#, j(r#"{"other": 1}"#)));
}

#[test]
fn missing_field_makes_every_comparison_false() {
    for op in ["==", "!=", ">", "<", ">=", "<="] {
        assert!(!evaluate(&format!(r#"missing {op} "x""#), j(r#"{"other": 1}"#)));
        assert!(!evaluate(&format!("missing {op} 3"), j(r#"{"other": 1}"#)));
    }
    assert!(!evaluate("missing == null", j(r#"{"other": 1}"#)));
    assert!(!evaluate("missing", j(r#"{"other": 1}"#)));
}

#[test]
fn test_greater_equal() {
    assert!(evaluate("score >= 0.5", j(r#"{"score": 0.5}"#)));
    assert!(evaluate("score >= 0.5", j(r#"{"score": 0.8}"#)));
    assert!(!evaluate("score >= 0.5", j(r#"{"score": 0.3}"#)));
}

#[test]
fn test_less_equal() {
    assert!(evaluate("score <= 0.5", j(r#"{"score": 0.5}"#)));
    assert!(evaluate("score <= 0.5", j(r#"{"score": 0.3}"#)));
    assert!(!evaluate("score <= 0.5", j(r#"{"score": 0.8}"#)));
}

#[test]
fn test_single_quoted_string() {
    assert!(evaluate("finish_reason == 'stop'", j(r#"{"finish_reason": "stop"}"#)));
}

#[test]
fn answers_must_match_the_questions() {
    let expr = parse("score > 0.5").unwrap();
    let data = to_json(&j(r#"{"score": 0.8}"#));
    assert_eq!(condition_questions(&expr, &data).len(), 1);
    assert!(condition_holds(&expr, &data, &vec![]).is_none());
    assert_eq!(condition_holds(&expr, &data, &vec![true]), Some(true));
}
