//! Evaluating an edge condition against a node's output. Every rule is
//! here but the comparison of numbers: a comparison of two numbers, and
//! the truth of a number, are questions the caller answers on the numbers'
//! floating-point values.
use vstd::prelude::*;
use vstd::string::*;
use crate::expression::{expr_view, operand_view, path_lookup, resolve_path, CompOp, Expr, ExprView, Operand, OperandView};
use crate::json::{JsonNumber, JsonValue, JsonView};
use crate::sorted::{text_less, text_lt};
use crate::text::str_eq;

verus! {

/// A value a condition compares, with numbers left opaque.
#[derive(Debug)]
pub enum CondValue {
    Bool(bool),
    Number,
    Str(String),
    /// A null value or the literal `null`.
    Null,
    /// A field path with no value in the data.
    Missing,
    /// An array or an object.
    Other,
}

/// The model of a condition value.
pub enum CondView {
    Bool(bool),
    Number,
    Str(Seq<char>),
    Null,
    Missing,
    Other,
}

pub open spec fn cond_view(v: CondValue) -> CondView {
    match v {
        CondValue::Bool(b) => CondView::Bool(b),
        CondValue::Number => CondView::Number,
        CondValue::Str(s) => CondView::Str(s@),
        CondValue::Null => CondView::Null,
        CondValue::Missing => CondView::Missing,
        CondValue::Other => CondView::Other,
    }
}

/// The outcome of a comparison: `None` when both sides are numbers, whose
/// comparison decides. A comparison involving a missing field is false,
/// whatever the operator. A null equals only a null and is neither greater
/// nor less than anything; two strings compare by code points; two
/// booleans are only equal or unequal; any other pair of kinds compares
/// false.
pub open spec fn compare_outcome(l: CondView, r: CondView, op: CompOp) -> Option<bool> {
    let ln = l is Null;
    let rn = r is Null;
    if l is Missing || r is Missing {
        Some(false)
    } else if ln || rn {
        Some(
            match op {
                CompOp::Eq => ln && rn,
                CompOp::Ne => !(ln && rn),
                _ => false,
            },
        )
    } else if l is Number && r is Number {
        None
    } else {
        match (l, r) {
            (CondView::Str(a), CondView::Str(b)) => Some(
                match op {
                    CompOp::Eq => a == b,
                    CompOp::Ne => a != b,
                    CompOp::Gt => text_lt(b, a),
                    CompOp::Lt => text_lt(a, b),
                    CompOp::Ge => !text_lt(a, b),
                    CompOp::Le => !text_lt(b, a),
                },
            ),
            (CondView::Bool(a), CondView::Bool(b)) => Some(
                match op {
                    CompOp::Eq => a == b,
                    CompOp::Ne => a != b,
                    _ => false,
                },
            ),
            _ => Some(false),
        }
    }
}

/// Compares two condition values (see `compare_outcome`).
pub fn compare_values(l: &CondValue, r: &CondValue, op: CompOp) -> (res: Option<bool>)
    ensures
        res == compare_outcome(cond_view(*l), cond_view(*r), op),
{
    match (l, r) {
        (CondValue::Missing, _) => {
            return Some(false);
        },
        (_, CondValue::Missing) => {
            return Some(false);
        },
        _ => {},
    }
    let ln = match l {
        CondValue::Null => true,
        _ => false,
    };
    let rn = match r {
        CondValue::Null => true,
        _ => false,
    };
    if ln || rn {
        return Some(
            match op {
                CompOp::Eq => ln && rn,
                CompOp::Ne => !(ln && rn),
                _ => false,
            },
        );
    }
    match (l, r) {
        (CondValue::Number, CondValue::Number) => None,
        (CondValue::Str(a), CondValue::Str(b)) => Some(
            match op {
                CompOp::Eq => str_eq(a.as_str(), b.as_str()),
                CompOp::Ne => !str_eq(a.as_str(), b.as_str()),
                CompOp::Gt => text_less(b.as_str(), a.as_str()),
                CompOp::Lt => text_less(a.as_str(), b.as_str()),
                CompOp::Ge => !text_less(a.as_str(), b.as_str()),
                CompOp::Le => !text_less(b.as_str(), a.as_str()),
            },
        ),
        (CondValue::Bool(a), CondValue::Bool(b)) => Some(
            match op {
                CompOp::Eq => *a == *b,
                CompOp::Ne => *a != *b,
                _ => false,
            },
        ),
        _ => Some(false),
    }
}

/// Whether a value counts as true: `None` for a number, which is true when
/// it is not zero; a null or a missing field is false; a string is true
/// when it is not empty; an array or object is true.
pub open spec fn truth_of(v: CondView) -> Option<bool> {
    match v {
        CondView::Bool(b) => Some(b),
        CondView::Number => None,
        CondView::Str(s) => Some(s.len() > 0),
        CondView::Null => Some(false),
        CondView::Missing => Some(false),
        CondView::Other => Some(true),
    }
}

/// Whether a value counts as true (see `truth_of`).
pub fn truthy(v: &CondValue) -> (r: Option<bool>)
    ensures
        r == truth_of(cond_view(*v)),
{
    match v {
        CondValue::Bool(b) => Some(*b),
        CondValue::Number => None,
        CondValue::Str(s) => Some(s.as_str().unicode_len() > 0),
        CondValue::Null => Some(false),
        CondValue::Missing => Some(false),
        CondValue::Other => Some(true),
    }
}

// ---------------------------------------------------------------------------
// Evaluation over a parsed condition
// ---------------------------------------------------------------------------

/// Where a number comes from: a numeric literal's text, or a number of the
/// data.
#[derive(Debug)]
pub enum NumSource {
    Literal(String),
    Value(JsonNumber),
}

pub enum NumView {
    Literal(Seq<char>),
    Value(JsonNumber),
}

pub open spec fn num_view(n: NumSource) -> NumView {
    match n {
        NumSource::Literal(t) => NumView::Literal(t@),
        NumSource::Value(v) => NumView::Value(v),
    }
}

pub open spec fn opt_num_view(n: Option<NumSource>) -> Option<NumView> {
    match n {
        Some(x) => Some(num_view(x)),
        None => None,
    }
}

/// A question about numbers that the caller answers: whether two numbers
/// compare as the operator says, or whether a number is not zero.
#[derive(Debug)]
pub enum NumQuestion {
    Compare(NumSource, CompOp, NumSource),
    NonZero(NumSource),
}

pub enum QuestionView {
    Compare(NumView, CompOp, NumView),
    NonZero(NumView),
}

pub open spec fn question_view(q: NumQuestion) -> QuestionView {
    match q {
        NumQuestion::Compare(a, op, b) => QuestionView::Compare(num_view(a), op, num_view(b)),
        NumQuestion::NonZero(a) => QuestionView::NonZero(num_view(a)),
    }
}

pub open spec fn questions_view(s: Seq<NumQuestion>) -> Seq<QuestionView> {
    s.map_values(|q: NumQuestion| question_view(q))
}

/// The value of an operand against `data`, and its number when it is one:
/// a field path with no value is missing; a null value is null.
pub open spec fn operand_value(o: OperandView, data: JsonView) -> (CondView, Option<NumView>) {
    match o {
        OperandView::Str(s) => (CondView::Str(s), None),
        OperandView::Num(t) => (CondView::Number, Some(NumView::Literal(t))),
        OperandView::Bool(b) => (CondView::Bool(b), None),
        OperandView::Null => (CondView::Null, None),
        OperandView::Path(p) => match path_lookup(data, p) {
            None => (CondView::Missing, None),
            Some(JsonView::Null) => (CondView::Null, None),
            Some(JsonView::Bool(b)) => (CondView::Bool(b), None),
            Some(JsonView::Number(n)) => (CondView::Number, Some(NumView::Value(n))),
            Some(JsonView::Str(s)) => (CondView::Str(s), None),
            Some(_) => (CondView::Other, None),
        },
    }
}

/// The questions a condition leaves to the caller, in order (left before
/// right): one per comparison of two numbers and one per number whose
/// truth is asked.
pub open spec fn questions(e: ExprView, data: JsonView) -> Seq<QuestionView>
    decreases e,
{
    match e {
        ExprView::Or(a, b) => questions(*a, data) + questions(*b, data),
        ExprView::And(a, b) => questions(*a, data) + questions(*b, data),
        ExprView::Not(a) => questions(*a, data),
        ExprView::Compare(l, op, r) => {
            let (lv, ln) = operand_value(l, data);
            let (rv, rn) = operand_value(r, data);
            match (compare_outcome(lv, rv, op), ln, rn) {
                (None, Some(x), Some(y)) => seq![QuestionView::Compare(x, op, y)],
                _ => Seq::empty(),
            }
        },
        ExprView::Value(o) => {
            let (v, n) = operand_value(o, data);
            match (truth_of(v), n) {
                (None, Some(x)) => seq![QuestionView::NonZero(x)],
                _ => Seq::empty(),
            }
        },
    }
}

/// Whether a condition holds against `data`, given the answers to its
/// questions (see `questions`) in order: `||`, `&&` and `!` combine the
/// truth of their parts; a comparison follows `compare_outcome`; an operand
/// alone follows `truth_of`.
pub open spec fn holds(e: ExprView, data: JsonView, answers: Seq<bool>) -> bool
    decreases e,
{
    match e {
        ExprView::Or(a, b) => holds(*a, data, answers) || holds(
            *b,
            data,
            answers.skip(questions(*a, data).len() as int),
        ),
        ExprView::And(a, b) => holds(*a, data, answers) && holds(
            *b,
            data,
            answers.skip(questions(*a, data).len() as int),
        ),
        ExprView::Not(a) => !holds(*a, data, answers),
        ExprView::Compare(l, op, r) => match compare_outcome(
            operand_value(l, data).0,
            operand_value(r, data).0,
            op,
        ) {
            Some(x) => x,
            None => answers[0],
        },
        ExprView::Value(o) => match truth_of(operand_value(o, data).0) {
            Some(x) => x,
            None => answers[0],
        },
    }
}

fn operand_value_exec(o: &Operand, data: &JsonValue) -> (r: (CondValue, Option<NumSource>))
    ensures
        (cond_view(r.0), opt_num_view(r.1)) == operand_value(operand_view(*o), data@),
{
    match o {
        Operand::Str(s) => (CondValue::Str(s.clone()), None),
        Operand::Num(t) => (CondValue::Number, Some(NumSource::Literal(t.clone()))),
        Operand::Bool(b) => (CondValue::Bool(*b), None),
        Operand::Null => (CondValue::Null, None),
        Operand::Path(p) => match resolve_path(data, p.as_str()) {
            None => (CondValue::Missing, None),
            Some(v) => match v {
                JsonValue::Null => (CondValue::Null, None),
                JsonValue::Bool(b) => (CondValue::Bool(*b), None),
                JsonValue::Number(n) => (CondValue::Number, Some(NumSource::Value(*n))),
                JsonValue::Str(s) => (CondValue::Str(s.clone()), None),
                _ => (CondValue::Other, None),
            },
        },
    }
}

fn collect_questions(e: &Expr, data: &JsonValue, out: &mut Vec<NumQuestion>)
    ensures
        questions_view(final(out)@) == questions_view(old(out)@) + questions(expr_view(*e), data@),
    decreases e,
{
    let ghost before = out@;
    match e {
        Expr::Or(a, b) | Expr::And(a, b) => {
            collect_questions(a, data, out);
            let ghost mid = out@;
            collect_questions(b, data, out);
            assert(questions_view(out@) =~= questions_view(before) + questions(expr_view(*e), data@));
        },
        Expr::Not(a) => {
            collect_questions(a, data, out);
        },
        Expr::Compare(l, op, r) => {
            let (lv, ln) = operand_value_exec(l, data);
            let (rv, rn) = operand_value_exec(r, data);
            match (compare_values(&lv, &rv, *op), ln, rn) {
                (None, Some(x), Some(y)) => {
                    out.push(NumQuestion::Compare(x, *op, y));
                    assert(questions_view(out@) =~= questions_view(before) + questions(expr_view(*e), data@));
                },
                _ => {
                    assert(questions_view(out@) =~= questions_view(before) + questions(expr_view(*e), data@));
                },
            }
        },
        Expr::Value(o) => {
            let (v, n) = operand_value_exec(o, data);
            match (truthy(&v), n) {
                (None, Some(x)) => {
                    out.push(NumQuestion::NonZero(x));
                    assert(questions_view(out@) =~= questions_view(before) + questions(expr_view(*e), data@));
                },
                _ => {
                    assert(questions_view(out@) =~= questions_view(before) + questions(expr_view(*e), data@));
                },
            }
        },
    }
}

/// The questions about numbers that a condition leaves to the caller
/// against `data` (see `questions`).
pub fn condition_questions(e: &Expr, data: &JsonValue) -> (r: Vec<NumQuestion>)
    ensures
        questions_view(r@) == questions(expr_view(*e), data@),
{
    let mut out: Vec<NumQuestion> = Vec::new();
    collect_questions(e, data, &mut out);
    assert(questions_view(out@) =~= questions(expr_view(*e), data@));
    out
}

fn holds_from(e: &Expr, data: &JsonValue, answers: &Vec<bool>, start: usize) -> (r: (bool, usize))
    requires
        start + questions(expr_view(*e), data@).len() <= answers@.len(),
    ensures
        r.1 == start + questions(expr_view(*e), data@).len(),
        r.0 == holds(expr_view(*e), data@, answers@.skip(start as int)),
    decreases e,
{
    match e {
        Expr::Or(a, b) => {
            let (x, mid) = holds_from(a, data, answers, start);
            let (y, end) = holds_from(b, data, answers, mid);
            assert(answers@.skip(start as int).skip(questions(expr_view(**a), data@).len() as int)
                =~= answers@.skip(mid as int));
            (x || y, end)
        },
        Expr::And(a, b) => {
            let (x, mid) = holds_from(a, data, answers, start);
            let (y, end) = holds_from(b, data, answers, mid);
            assert(answers@.skip(start as int).skip(questions(expr_view(**a), data@).len() as int)
                =~= answers@.skip(mid as int));
            (x && y, end)
        },
        Expr::Not(a) => {
            let (x, end) = holds_from(a, data, answers, start);
            (!x, end)
        },
        Expr::Compare(l, op, r) => {
            let (lv, ln) = operand_value_exec(l, data);
            let (rv, rn) = operand_value_exec(r, data);
            match compare_values(&lv, &rv, *op) {
                Some(x) => (x, start),
                None => {
                    assert(ln is Some && rn is Some);
                    assert(questions(expr_view(*e), data@).len() == 1);
                    let n_answers = answers.len();
                    assert(start + 1 <= n_answers);
                    (answers[start], start + 1)
                },
            }
        },
        Expr::Value(o) => {
            let (v, n) = operand_value_exec(o, data);
            match truthy(&v) {
                Some(x) => (x, start),
                None => {
                    assert(n is Some);
                    assert(questions(expr_view(*e), data@).len() == 1);
                    let n_answers = answers.len();
                    assert(start + 1 <= n_answers);
                    (answers[start], start + 1)
                },
            }
        },
    }
}

/// Whether a condition holds against `data`, given the answers to its
/// questions (see `holds`); `None` when the number of answers is not the
/// number of questions.
pub fn condition_holds(e: &Expr, data: &JsonValue, answers: &Vec<bool>) -> (r: Option<bool>)
    ensures
        answers@.len() == questions(expr_view(*e), data@).len() ==> r == Some(
            holds(expr_view(*e), data@, answers@),
        ),
        answers@.len() != questions(expr_view(*e), data@).len() ==> r is None,
{
    let qs = condition_questions(e, data);
    if qs.len() != answers.len() {
        return None;
    }
    let (x, _) = holds_from(e, data, answers, 0);
    assert(answers@.skip(0) =~= answers@);
    Some(x)
}

} // verus!
