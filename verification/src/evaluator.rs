//! The evaluator: walks the syntax tree and computes the value of a program.

use vstd::prelude::*;

use crate::ast::{
    BlockStatement, ExprView, TokenView, Expression, IfExpression, Program, Statement, StmtView,
    lemma_stmts_view_len, stmts_view,
};
use crate::grammar::{at, statements_close};
use crate::lexer::tokenize;
use crate::object::{Object, objects_equal};
use crate::parser::{lemma_parsing_joined_texts, parse_text};
use crate::text::str_eq;

verus! {

/// The arithmetic faults that stop an evaluation, as Rust's checked integer
/// operations report them.
#[derive(Debug, Clone, Copy, PartialEq, Eq, Structural)]
pub enum ArithmeticError {
    AddOverflow,
    SubtractOverflow,
    MultiplyOverflow,
    DivideByZero,
    DivideOverflow,
    NegateOverflow,
}

/// The message with which Rust's integer arithmetic panics on a fault.
pub open spec fn fault_message(e: ArithmeticError) -> Seq<char> {
    match e {
        ArithmeticError::AddOverflow => "attempt to add with overflow"@,
        ArithmeticError::SubtractOverflow => "attempt to subtract with overflow"@,
        ArithmeticError::MultiplyOverflow => "attempt to multiply with overflow"@,
        ArithmeticError::DivideByZero => "attempt to divide by zero"@,
        ArithmeticError::DivideOverflow => "attempt to divide with overflow"@,
        ArithmeticError::NegateOverflow => "attempt to negate with overflow"@,
    }
}

impl ArithmeticError {
    /// The message with which Rust's integer arithmetic panics on this fault.
    pub fn message(&self) -> (res: String)
        ensures
            res@ == fault_message(*self),
    {
        let text = match self {
            ArithmeticError::AddOverflow => "attempt to add with overflow",
            ArithmeticError::SubtractOverflow => "attempt to subtract with overflow",
            ArithmeticError::MultiplyOverflow => "attempt to multiply with overflow",
            ArithmeticError::DivideByZero => "attempt to divide by zero",
            ArithmeticError::DivideOverflow => "attempt to divide with overflow",
            ArithmeticError::NegateOverflow => "attempt to negate with overflow",
        };
        text.to_string()
    }
}

/// The outcome of evaluating a piece of a program: a value, no value, or a fault.
pub type Outcome = Result<Option<Object>, ArithmeticError>;

pub open spec fn fits_i64(v: int) -> bool {
    i64::MIN <= v <= i64::MAX
}

pub open spec fn abs(v: int) -> int {
    if v < 0 {
        -v
    } else {
        v
    }
}

/// Division that rounds toward zero, as Rust's `/` on integers does.
pub open spec fn div_toward_zero(a: int, b: int) -> int {
    let q: int = abs(a) / abs(b);
    if (a < 0) == (b < 0) {
        q
    } else {
        -q
    }
}

/// An operator applied to two integers.
pub open spec fn integer_infix_value(operator: Seq<char>, left: i64, right: i64) -> Result<
    Object,
    ArithmeticError,
> {
    if operator == "+"@ {
        if fits_i64(left + right) {
            Ok(Object::Integer((left + right) as i64))
        } else {
            Err(ArithmeticError::AddOverflow)
        }
    } else if operator == "-"@ {
        if fits_i64(left - right) {
            Ok(Object::Integer((left - right) as i64))
        } else {
            Err(ArithmeticError::SubtractOverflow)
        }
    } else if operator == "*"@ {
        if fits_i64(left * right) {
            Ok(Object::Integer((left * right) as i64))
        } else {
            Err(ArithmeticError::MultiplyOverflow)
        }
    } else if operator == "/"@ {
        if right == 0 {
            Err(ArithmeticError::DivideByZero)
        } else if left == i64::MIN && right == -1 {
            Err(ArithmeticError::DivideOverflow)
        } else {
            Ok(Object::Integer(div_toward_zero(left as int, right as int) as i64))
        }
    } else if operator == "<"@ {
        Ok(Object::Boolean(left < right))
    } else if operator == ">"@ {
        Ok(Object::Boolean(left > right))
    } else if operator == "=="@ {
        Ok(Object::Boolean(left == right))
    } else if operator == "!="@ {
        Ok(Object::Boolean(left != right))
    } else {
        Ok(Object::Null)
    }
}

/// An operator applied to two operands.
pub open spec fn infix_value(operator: Seq<char>, left: Option<Object>, right: Option<Object>) -> Result<
    Object,
    ArithmeticError,
> {
    match (left, right) {
        (Some(Object::Integer(a)), Some(Object::Integer(b))) => integer_infix_value(operator, a, b),
        (Some(a), Some(b)) => if operator == "=="@ {
            Ok(Object::Boolean(a == b))
        } else if operator == "!="@ {
            Ok(Object::Boolean(a != b))
        } else {
            Ok(Object::Null)
        },
        _ => Ok(Object::Null),
    }
}

/// `!`: true of `false` and `null`, false of everything else.
pub open spec fn bang_value(right: Option<Object>) -> Object {
    match right {
        Some(Object::Boolean(false)) | Some(Object::Null) => Object::Boolean(true),
        _ => Object::Boolean(false),
    }
}

/// `-`: the negation of an integer; `null` for everything else.
pub open spec fn minus_value(right: Option<Object>) -> Result<Object, ArithmeticError> {
    match right {
        Some(Object::Integer(v)) => if v == i64::MIN {
            Err(ArithmeticError::NegateOverflow)
        } else {
            Ok(Object::Integer((-v) as i64))
        },
        _ => Ok(Object::Null),
    }
}

pub open spec fn prefix_value(operator: Seq<char>, right: Option<Object>) -> Result<
    Object,
    ArithmeticError,
> {
    if operator == "!"@ {
        Ok(bang_value(right))
    } else if operator == "-"@ {
        minus_value(right)
    } else {
        Ok(Object::Null)
    }
}

/// Everything is true but `false` and `null`; no value counts as true.
pub open spec fn truthy(o: Option<Object>) -> bool {
    !(o == Some(Object::Null) || o == Some(Object::Boolean(false)))
}

pub open spec fn lift(r: Result<Object, ArithmeticError>) -> Outcome {
    match r {
        Ok(o) => Ok(Some(o)),
        Err(e) => Err(e),
    }
}

/// The value of an expression.
pub open spec fn expr_value(e: ExprView) -> Outcome
    decreases e,
{
    match e {
        ExprView::Int { value, .. } => Ok(Some(Object::Integer(value))),
        ExprView::Bool { value, .. } => Ok(Some(Object::Boolean(value))),
        ExprView::Prefix { operator, right, .. } => match expr_value(*right) {
            Err(x) => Err(x),
            Ok(r) => lift(prefix_value(operator, r)),
        },
        ExprView::Infix { left, operator, right, .. } => match expr_value(*left) {
            Err(x) => Err(x),
            Ok(l) => match expr_value(*right) {
                Err(x) => Err(x),
                Ok(r) => lift(infix_value(operator, l, r)),
            },
        },
        ExprView::If { condition, consequence, alternative, .. } => match expr_value(*condition) {
            Err(x) => Err(x),
            Ok(c) => if truthy(c) {
                stmt_value(*consequence)
            } else {
                match alternative {
                    Some(a) => stmt_value(*a),
                    None => Ok(Some(Object::Null)),
                }
            },
        },
        _ => Ok(None),
    }
}

/// The value of a statement.
pub open spec fn stmt_value(s: StmtView) -> Outcome
    decreases s,
{
    match s {
        StmtView::Expr { expression, .. } => match expression {
            Some(x) => expr_value(*x),
            None => Ok(None),
        },
        StmtView::Block { statements, .. } => stmts_value(statements, None, false),
        StmtView::Return { value, .. } => match value {
            Some(v) => match expr_value(*v) {
                Err(x) => Err(x),
                Ok(Some(o)) => Ok(Some(Object::Return(Box::new(o)))),
                Ok(None) => Ok(None),
            },
            None => Ok(None),
        },
        StmtView::Let { .. } => Ok(None),
    }
}

/// The value of statements run one after the other, where `last` is the
/// value of the statement before them: the value of the last one, or the
/// first `return` value met, unwrapped if `unwrap`.
pub open spec fn stmts_value(ss: Seq<StmtView>, last: Option<Object>, unwrap: bool) -> Outcome
    decreases ss,
{
    if ss.len() == 0 {
        Ok(last)
    } else {
        match stmt_value(ss[0]) {
            Err(x) => Err(x),
            Ok(r) => match r {
                Some(Object::Return(v)) => if unwrap {
                    Ok(Some(*v))
                } else {
                    Ok(Some(Object::Return(v)))
                },
                _ => stmts_value(ss.drop_first(), r, unwrap),
            },
        }
    }
}

/// The value of a program: that of its last statement, or of the first
/// `return` it meets.
pub open spec fn program_value(p: Seq<StmtView>) -> Outcome {
    stmts_value(p, None, true)
}

/// Negating twice gives the truth of the value itself: `!!x` is `true`
/// exactly where `x` counts as true.
pub proof fn lemma_double_negation(x: Option<Object>)
    ensures
        bang_value(Some(bang_value(x))) == Object::Boolean(truthy(x)),
{
}

/// `!` gives the negated truth of its operand: `true` exactly for `false`
/// and `null`, `false` for every other value and for no value.
pub proof fn lemma_bang_negates_truth(x: Option<Object>)
    ensures
        bang_value(x) == Object::Boolean(!truthy(x)),
{
}

proof fn lemma_operator_texts()
    ensures
        "+"@ == seq!['+'],
        "-"@ == seq!['-'],
        "*"@ == seq!['*'],
        "/"@ == seq!['/'],
        "<"@ == seq!['<'],
        ">"@ == seq!['>'],
        "=="@ == seq!['=', '='],
        "!="@ == seq!['!', '='],
{
    reveal_strlit("+");
    reveal_strlit("-");
    reveal_strlit("*");
    reveal_strlit("/");
    reveal_strlit("<");
    reveal_strlit(">");
    reveal_strlit("==");
    reveal_strlit("!=");
}

proof fn lemma_integer_infix_values(a: i64, b: i64)
    ensures
        integer_infix_value("<"@, a, b) == Ok::<Object, ArithmeticError>(Object::Boolean(a < b)),
        integer_infix_value(">"@, a, b) == Ok::<Object, ArithmeticError>(Object::Boolean(a > b)),
        integer_infix_value("=="@, a, b) == Ok::<Object, ArithmeticError>(Object::Boolean(a == b)),
        integer_infix_value("!="@, a, b) == Ok::<Object, ArithmeticError>(Object::Boolean(a != b)),
        integer_infix_value("+"@, a, b) == if fits_i64(a + b) {
            Ok::<Object, ArithmeticError>(Object::Integer((a + b) as i64))
        } else {
            Err(ArithmeticError::AddOverflow)
        },
        integer_infix_value("-"@, a, b) == if fits_i64(a - b) {
            Ok::<Object, ArithmeticError>(Object::Integer((a - b) as i64))
        } else {
            Err(ArithmeticError::SubtractOverflow)
        },
        integer_infix_value("*"@, a, b) == if fits_i64(a * b) {
            Ok::<Object, ArithmeticError>(Object::Integer((a * b) as i64))
        } else {
            Err(ArithmeticError::MultiplyOverflow)
        },
        b == 0 ==> integer_infix_value("/"@, a, b) == Err::<Object, ArithmeticError>(
            ArithmeticError::DivideByZero,
        ),
        a == i64::MIN && b == -1 ==> integer_infix_value("/"@, a, b) == Err::<
            Object,
            ArithmeticError,
        >(ArithmeticError::DivideOverflow),
        b != 0 && !(a == i64::MIN && b == -1) ==> integer_infix_value("/"@, a, b) == Ok::<
            Object,
            ArithmeticError,
        >(Object::Integer(div_toward_zero(a as int, b as int) as i64)),
{
    lemma_operator_texts();
    let texts = seq![seq!['+'], seq!['-'], seq!['*'], seq!['/'], seq!['<'], seq!['>'], seq!['=', '='], seq!['!', '=']];
    assert forall|i: int, j: int| 0 <= i < j < 8 implies texts[i] != texts[j] by {
        if texts[i].len() == texts[j].len() {
            assert(texts[i][0] != texts[j][0]);
        }
    }
    assert(texts[0] == "+"@ && texts[1] == "-"@ && texts[2] == "*"@ && texts[3] == "/"@);
    assert(texts[4] == "<"@ && texts[5] == ">"@ && texts[6] == "=="@ && texts[7] == "!="@);
}

/// The expression `left operator right`.
pub open spec fn apply_infix(token: TokenView, left: ExprView, operator: Seq<char>, right: ExprView) -> ExprView {
    ExprView::Infix { token, left: Box::new(left), operator, right: Box::new(right) }
}

/// Operators on two integers compute in the integers, signs included: the
/// comparisons give the truth of the comparison, and `+`, `-`, `*` give the
/// exact result where it fits in `i64` and the overflow fault where not.
pub proof fn lemma_integer_operators(
    token: TokenView,
    left: ExprView,
    right: ExprView,
    a: i64,
    b: i64,
)
    requires
        expr_value(left) == Ok::<Option<Object>, ArithmeticError>(Some(Object::Integer(a))),
        expr_value(right) == Ok::<Option<Object>, ArithmeticError>(Some(Object::Integer(b))),
    ensures
        expr_value(apply_infix(token, left, "<"@, right)) == Ok::<Option<Object>, ArithmeticError>(
            Some(Object::Boolean(a < b)),
        ),
        expr_value(apply_infix(token, left, ">"@, right)) == Ok::<Option<Object>, ArithmeticError>(
            Some(Object::Boolean(a > b)),
        ),
        expr_value(apply_infix(token, left, "=="@, right)) == Ok::<Option<Object>, ArithmeticError>(
            Some(Object::Boolean(a == b)),
        ),
        expr_value(apply_infix(token, left, "!="@, right)) == Ok::<Option<Object>, ArithmeticError>(
            Some(Object::Boolean(a != b)),
        ),
        i64::MIN <= a + b <= i64::MAX ==> expr_value(apply_infix(token, left, "+"@, right))
            == Ok::<Option<Object>, ArithmeticError>(Some(Object::Integer((a + b) as i64))),
        !(i64::MIN <= a + b <= i64::MAX) ==> expr_value(apply_infix(token, left, "+"@, right))
            == Err::<Option<Object>, ArithmeticError>(ArithmeticError::AddOverflow),
        i64::MIN <= a - b <= i64::MAX ==> expr_value(apply_infix(token, left, "-"@, right))
            == Ok::<Option<Object>, ArithmeticError>(Some(Object::Integer((a - b) as i64))),
        !(i64::MIN <= a - b <= i64::MAX) ==> expr_value(apply_infix(token, left, "-"@, right))
            == Err::<Option<Object>, ArithmeticError>(ArithmeticError::SubtractOverflow),
        i64::MIN <= a * b <= i64::MAX ==> expr_value(apply_infix(token, left, "*"@, right))
            == Ok::<Option<Object>, ArithmeticError>(Some(Object::Integer((a * b) as i64))),
        !(i64::MIN <= a * b <= i64::MAX) ==> expr_value(apply_infix(token, left, "*"@, right))
            == Err::<Option<Object>, ArithmeticError>(ArithmeticError::MultiplyOverflow),
        b == 0 ==> expr_value(apply_infix(token, left, "/"@, right)) == Err::<
            Option<Object>,
            ArithmeticError,
        >(ArithmeticError::DivideByZero),
{
    lemma_integer_infix_values(a, b);
}

/// On two booleans, `==` and `!=` compare their truth values, and every
/// other operator gives `null`.
pub proof fn lemma_boolean_operators(
    token: TokenView,
    left: ExprView,
    right: ExprView,
    a: bool,
    b: bool,
    operator: Seq<char>,
)
    requires
        expr_value(left) == Ok::<Option<Object>, ArithmeticError>(Some(Object::Boolean(a))),
        expr_value(right) == Ok::<Option<Object>, ArithmeticError>(Some(Object::Boolean(b))),
    ensures
        expr_value(apply_infix(token, left, "=="@, right)) == Ok::<Option<Object>, ArithmeticError>(
            Some(Object::Boolean(a == b)),
        ),
        expr_value(apply_infix(token, left, "!="@, right)) == Ok::<Option<Object>, ArithmeticError>(
            Some(Object::Boolean(a != b)),
        ),
        operator != "=="@ && operator != "!="@ ==> expr_value(
            apply_infix(token, left, operator, right),
        ) == Ok::<Option<Object>, ArithmeticError>(Some(Object::Null)),
{
    lemma_operator_texts();
    assert(seq!['=', '='] != seq!['!', '=']) by {
        assert(seq!['=', '='][0] != seq!['!', '='][0]);
    }
}

/// `-` negates an integer, the fault being the negation of `i64::MIN`, and
/// gives `null` for a boolean.
pub proof fn lemma_minus_negates(token: TokenView, right: ExprView, o: Object)
    requires
        expr_value(right) == Ok::<Option<Object>, ArithmeticError>(Some(o)),
    ensures
        (o matches Object::Integer(v) && v != i64::MIN) ==> expr_value(
            ExprView::Prefix { token, operator: "-"@, right: Box::new(right) },
        ) == Ok::<Option<Object>, ArithmeticError>(
            Some(Object::Integer((-(o->Integer_0)) as i64)),
        ),
        o == Object::Integer(i64::MIN) ==> expr_value(
            ExprView::Prefix { token, operator: "-"@, right: Box::new(right) },
        ) == Err::<Option<Object>, ArithmeticError>(ArithmeticError::NegateOverflow),
        o matches Object::Boolean(_) ==> expr_value(
            ExprView::Prefix { token, operator: "-"@, right: Box::new(right) },
        ) == Ok::<Option<Object>, ArithmeticError>(Some(Object::Null)),
{
    lemma_operator_texts();
    reveal_strlit("!");
    assert("!"@ != seq!['-']) by {
        assert("!"@[0] != '-');
    }
}

/// Division of two integers rounds toward zero: the quotient `q` leaves a
/// remainder `a - q * b` smaller than `b` in size and of the sign of `a`.
/// Dividing by zero, and `i64::MIN` by `-1`, are faults.
pub proof fn lemma_integer_division(
    token: TokenView,
    left: ExprView,
    right: ExprView,
    a: i64,
    b: i64,
)
    requires
        expr_value(left) == Ok::<Option<Object>, ArithmeticError>(Some(Object::Integer(a))),
        expr_value(right) == Ok::<Option<Object>, ArithmeticError>(Some(Object::Integer(b))),
    ensures
        b == 0 ==> expr_value(apply_infix(token, left, "/"@, right)) == Err::<
            Option<Object>,
            ArithmeticError,
        >(ArithmeticError::DivideByZero),
        a == i64::MIN && b == -1 ==> expr_value(apply_infix(token, left, "/"@, right)) == Err::<
            Option<Object>,
            ArithmeticError,
        >(ArithmeticError::DivideOverflow),
        b != 0 && !(a == i64::MIN && b == -1) ==> (expr_value(apply_infix(token, left, "/"@, right))
            matches Ok(Some(Object::Integer(q))) && abs(a - q * b) < abs(b as int) && (a - q * b
            == 0 || (a - q * b < 0) == (a < 0))),
{
    lemma_integer_infix_values(a, b);
    if b != 0 && !(a == i64::MIN && b == -1) {
        let x: int = abs(a as int);
        let y: int = abs(b as int);
        let k: int = x / y;
        let m: int = x % y;
        assert(x == y * k + m && 0 <= m < y) by (nonlinear_arith)
            requires
                y > 0,
                k == x / y,
                m == x % y,
        ;
        assert(0 <= k <= x && (y >= 2 ==> 2 * k <= x) && (y == 1 ==> k == x)) by (nonlinear_arith)
            requires
                y > 0,
                x >= 0,
                x == y * k + m,
                0 <= m < y,
        ;
        let q: int = div_toward_zero(a as int, b as int);
        assert(q == k || q == -k);
        assert(i64::MIN <= q <= i64::MAX);
        if (a < 0) == (b < 0) {
            if a >= 0 {
                assert(a - q * b == m) by (nonlinear_arith)
                    requires
                        a == x,
                        b == y,
                        q == k,
                        x == y * k + m,
                ;
            } else {
                assert(a - q * b == -m) by (nonlinear_arith)
                    requires
                        a == -x,
                        b == -y,
                        q == k,
                        x == y * k + m,
                ;
            }
        } else {
            if a >= 0 {
                assert(a - q * b == m) by (nonlinear_arith)
                    requires
                        a == x,
                        b == -y,
                        q == -k,
                        x == y * k + m,
                ;
            } else {
                assert(a - q * b == -m) by (nonlinear_arith)
                    requires
                        a == -x,
                        b == y,
                        q == -k,
                        x == y * k + m,
                ;
            }
        }
    }
}

/// Whether a statement runs without a fault and gives no `return` value.
pub open spec fn runs_through(s: StmtView) -> bool {
    match stmt_value(s) {
        Ok(Some(Object::Return(_))) => false,
        Ok(_) => true,
        Err(_) => false,
    }
}

proof fn lemma_return_after(
    before: Seq<StmtView>,
    last: Option<Object>,
    ret: StmtView,
    v: Object,
    rest: Seq<StmtView>,
)
    requires
        forall|i: int| 0 <= i < before.len() ==> runs_through(#[trigger] before[i]),
        stmt_value(ret) == Ok::<Option<Object>, ArithmeticError>(Some(Object::Return(Box::new(v)))),
    ensures
        stmts_value(before + seq![ret] + rest, last, true) == Ok::<Option<Object>, ArithmeticError>(
            Some(v),
        ),
    decreases before.len(),
{
    let ss = before + seq![ret] + rest;
    if before.len() == 0 {
        assert(ss[0] == ret);
    } else {
        assert(ss[0] == before[0]);
        assert(runs_through(before[0]));
        assert(ss.drop_first() == before.drop_first() + seq![ret] + rest);
        assert forall|i: int| 0 <= i < before.drop_first().len() implies runs_through(
            #[trigger] before.drop_first()[i],
        ) by {
            assert(before.drop_first()[i] == before[i + 1]);
        }
        let r = match stmt_value(before[0]) {
            Ok(r) => r,
            Err(_) => None,
        };
        lemma_return_after(before.drop_first(), r, ret, v, rest);
    }
}

proof fn lemma_last_value(ss: Seq<StmtView>, last: Option<Object>, x: StmtView, unwrap: bool)
    requires
        forall|i: int| 0 <= i < ss.len() ==> runs_through(#[trigger] ss[i]),
        runs_through(x),
    ensures
        stmts_value(ss.push(x), last, unwrap) == stmt_value(x),
    decreases ss.len(),
{
    let all = ss.push(x);
    if ss.len() == 0 {
        assert(all[0] == x);
        assert(all.drop_first() == Seq::<StmtView>::empty());
        match stmt_value(x) {
            Ok(r) => {
                assert(stmts_value(Seq::<StmtView>::empty(), r, unwrap) == Ok::<
                    Option<Object>,
                    ArithmeticError,
                >(r));
            },
            Err(_) => {},
        }
    } else {
        assert(all[0] == ss[0]);
        assert(runs_through(ss[0]));
        assert(all.drop_first() == ss.drop_first().push(x));
        assert forall|i: int| 0 <= i < ss.drop_first().len() implies runs_through(
            #[trigger] ss.drop_first()[i],
        ) by {
            assert(ss.drop_first()[i] == ss[i + 1]);
        }
        let r = match stmt_value(ss[0]) {
            Ok(r) => r,
            Err(_) => None,
        };
        lemma_last_value(ss.drop_first(), r, x, unwrap);
    }
}

/// Statements that run through, one after the other, have the value of the
/// last of them, in a program as in a block.
pub proof fn lemma_value_of_last_statement(token: TokenView, ss: Seq<StmtView>, x: StmtView)
    requires
        forall|i: int| 0 <= i < ss.len() ==> runs_through(#[trigger] ss[i]),
        runs_through(x),
    ensures
        program_value(ss.push(x)) == stmt_value(x),
        stmt_value(StmtView::Block { token, statements: ss.push(x) }) == stmt_value(x),
{
    lemma_last_value(ss, None, x, true);
    lemma_last_value(ss, None, x, false);
}

/// A `return` ends the program: the statements before it run, whatever
/// follows it is not evaluated, and the program's value is the returned
/// value, unwrapped.
pub proof fn lemma_return_ends_program(
    before: Seq<StmtView>,
    token: TokenView,
    value: ExprView,
    v: Object,
    rest: Seq<StmtView>,
)
    requires
        forall|i: int| 0 <= i < before.len() ==> runs_through(#[trigger] before[i]),
        expr_value(value) == Ok::<Option<Object>, ArithmeticError>(Some(v)),
    ensures
        program_value(
            before + seq![StmtView::Return { token, value: Some(Box::new(value)) }] + rest,
        ) == Ok::<Option<Object>, ArithmeticError>(Some(v)),
{
    let ret = StmtView::Return { token, value: Some(Box::new(value)) };
    lemma_return_after(before, None, ret, v, rest);
}

/// The value of the program that a source text parses to.
pub open spec fn run_text(s: Seq<char>) -> Outcome {
    program_value(parse_text(s).0)
}

/// Whether `s` ends with `;`, leaves none of its statements open, and
/// parses without errors.
pub open spec fn closed_statements_text(s: Seq<char>) -> bool {
    &&& s.len() > 0
    &&& s.last() == ';'
    &&& statements_close(tokenize(s), at(0))
    &&& parse_text(s).1.len() == 0
}

/// In source text, a top-level `return` ends the program: with statements
/// before it that run through, the text `r` of a single `return` statement
/// whose value is computed without a fault, and any statements after it,
/// the program's value is that of `r` on its own, the returned value
/// unwrapped.
pub proof fn lemma_return_ends_source(before: Seq<char>, r: Seq<char>, after: Seq<char>)
    requires
        closed_statements_text(before),
        forall|i: int|
            0 <= i < parse_text(before).0.len() ==> runs_through(#[trigger] parse_text(before).0[i]),
        closed_statements_text(r),
        parse_text(r).0.len() == 1,
        parse_text(r).0[0] matches StmtView::Return { value: Some(e), .. } && expr_value(*e) matches Ok(
            Some(_),
        ),
        parse_text(after).1.len() == 0,
    ensures
        run_text(before + r + after) == run_text(r),
        run_text(r) matches Ok(Some(_)),
{
    lemma_parsing_joined_texts(r, after);
    lemma_parsing_joined_texts(before, r + after);
    assert(before + r + after == before + (r + after));
    let p0 = parse_text(before).0;
    let pr = parse_text(r).0;
    let pa = parse_text(after).0;
    match pr[0] {
        StmtView::Return { token, value } => {
            let e = *value->0;
            let v = expr_value(e)->Ok_0->0;
            assert(pr == seq![StmtView::Return { token, value: Some(Box::new(e)) }]);
            assert(p0 + (pr + pa) == p0 + pr + pa);
            lemma_return_ends_program(p0, token, e, v, pa);
            lemma_return_ends_program(Seq::empty(), token, e, v, Seq::empty());
            assert(Seq::<StmtView>::empty() + pr + Seq::<StmtView>::empty() == pr);
        },
        _ => {},
    }
}

/// Swapping the branches of an `if` under a negated condition keeps its
/// value.
pub proof fn lemma_if_branches_swap(
    token: TokenView,
    condition: ExprView,
    consequence: StmtView,
    alternative: StmtView,
    swapped_token: TokenView,
    bang: TokenView,
)
    ensures
        expr_value(
            ExprView::If {
                token,
                condition: Box::new(condition),
                consequence: Box::new(consequence),
                alternative: Some(Box::new(alternative)),
            },
        ) == expr_value(
            ExprView::If {
                token: swapped_token,
                condition: Box::new(
                    ExprView::Prefix { token: bang, operator: "!"@, right: Box::new(condition) },
                ),
                consequence: Box::new(alternative),
                alternative: Some(Box::new(consequence)),
            },
        ),
{
    reveal_strlit("!");
    let negated = ExprView::Prefix { token: bang, operator: "!"@, right: Box::new(condition) };
    match expr_value(condition) {
        Ok(c) => {
            assert(expr_value(negated) == Ok::<Option<Object>, ArithmeticError>(
                Some(bang_value(c)),
            ));
            assert(truthy(Some(bang_value(c))) == !truthy(c));
        },
        Err(x) => {
            assert(expr_value(negated) == Err::<Option<Object>, ArithmeticError>(x));
        },
    }
}

/// An `if` takes its first branch when its condition is an integer (zero
/// included) or `true`, and its other branch, or `null` where it has none,
/// when the condition is `false` or `null`.
pub proof fn lemma_if_chooses_branch(
    token: TokenView,
    condition: ExprView,
    consequence: StmtView,
    alternative: Option<Box<StmtView>>,
    c: Object,
)
    requires
        expr_value(condition) == Ok::<Option<Object>, ArithmeticError>(Some(c)),
    ensures
        (c matches Object::Integer(_) || c == Object::Boolean(true)) ==> expr_value(
            ExprView::If { token, condition: Box::new(condition), consequence: Box::new(consequence), alternative },
        ) == stmt_value(consequence),
        (c == Object::Boolean(false) || c == Object::Null) ==> expr_value(
            ExprView::If { token, condition: Box::new(condition), consequence: Box::new(consequence), alternative },
        ) == match alternative {
            Some(a) => stmt_value(*a),
            None => Ok::<Option<Object>, ArithmeticError>(Some(Object::Null)),
        },
{
}

/// An `if` without `else` whose condition is not true has the value `null`.
pub proof fn lemma_if_without_else_is_null(
    token: TokenView,
    condition: ExprView,
    consequence: StmtView,
)
    requires
        expr_value(condition) matches Ok(c) && !truthy(c),
    ensures
        expr_value(
            ExprView::If {
                token,
                condition: Box::new(condition),
                consequence: Box::new(consequence),
                alternative: None,
            },
        ) == Ok::<Option<Object>, ArithmeticError>(Some(Object::Null)),
{
}

/// Evaluates a program. Its arithmetic must not overflow or divide by zero.
pub fn eval(program: &Program) -> (res: Option<Object>)
    requires
        program_value(program@) is Ok,
    ensures
        program_value(program@) == Ok::<Option<Object>, ArithmeticError>(res),
{
    match eval_program(program) {
        Ok(v) => v,
        Err(_) => None,
    }
}

/// Evaluates a program, or reports the arithmetic fault that stops it.
pub fn checked_eval(program: &Program) -> (res: Outcome)
    ensures
        res == program_value(program@),
{
    eval_program(program)
}

fn eval_program(program: &Program) -> (res: Outcome)
    ensures
        res == program_value(program@),
{
    eval_statements(&program.statements, true)
}

fn eval_statements(statements: &Vec<Statement>, unwrap: bool) -> (res: Outcome)
    ensures
        res == stmts_value(stmts_view(statements@), None, unwrap),
    decreases statements,
{
    let ghost ss = stmts_view(statements@);
    proof {
        lemma_stmts_view_len(statements@);
    }
    let mut result: Option<Object> = None;
    let mut i: usize = 0;
    assert(ss.skip(0) == ss);
    while i < statements.len()
        invariant
            i <= statements@.len(),
            ss == stmts_view(statements@),
            ss.len() == statements@.len(),
            forall|j: int| 0 <= j < statements@.len() ==> #[trigger] ss[j] == statements@[j]@,
            stmts_value(ss.skip(i as int), result, unwrap) == stmts_value(ss, None, unwrap),
        decreases statements@.len() - i,
    {
        assert(decreases_to!(statements => statements@[i as int]));
        assert(ss.skip(i as int)[0] == statements@[i as int]@);
        assert(ss.skip(i as int).drop_first() == ss.skip(i + 1));
        match eval_statement(&statements[i]) {
            Err(x) => {
                return Err(x);
            },
            Ok(r) => {
                if let Some(Object::Return(v)) = r {
                    if unwrap {
                        return Ok(Some(*v));
                    } else {
                        return Ok(Some(Object::Return(v)));
                    }
                }
                result = r;
            },
        }
        i = i + 1;
    }
    assert(ss.skip(i as int).len() == 0);
    Ok(result)
}

fn eval_statement(statement: &Statement) -> (res: Outcome)
    ensures
        res == stmt_value(statement@),
    decreases statement,
{
    match statement {
        Statement::Expression(expression_statement) => match &expression_statement.expression {
            Some(expression) => eval_expression(expression),
            None => Ok(None),
        },
        Statement::Block(block_statement) => eval_block_statement(block_statement),
        Statement::Return(return_statement) => match &return_statement.return_value {
            Some(return_value) => match eval_expression(return_value) {
                Err(x) => Err(x),
                Ok(Some(val)) => Ok(Some(Object::Return(Box::new(val)))),
                Ok(None) => Ok(None),
            },
            None => Ok(None),
        },
        Statement::Let(_) => Ok(None),
    }
}

fn eval_block_statement(block_statement: &BlockStatement) -> (res: Outcome)
    ensures
        res == stmts_value(stmts_view(block_statement.statements@), None, false),
    decreases block_statement,
{
    eval_statements(&block_statement.statements, false)
}

fn eval_expression(expression: &Expression) -> (res: Outcome)
    ensures
        res == expr_value(expression@),
    decreases expression,
{
    match expression {
        Expression::IntegerLiteral(integer_literal) => Ok(Some(Object::Integer(integer_literal.value))),
        Expression::Boolean(boolean) => Ok(Some(Object::Boolean(boolean.value))),
        Expression::Prefix(expression) => {
            let right = match eval_expression(&expression.right) {
                Ok(r) => r,
                Err(x) => {
                    return Err(x);
                },
            };
            match eval_prefix_expression(expression.operator.as_str(), right.as_ref()) {
                Ok(o) => Ok(Some(o)),
                Err(x) => Err(x),
            }
        },
        Expression::Infix(infix_expression) => {
            let left = match eval_expression(&infix_expression.left) {
                Ok(l) => l,
                Err(x) => {
                    return Err(x);
                },
            };
            let right = match eval_expression(&infix_expression.right) {
                Ok(r) => r,
                Err(x) => {
                    return Err(x);
                },
            };
            match eval_infix_expression(infix_expression.operator.as_str(), left, right) {
                Ok(o) => Ok(Some(o)),
                Err(x) => Err(x),
            }
        },
        Expression::If(if_expression) => eval_if_expression(if_expression),
        _ => Ok(None),
    }
}

fn eval_prefix_expression(operator: &str, right: Option<&Object>) -> (res: Result<
    Object,
    ArithmeticError,
>)
    ensures
        res == prefix_value(operator@, match right {
            Some(r) => Some(*r),
            None => None,
        }),
{
    if str_eq(operator, "!") {
        Ok(eval_bang_operator_expression(right))
    } else if str_eq(operator, "-") {
        eval_minus_prefix_operator_expression(right)
    } else {
        Ok(Object::Null)
    }
}

fn eval_bang_operator_expression(right: Option<&Object>) -> (res: Object)
    ensures
        res == bang_value(match right {
            Some(r) => Some(*r),
            None => None,
        }),
        res == Object::Boolean(
            !truthy(
                match right {
                    Some(r) => Some(*r),
                    None => None,
                },
            ),
        ),
{
    match right {
        Some(Object::Boolean(false)) | Some(Object::Null) => Object::Boolean(true),
        _ => Object::Boolean(false),
    }
}

fn eval_minus_prefix_operator_expression(right: Option<&Object>) -> (res: Result<
    Object,
    ArithmeticError,
>)
    ensures
        res == minus_value(match right {
            Some(r) => Some(*r),
            None => None,
        }),
{
    match right {
        Some(Object::Integer(value)) => if *value == i64::MIN {
            Err(ArithmeticError::NegateOverflow)
        } else {
            Ok(Object::Integer(-*value))
        },
        _ => Ok(Object::Null),
    }
}

fn eval_infix_expression(operator: &str, left: Option<Object>, right: Option<Object>) -> (res: Result<
    Object,
    ArithmeticError,
>)
    ensures
        res == infix_value(operator@, left, right),
{
    match (left, right) {
        (Some(Object::Integer(left)), Some(Object::Integer(right))) => {
            eval_integer_infix_expression(operator, left, right)
        },
        (Some(left_obj), Some(right_obj)) => {
            if str_eq(operator, "==") {
                Ok(Object::Boolean(objects_equal(&left_obj, &right_obj)))
            } else if str_eq(operator, "!=") {
                Ok(Object::Boolean(!objects_equal(&left_obj, &right_obj)))
            } else {
                Ok(Object::Null)
            }
        },
        _ => Ok(Object::Null),
    }
}

fn divide_toward_zero(left: i64, right: i64) -> (res: i64)
    requires
        right != 0,
        !(left == i64::MIN && right == -1),
    ensures
        res == div_toward_zero(left as int, right as int),
{
    let a: u64 = if left < 0 {
        (0 - (left as i128)) as u64
    } else {
        left as u64
    };
    let b: u64 = if right < 0 {
        (0 - (right as i128)) as u64
    } else {
        right as u64
    };
    let q: u64 = a / b;
    assert(q <= a) by (nonlinear_arith)
        requires
            b >= 1,
            q == a / b,
    ;
    if (left < 0) == (right < 0) {
        assert(q <= i64::MAX) by (nonlinear_arith)
            requires
                b >= 1,
                q == a / b,
                a <= 9223372036854775808u64,
                a == 9223372036854775808u64 ==> b >= 2,
        ;
        q as i64
    } else {
        (0 - (q as i128)) as i64
    }
}

fn eval_integer_infix_expression(operator: &str, left: i64, right: i64) -> (res: Result<
    Object,
    ArithmeticError,
>)
    ensures
        res == integer_infix_value(operator@, left, right),
{
    if str_eq(operator, "+") {
        match left.checked_add(right) {
            Some(v) => Ok(Object::Integer(v)),
            None => Err(ArithmeticError::AddOverflow),
        }
    } else if str_eq(operator, "-") {
        match left.checked_sub(right) {
            Some(v) => Ok(Object::Integer(v)),
            None => Err(ArithmeticError::SubtractOverflow),
        }
    } else if str_eq(operator, "*") {
        match left.checked_mul(right) {
            Some(v) => Ok(Object::Integer(v)),
            None => Err(ArithmeticError::MultiplyOverflow),
        }
    } else if str_eq(operator, "/") {
        if right == 0 {
            Err(ArithmeticError::DivideByZero)
        } else if left == i64::MIN && right == -1 {
            Err(ArithmeticError::DivideOverflow)
        } else {
            Ok(Object::Integer(divide_toward_zero(left, right)))
        }
    } else if str_eq(operator, "<") {
        Ok(Object::Boolean(left < right))
    } else if str_eq(operator, ">") {
        Ok(Object::Boolean(left > right))
    } else if str_eq(operator, "==") {
        Ok(Object::Boolean(left == right))
    } else if str_eq(operator, "!=") {
        Ok(Object::Boolean(left != right))
    } else {
        Ok(Object::Null)
    }
}

fn eval_if_expression(if_expression: &IfExpression) -> (res: Outcome)
    ensures
        res == expr_value(Expression::If(*if_expression)@),
    decreases if_expression,
{
    let condition = match eval_expression(&if_expression.condition) {
        Ok(c) => c,
        Err(x) => {
            return Err(x);
        },
    };
    if is_truthy(condition.as_ref()) {
        return eval_statement(&if_expression.consequence);
    } else if let Some(alternative) = &if_expression.alternative {
        return eval_statement(alternative);
    }
    Ok(Some(Object::Null))
}

fn is_truthy(object: Option<&Object>) -> (res: bool)
    ensures
        res == truthy(match object {
            Some(o) => Some(*o),
            None => None,
        }),
{
    !matches!(object, Some(Object::Null) | Some(Object::Boolean(false)))
}

} // verus!
