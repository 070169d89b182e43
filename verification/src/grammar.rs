//! What the parser computes, stated over the token stream: the syntax tree
//! that each parsing function builds, the position it leaves the stream at,
//! and the error messages it records.
//!
//! Each function checks that it stands inside the stream, and that a nested
//! call has moved forward before the next one starts. The parser never
//! breaks either (its functions are proved to keep the position in the
//! stream and never to move back), so those branches are never taken; they
//! make every recursion visibly finite.

use vstd::prelude::*;

use crate::ast::{ExprView, StmtView, TokenView, expr_text, stmt_text, stmts_text};
use crate::text::parse_i64_spec;
use crate::token::{kind_name, TokenType};

verus! {

/// Where the parser stands: the index of the current token, and the error
/// messages recorded so far.
pub struct ParseState {
    pub pos: int,
    pub errors: Seq<Seq<char>>,
}

/// A token stream as the lexer hands it out: at least one token, the last
/// one `Eof`, and no `Eof` before it.
pub open spec fn valid_tokens(t: Seq<TokenView>) -> bool {
    &&& t.len() >= 1
    &&& t.last().0 == TokenType::Eof
    &&& forall|i: int| 0 <= i < t.len() - 1 ==> (#[trigger] t[i]).0 != TokenType::Eof
}

/// Whether every error recorded at `a` is still recorded, in the same
/// place, at `b`.
pub open spec fn errors_kept(a: ParseState, b: ParseState) -> bool {
    &&& a.errors.len() <= b.errors.len()
    &&& forall|i: int| 0 <= i < a.errors.len() ==> b.errors[i] == a.errors[i]
}

/// A position that is not in the stream.
pub open spec fn bad(t: Seq<TokenView>, st: ParseState) -> bool {
    !(0 <= st.pos < t.len())
}

/// Whether `b` stands strictly further along the stream than `a`.
pub open spec fn moved(a: ParseState, b: ParseState) -> bool {
    a.pos < b.pos
}

/// The token after the current one; at the end of the stream, the last one.
pub open spec fn peek(t: Seq<TokenView>, st: ParseState) -> TokenView {
    if st.pos + 1 < t.len() {
        t[st.pos + 1]
    } else {
        t.last()
    }
}

/// One step along the stream, which stays on the last token once there.
pub open spec fn adv(t: Seq<TokenView>, st: ParseState) -> ParseState {
    ParseState { pos: if st.pos + 1 < t.len() { st.pos + 1 } else { st.pos }, errors: st.errors }
}

pub open spec fn record(st: ParseState, message: Seq<char>) -> ParseState {
    ParseState { pos: st.pos, errors: st.errors.push(message) }
}

pub open spec fn peek_error_message(expected: TokenType, got: TokenType) -> Seq<char> {
    "expected next token to be "@ + kind_name(expected) + ", got "@ + kind_name(got)
        + " instead"@
}

pub open spec fn no_prefix_message(t: TokenType) -> Seq<char> {
    "no prefix parse function for "@ + kind_name(t) + " found"@
}

pub open spec fn integer_error_message(literal: Seq<char>) -> Seq<char> {
    "could not parse "@ + literal
}

/// Steps to the next token if it has kind `k`; else records an error.
pub open spec fn expect_peek(t: Seq<TokenView>, st: ParseState, k: TokenType) -> (
    bool,
    ParseState,
) {
    if peek(t, st).0 == k {
        (true, adv(t, st))
    } else {
        (false, record(st, peek_error_message(k, peek(t, st).0)))
    }
}

/// Binding strength: lowest, `==`, `<`, `+`, `*`, prefix, call.
pub open spec fn lowest() -> int {
    0
}

pub open spec fn prefix_level() -> int {
    5
}

/// How strongly a token binds as an infix operator; lowest for the others.
pub open spec fn precedence_of(k: TokenType) -> int {
    match k {
        TokenType::Eq | TokenType::NotEq => 1,
        TokenType::Lt | TokenType::Gt => 2,
        TokenType::Plus | TokenType::Minus => 3,
        TokenType::Slash | TokenType::Asterisk => 4,
        TokenType::LParen => 6,
        _ => 0,
    }
}

/// The tokens that start an expression.
pub open spec fn has_prefix(k: TokenType) -> bool {
    match k {
        TokenType::Ident | TokenType::Int | TokenType::Bang | TokenType::Minus | TokenType::True
        | TokenType::False | TokenType::LParen | TokenType::If | TokenType::Function => true,
        _ => false,
    }
}

/// The tokens that continue an expression.
pub open spec fn has_infix(k: TokenType) -> bool {
    match k {
        TokenType::Plus | TokenType::Minus | TokenType::Slash | TokenType::Asterisk
        | TokenType::Eq | TokenType::NotEq | TokenType::Lt | TokenType::Gt
        | TokenType::LParen => true,
        _ => false,
    }
}

pub open spec fn ident_of(tok: TokenView) -> ExprView {
    ExprView::Ident { token: tok, value: tok.1 }
}

pub open spec fn boxed(e: Option<ExprView>) -> Option<Box<ExprView>> {
    match e {
        Some(x) => Some(Box::new(x)),
        None => None,
    }
}

pub open spec fn boxed_stmt(s: Option<StmtView>) -> Option<Box<StmtView>> {
    match s {
        Some(x) => Some(Box::new(x)),
        None => None,
    }
}

/// Steps past a `;` that follows, if one does.
pub open spec fn skip_semicolon(t: Seq<TokenView>, st: ParseState) -> ParseState {
    if peek(t, st).0 == TokenType::SemiColon {
        adv(t, st)
    } else {
        st
    }
}

/// A statement: `let`, `return`, or an expression on its own.
pub open spec fn parse_statement(t: Seq<TokenView>, st: ParseState) -> (
    Option<StmtView>,
    ParseState,
)
    decreases t.len() - st.pos, 9int,
{
    if bad(t, st) {
        (None, st)
    } else if t[st.pos].0 == TokenType::Let {
        parse_let(t, st)
    } else if t[st.pos].0 == TokenType::Return {
        parse_return(t, st)
    } else {
        parse_expression_statement(t, st)
    }
}

pub open spec fn parse_let(t: Seq<TokenView>, st: ParseState) -> (Option<StmtView>, ParseState)
    decreases t.len() - st.pos, 8int,
{
    if bad(t, st) {
        (None, st)
    } else {
        let token = t[st.pos];
        let (ok1, s1) = expect_peek(t, st, TokenType::Ident);
        if !ok1 {
            (None, s1)
        } else {
            let name = t[s1.pos];
            let (ok2, s2) = expect_peek(t, s1, TokenType::Assign);
            if !ok2 {
                (None, s2)
            } else {
                let s3 = adv(t, s2);
                let (value, s4) = parse_expression(t, s3, lowest());
                (
                    Some(StmtView::Let { token, name: Box::new(ident_of(name)), value: boxed(value) }),
                    skip_semicolon(t, s4),
                )
            }
        }
    }
}

pub open spec fn parse_return(t: Seq<TokenView>, st: ParseState) -> (Option<StmtView>, ParseState)
    decreases t.len() - st.pos, 8int,
{
    if bad(t, st) {
        (None, st)
    } else {
        let token = t[st.pos];
        let (value, s1) = parse_expression(t, adv(t, st), lowest());
        (Some(StmtView::Return { token, value: boxed(value) }), skip_semicolon(t, s1))
    }
}

pub open spec fn parse_expression_statement(t: Seq<TokenView>, st: ParseState) -> (
    Option<StmtView>,
    ParseState,
)
    decreases t.len() - st.pos, 8int,
{
    if bad(t, st) {
        (None, st)
    } else {
        let token = t[st.pos];
        let (expression, s1) = parse_expression(t, st, lowest());
        (Some(StmtView::Expr { token, expression: boxed(expression) }), skip_semicolon(t, s1))
    }
}

/// An expression whose operators bind more strongly than `precedence`.
pub open spec fn parse_expression(t: Seq<TokenView>, st: ParseState, precedence: int) -> (
    Option<ExprView>,
    ParseState,
)
    decreases t.len() - st.pos, 7int,
{
    if bad(t, st) {
        (None, st)
    } else {
        let k = t[st.pos].0;
        if !has_prefix(k) {
            (None, record(st, no_prefix_message(k)))
        } else {
            let (left, s1) = parse_prefix(t, st);
            match left {
                None => (None, s1),
                Some(l) => if bad(t, s1) || s1.pos < st.pos {
                    (None, s1)
                } else {
                    parse_infix_loop(t, s1, precedence, l)
                },
            }
        }
    }
}

/// The operators that follow `left`, while they bind more strongly than
/// `precedence` and no `;` comes first.
pub open spec fn parse_infix_loop(
    t: Seq<TokenView>,
    st: ParseState,
    precedence: int,
    left: ExprView,
) -> (Option<ExprView>, ParseState)
    decreases t.len() - st.pos, 6int,
{
    if bad(t, st) {
        (None, st)
    } else if peek(t, st).0 != TokenType::SemiColon && precedence < precedence_of(peek(t, st).0) {
        if !has_infix(peek(t, st).0) {
            (Some(left), st)
        } else {
            let s1 = adv(t, st);
            if !moved(st, s1) {
                (None, s1)
            } else {
                let (next, s2) = parse_infix(t, s1, left);
                match next {
                    None => (None, s2),
                    Some(n) => if bad(t, s2) || !moved(st, s2) {
                        (None, s2)
                    } else {
                        parse_infix_loop(t, s2, precedence, n)
                    },
                }
            }
        }
    } else {
        (Some(left), st)
    }
}

/// The expression that the current token starts.
pub open spec fn parse_prefix(t: Seq<TokenView>, st: ParseState) -> (Option<ExprView>, ParseState)
    decreases t.len() - st.pos, 5int,
{
    if bad(t, st) {
        (None, st)
    } else {
        let token = t[st.pos];
        match token.0 {
            TokenType::Ident => (Some(ident_of(token)), st),
            TokenType::Int => match parse_i64_spec(token.1) {
                Some(v) => (Some(ExprView::Int { token, value: v }), st),
                None => (None, record(st, integer_error_message(token.1))),
            },
            TokenType::Bang | TokenType::Minus => {
                let s1 = adv(t, st);
                if !moved(st, s1) {
                    (None, s1)
                } else {
                    let (right, s2) = parse_expression(t, s1, prefix_level());
                    match right {
                        Some(r) => (
                            Some(ExprView::Prefix { token, operator: token.1, right: Box::new(r) }),
                            s2,
                        ),
                        None => (None, s2),
                    }
                }
            },
            TokenType::True | TokenType::False => (
                Some(ExprView::Bool { token, value: token.0 == TokenType::True }),
                st,
            ),
            TokenType::LParen => {
                let s1 = adv(t, st);
                if !moved(st, s1) {
                    (None, s1)
                } else {
                    let (e, s2) = parse_expression(t, s1, lowest());
                    let (ok, s3) = expect_peek(t, s2, TokenType::RParen);
                    if ok {
                        (e, s3)
                    } else {
                        (None, s3)
                    }
                }
            },
            TokenType::If => parse_if(t, st),
            TokenType::Function => parse_function(t, st),
            _ => (None, st),
        }
    }
}

/// The operator at the current token, applied to `left`.
pub open spec fn parse_infix(t: Seq<TokenView>, st: ParseState, left: ExprView) -> (
    Option<ExprView>,
    ParseState,
)
    decreases t.len() - st.pos, 5int,
{
    if bad(t, st) {
        (None, st)
    } else {
        let token = t[st.pos];
        if token.0 == TokenType::LParen {
            let (arguments, s1) = parse_call_arguments(t, st);
            (Some(ExprView::Call { token, function: Box::new(left), arguments }), s1)
        } else {
            let s1 = adv(t, st);
            if !moved(st, s1) {
                (None, s1)
            } else {
                let (right, s2) = parse_expression(t, s1, precedence_of(token.0));
                match right {
                    Some(r) => (
                        Some(
                            ExprView::Infix {
                                token,
                                left: Box::new(left),
                                operator: token.1,
                                right: Box::new(r),
                            },
                        ),
                        s2,
                    ),
                    None => (None, s2),
                }
            }
        }
    }
}

/// `if (<condition>) { ... }`, with an optional `else { ... }`.
pub open spec fn parse_if(t: Seq<TokenView>, st: ParseState) -> (Option<ExprView>, ParseState)
    decreases t.len() - st.pos, 4int,
{
    if bad(t, st) {
        (None, st)
    } else {
        let token = t[st.pos];
        let (ok1, s1) = expect_peek(t, st, TokenType::LParen);
        if !ok1 {
            (None, s1)
        } else {
            let s2 = adv(t, s1);
            if !moved(st, s2) {
                (None, s2)
            } else {
                let (condition, s3) = parse_expression(t, s2, lowest());
                match condition {
                    None => (None, s3),
                    Some(c) => {
                        let (ok2, s4) = expect_peek(t, s3, TokenType::RParen);
                        if !ok2 {
                            (None, s4)
                        } else {
                            let (ok3, s5) = expect_peek(t, s4, TokenType::LBrace);
                            if !ok3 {
                                (None, s5)
                            } else if bad(t, s5) || !moved(st, s5) {
                                (None, s5)
                            } else {
                                let (consequence, s6) = parse_block(t, s5);
                                match consequence {
                                    None => (None, s6),
                                    Some(cons) => if peek(t, s6).0 == TokenType::Else {
                                        let s7 = adv(t, s6);
                                        let (ok4, s8) = expect_peek(t, s7, TokenType::LBrace);
                                        if !ok4 {
                                            (None, s8)
                                        } else if bad(t, s8) || !moved(st, s8) {
                                            (None, s8)
                                        } else {
                                            let (alternative, s9) = parse_block(t, s8);
                                            (
                                                Some(
                                                    ExprView::If {
                                                        token,
                                                        condition: Box::new(c),
                                                        consequence: Box::new(cons),
                                                        alternative: boxed_stmt(alternative),
                                                    },
                                                ),
                                                s9,
                                            )
                                        }
                                    } else {
                                        (
                                            Some(
                                                ExprView::If {
                                                    token,
                                                    condition: Box::new(c),
                                                    consequence: Box::new(cons),
                                                    alternative: None,
                                                },
                                            ),
                                            s6,
                                        )
                                    },
                                }
                            }
                        }
                    },
                }
            }
        }
    }
}

/// `{ <statements> }`, starting at the `{`.
pub open spec fn parse_block(t: Seq<TokenView>, st: ParseState) -> (Option<StmtView>, ParseState)
    decreases t.len() - st.pos, 4int,
{
    if bad(t, st) {
        (None, st)
    } else {
        let token = t[st.pos];
        let s1 = adv(t, st);
        if !moved(st, s1) {
            (None, s1)
        } else {
            let (statements, s2) = parse_block_loop(t, s1, Seq::empty());
            (Some(StmtView::Block { token, statements }), s2)
        }
    }
}

/// The statements of a block up to its `}` or the end of the stream,
/// appended to `acc`.
pub open spec fn parse_block_loop(t: Seq<TokenView>, st: ParseState, acc: Seq<StmtView>) -> (
    Seq<StmtView>,
    ParseState,
)
    decreases t.len() - st.pos, 10int,
{
    if bad(t, st) {
        (acc, st)
    } else if t[st.pos].0 == TokenType::RBrace || t[st.pos].0 == TokenType::Eof {
        (acc, st)
    } else {
        let (s, s1) = parse_statement(t, st);
        let acc1 = match s {
            Some(x) => acc.push(x),
            None => acc,
        };
        let s2 = adv(t, s1);
        if bad(t, s2) || !moved(st, s2) {
            (acc1, s2)
        } else {
            parse_block_loop(t, s2, acc1)
        }
    }
}

/// `fn(<parameters>) { ... }`.
pub open spec fn parse_function(t: Seq<TokenView>, st: ParseState) -> (Option<ExprView>, ParseState)
    decreases t.len() - st.pos, 4int,
{
    if bad(t, st) {
        (None, st)
    } else {
        let token = t[st.pos];
        let (ok1, s1) = expect_peek(t, st, TokenType::LParen);
        if !ok1 {
            (None, s1)
        } else {
            let (parameters, s2) = parse_parameters(t, s1);
            let (ok2, s3) = expect_peek(t, s2, TokenType::LBrace);
            if !ok2 {
                (None, s3)
            } else if bad(t, s3) || !moved(st, s3) {
                (None, s3)
            } else {
                let (body, s4) = parse_block(t, s3);
                (Some(ExprView::Func { token, parameters, body: boxed_stmt(body) }), s4)
            }
        }
    }
}

/// The parameter list after `(`; empty where no `)` closes it.
pub open spec fn parse_parameters(t: Seq<TokenView>, st: ParseState) -> (
    Seq<ExprView>,
    ParseState,
) {
    if peek(t, st).0 == TokenType::RParen {
        (Seq::empty(), adv(t, st))
    } else {
        let s1 = adv(t, st);
        if bad(t, s1) {
            (Seq::empty(), s1)
        } else {
            parse_parameters_loop(t, s1, seq![ident_of(t[s1.pos])])
        }
    }
}

pub open spec fn parse_parameters_loop(
    t: Seq<TokenView>,
    st: ParseState,
    acc: Seq<ExprView>,
) -> (Seq<ExprView>, ParseState)
    decreases t.len() - st.pos,
{
    if bad(t, st) {
        (acc, st)
    } else if peek(t, st).0 == TokenType::Comma {
        let s1 = adv(t, adv(t, st));
        if !moved(st, s1) {
            (acc, s1)
        } else {
            parse_parameters_loop(t, s1, acc.push(ident_of(t[s1.pos])))
        }
    } else {
        let (ok, s1) = expect_peek(t, st, TokenType::RParen);
        if ok {
            (acc, s1)
        } else {
            (Seq::empty(), s1)
        }
    }
}

/// The argument list after `(`; empty where no `)` closes it, and the
/// arguments so far where one fails to parse.
pub open spec fn parse_call_arguments(t: Seq<TokenView>, st: ParseState) -> (
    Seq<ExprView>,
    ParseState,
)
    decreases t.len() - st.pos, 3int,
{
    if bad(t, st) {
        (Seq::empty(), st)
    } else if peek(t, st).0 == TokenType::RParen {
        (Seq::empty(), adv(t, st))
    } else {
        let s1 = adv(t, st);
        if !moved(st, s1) {
            (Seq::empty(), s1)
        } else {
            let (e, s2) = parse_expression(t, s1, lowest());
            match e {
                None => (Seq::empty(), s2),
                Some(x) => if bad(t, s2) || !moved(st, s2) {
                    (Seq::empty(), s2)
                } else {
                    parse_arguments_loop(t, s2, seq![x])
                },
            }
        }
    }
}

pub open spec fn parse_arguments_loop(t: Seq<TokenView>, st: ParseState, acc: Seq<ExprView>) -> (
    Seq<ExprView>,
    ParseState,
)
    decreases t.len() - st.pos, 3int,
{
    if bad(t, st) {
        (acc, st)
    } else if peek(t, st).0 == TokenType::Comma {
        let s1 = adv(t, adv(t, st));
        if !moved(st, s1) {
            (acc, s1)
        } else {
            let (e, s2) = parse_expression(t, s1, lowest());
            match e {
                None => (acc, s2),
                Some(x) => if bad(t, s2) || !moved(st, s2) {
                    (acc, s2)
                } else {
                    parse_arguments_loop(t, s2, acc.push(x))
                },
            }
        }
    } else {
        let (ok, s1) = expect_peek(t, st, TokenType::RParen);
        if ok {
            (acc, s1)
        } else {
            (Seq::empty(), s1)
        }
    }
}

/// The statements of a program from the current token to `Eof`,
/// appended to `acc`.
pub open spec fn parse_program_loop(t: Seq<TokenView>, st: ParseState, acc: Seq<StmtView>) -> (
    Seq<StmtView>,
    ParseState,
)
    decreases t.len() - st.pos,
{
    if bad(t, st) || t[st.pos].0 == TokenType::Eof {
        (acc, st)
    } else {
        let (s, s1) = parse_statement(t, st);
        let acc1 = match s {
            Some(x) => acc.push(x),
            None => acc,
        };
        let s2 = adv(t, s1);
        if bad(t, s2) || !moved(st, s2) {
            (acc1, s2)
        } else {
            parse_program_loop(t, s2, acc1)
        }
    }
}

/// Whether `st` stands on a token of `t`.
pub open spec fn inside(t: Seq<TokenView>, st: ParseState) -> bool {
    0 <= st.pos < t.len()
}

/// Whether `b` stands on a token of `t` no earlier than `a`, with every
/// error recorded at `a` still in place.
pub open spec fn forward(t: Seq<TokenView>, a: ParseState, b: ParseState) -> bool {
    &&& a.pos <= b.pos < t.len()
    &&& errors_kept(a, b)
}

/// Each parsing function, started on a token of the stream, ends on a
/// token of the stream no earlier than where it started, with every error
/// recorded before still in place. (The lemmas below state it for each.)
pub proof fn lemma_statement_forward(t: Seq<TokenView>, st: ParseState)
    requires
        inside(t, st),
    ensures
        forward(t, st, parse_statement(t, st).1),
    decreases t.len() - st.pos, 9int,
{
    if t[st.pos].0 == TokenType::Let {
        lemma_let_forward(t, st);
    } else if t[st.pos].0 == TokenType::Return {
        lemma_return_forward(t, st);
    } else {
        lemma_expression_statement_forward(t, st);
    }
}

pub proof fn lemma_let_forward(t: Seq<TokenView>, st: ParseState)
    requires
        inside(t, st),
    ensures
        forward(t, st, parse_let(t, st).1),
    decreases t.len() - st.pos, 8int,
{
    let (ok1, s1) = expect_peek(t, st, TokenType::Ident);
    if ok1 {
        let (ok2, s2) = expect_peek(t, s1, TokenType::Assign);
        if ok2 {
            lemma_expression_forward(t, adv(t, s2), lowest());
        }
    }
}

pub proof fn lemma_return_forward(t: Seq<TokenView>, st: ParseState)
    requires
        inside(t, st),
    ensures
        forward(t, st, parse_return(t, st).1),
    decreases t.len() - st.pos, 8int,
{
    lemma_expression_forward(t, adv(t, st), lowest());
}

pub proof fn lemma_expression_statement_forward(t: Seq<TokenView>, st: ParseState)
    requires
        inside(t, st),
    ensures
        forward(t, st, parse_expression_statement(t, st).1),
    decreases t.len() - st.pos, 8int,
{
    lemma_expression_forward(t, st, lowest());
}

pub proof fn lemma_expression_forward(t: Seq<TokenView>, st: ParseState, precedence: int)
    requires
        inside(t, st),
    ensures
        forward(t, st, parse_expression(t, st, precedence).1),
    decreases t.len() - st.pos, 7int,
{
    if has_prefix(t[st.pos].0) {
        lemma_prefix_forward(t, st);
        let (left, s1) = parse_prefix(t, st);
        if left is Some {
            lemma_infix_loop_forward(t, s1, precedence, left->0);
        }
    }
}

pub proof fn lemma_infix_loop_forward(
    t: Seq<TokenView>,
    st: ParseState,
    precedence: int,
    left: ExprView,
)
    requires
        inside(t, st),
    ensures
        forward(t, st, parse_infix_loop(t, st, precedence, left).1),
    decreases t.len() - st.pos, 6int,
{
    if peek(t, st).0 != TokenType::SemiColon && precedence < precedence_of(peek(t, st).0)
        && has_infix(peek(t, st).0) {
        let s1 = adv(t, st);
        if moved(st, s1) {
            lemma_infix_forward(t, s1, left);
            let (next, s2) = parse_infix(t, s1, left);
            if next is Some && !bad(t, s2) && moved(st, s2) {
                lemma_infix_loop_forward(t, s2, precedence, next->0);
            }
        }
    }
}

pub proof fn lemma_prefix_forward(t: Seq<TokenView>, st: ParseState)
    requires
        inside(t, st),
    ensures
        forward(t, st, parse_prefix(t, st).1),
    decreases t.len() - st.pos, 5int,
{
    let k = t[st.pos].0;
    if k == TokenType::Bang || k == TokenType::Minus {
        let s1 = adv(t, st);
        if moved(st, s1) {
            lemma_expression_forward(t, s1, prefix_level());
        }
    } else if k == TokenType::LParen {
        let s1 = adv(t, st);
        if moved(st, s1) {
            lemma_expression_forward(t, s1, lowest());
        }
    } else if k == TokenType::If {
        lemma_if_forward(t, st);
    } else if k == TokenType::Function {
        lemma_function_forward(t, st);
    }
}

pub proof fn lemma_infix_forward(t: Seq<TokenView>, st: ParseState, left: ExprView)
    requires
        inside(t, st),
    ensures
        forward(t, st, parse_infix(t, st, left).1),
    decreases t.len() - st.pos, 5int,
{
    if t[st.pos].0 == TokenType::LParen {
        lemma_call_arguments_forward(t, st);
    } else {
        let s1 = adv(t, st);
        if moved(st, s1) {
            lemma_expression_forward(t, s1, precedence_of(t[st.pos].0));
        }
    }
}

pub proof fn lemma_if_forward(t: Seq<TokenView>, st: ParseState)
    requires
        inside(t, st),
    ensures
        forward(t, st, parse_if(t, st).1),
    decreases t.len() - st.pos, 4int,
{
    let (ok1, s1) = expect_peek(t, st, TokenType::LParen);
    if ok1 {
        let s2 = adv(t, s1);
        if moved(st, s2) {
            lemma_expression_forward(t, s2, lowest());
            let (condition, s3) = parse_expression(t, s2, lowest());
            if condition is Some {
                let (ok2, s4) = expect_peek(t, s3, TokenType::RParen);
                if ok2 {
                    let (ok3, s5) = expect_peek(t, s4, TokenType::LBrace);
                    if ok3 && !bad(t, s5) && moved(st, s5) {
                        lemma_block_forward(t, s5);
                        let (consequence, s6) = parse_block(t, s5);
                        if consequence is Some && peek(t, s6).0 == TokenType::Else {
                            let s7 = adv(t, s6);
                            let (ok4, s8) = expect_peek(t, s7, TokenType::LBrace);
                            if ok4 && !bad(t, s8) && moved(st, s8) {
                                lemma_block_forward(t, s8);
                            }
                        }
                    }
                }
            }
        }
    }
}

pub proof fn lemma_block_forward(t: Seq<TokenView>, st: ParseState)
    requires
        inside(t, st),
    ensures
        forward(t, st, parse_block(t, st).1),
    decreases t.len() - st.pos, 4int,
{
    let s1 = adv(t, st);
    if moved(st, s1) {
        lemma_block_loop_forward(t, s1, Seq::empty());
    }
}

pub proof fn lemma_block_loop_forward(t: Seq<TokenView>, st: ParseState, acc: Seq<StmtView>)
    requires
        inside(t, st),
    ensures
        forward(t, st, parse_block_loop(t, st, acc).1),
    decreases t.len() - st.pos, 10int,
{
    if !(t[st.pos].0 == TokenType::RBrace || t[st.pos].0 == TokenType::Eof) {
        lemma_statement_forward(t, st);
        let (s, s1) = parse_statement(t, st);
        let acc1 = match s {
            Some(x) => acc.push(x),
            None => acc,
        };
        let s2 = adv(t, s1);
        if !bad(t, s2) && moved(st, s2) {
            lemma_block_loop_forward(t, s2, acc1);
        }
    }
}

pub proof fn lemma_function_forward(t: Seq<TokenView>, st: ParseState)
    requires
        inside(t, st),
    ensures
        forward(t, st, parse_function(t, st).1),
    decreases t.len() - st.pos, 4int,
{
    let (ok1, s1) = expect_peek(t, st, TokenType::LParen);
    if ok1 {
        lemma_parameters_forward(t, s1);
        let (parameters, s2) = parse_parameters(t, s1);
        let (ok2, s3) = expect_peek(t, s2, TokenType::LBrace);
        if ok2 && !bad(t, s3) && moved(st, s3) {
            lemma_block_forward(t, s3);
        }
    }
}

pub proof fn lemma_parameters_forward(t: Seq<TokenView>, st: ParseState)
    requires
        inside(t, st),
    ensures
        forward(t, st, parse_parameters(t, st).1),
{
    if peek(t, st).0 != TokenType::RParen {
        let s1 = adv(t, st);
        lemma_parameters_loop_forward(t, s1, seq![ident_of(t[s1.pos])]);
    }
}

pub proof fn lemma_parameters_loop_forward(t: Seq<TokenView>, st: ParseState, acc: Seq<ExprView>)
    requires
        inside(t, st),
    ensures
        forward(t, st, parse_parameters_loop(t, st, acc).1),
    decreases t.len() - st.pos,
{
    if peek(t, st).0 == TokenType::Comma {
        let s1 = adv(t, adv(t, st));
        if moved(st, s1) {
            lemma_parameters_loop_forward(t, s1, acc.push(ident_of(t[s1.pos])));
        }
    }
}

pub proof fn lemma_call_arguments_forward(t: Seq<TokenView>, st: ParseState)
    requires
        inside(t, st),
    ensures
        forward(t, st, parse_call_arguments(t, st).1),
    decreases t.len() - st.pos, 3int,
{
    if peek(t, st).0 != TokenType::RParen {
        let s1 = adv(t, st);
        if moved(st, s1) {
            lemma_expression_forward(t, s1, lowest());
            let (e, s2) = parse_expression(t, s1, lowest());
            if e is Some && !bad(t, s2) && moved(st, s2) {
                lemma_arguments_loop_forward(t, s2, seq![e->0]);
            }
        }
    }
}

pub proof fn lemma_arguments_loop_forward(t: Seq<TokenView>, st: ParseState, acc: Seq<ExprView>)
    requires
        inside(t, st),
    ensures
        forward(t, st, parse_arguments_loop(t, st, acc).1),
    decreases t.len() - st.pos, 3int,
{
    if peek(t, st).0 == TokenType::Comma {
        let s1 = adv(t, adv(t, st));
        if moved(st, s1) {
            lemma_expression_forward(t, s1, lowest());
            let (e, s2) = parse_expression(t, s1, lowest());
            if e is Some && !bad(t, s2) && moved(st, s2) {
                lemma_arguments_loop_forward(t, s2, acc.push(e->0));
            }
        }
    }
}

/// `st` moved `d` tokens further along.
pub open spec fn shift(st: ParseState, d: int) -> ParseState {
    ParseState { pos: st.pos + d, errors: st.errors }
}

/// Whether the first `n` tokens of `t` stand in `u` from index `d` on.
pub open spec fn embedded(t: Seq<TokenView>, u: Seq<TokenView>, d: int, n: int) -> bool {
    &&& 0 <= d
    &&& 0 <= n <= t.len()
    &&& d + n <= u.len()
    &&& forall|i: int| 0 <= i < n ==> #[trigger] u[d + i] == t[i]
}

/// Whether a parse of `t` that ends at `f` reads only tokens that stand in
/// `u` as well: all of `t` is a tail of `u`, or the parse ends before the
/// last of the first `n` tokens.
pub open spec fn covered(t: Seq<TokenView>, u: Seq<TokenView>, d: int, n: int, f: ParseState) -> bool {
    ||| n == t.len() && d + n == u.len()
    ||| f.pos + 1 < n
}

/// A single step of parsing reads the same in `t` and where `t` stands in `u`.
pub proof fn lemma_steps_agree(t: Seq<TokenView>, u: Seq<TokenView>, d: int, n: int, s: ParseState)
    requires
        embedded(t, u, d, n),
        0 <= s.pos < t.len(),
        (n == t.len() && d + n == u.len()) || s.pos + 1 < n,
    ensures
        !bad(u, shift(s, d)),
        u[s.pos + d] == t[s.pos],
        peek(u, shift(s, d)) == peek(t, s),
        adv(u, shift(s, d)) == shift(adv(t, s), d),
        skip_semicolon(u, shift(s, d)) == shift(skip_semicolon(t, s), d),
        forall|k: TokenType|
            #[trigger] expect_peek(u, shift(s, d), k) == (
                expect_peek(t, s, k).0,
                shift(expect_peek(t, s, k).1, d),
            ),
{
    assert(u[d + s.pos] == t[s.pos]);
    if s.pos + 1 < n {
        assert(u[d + (s.pos + 1)] == t[s.pos + 1]);
    } else {
        assert(u[d + (n - 1)] == t[n - 1]);
    }
}

/// Each parsing function reads only the tokens from where it starts to
/// the one after where it ends: run on a stream `u` that holds the first
/// `n` tokens of `t` from index `d` on, it gives the same result, moved by
/// `d`, as long as it ends before the last of those `n` tokens, or `t`
/// stands whole at the end of `u`. (The lemmas below state it for each.)
pub proof fn lemma_statement_context(
    t: Seq<TokenView>,
    u: Seq<TokenView>,
    d: int,
    n: int,
    st: ParseState,
)
    requires
        inside(t, st),
        embedded(t, u, d, n),
        covered(t, u, d, n, parse_statement(t, st).1),
    ensures
        parse_statement(u, shift(st, d)) == (
            parse_statement(t, st).0,
            shift(parse_statement(t, st).1, d),
        ),
    decreases t.len() - st.pos, 9int,
{
    lemma_statement_forward(t, st);
    lemma_steps_agree(t, u, d, n, st);
    if t[st.pos].0 == TokenType::Let {
        lemma_let_context(t, u, d, n, st);
    } else if t[st.pos].0 == TokenType::Return {
        lemma_return_context(t, u, d, n, st);
    } else {
        lemma_expression_statement_context(t, u, d, n, st);
    }
}

pub proof fn lemma_let_context(
    t: Seq<TokenView>,
    u: Seq<TokenView>,
    d: int,
    n: int,
    st: ParseState,
)
    requires
        inside(t, st),
        embedded(t, u, d, n),
        covered(t, u, d, n, parse_let(t, st).1),
    ensures
        parse_let(u, shift(st, d)) == (parse_let(t, st).0, shift(parse_let(t, st).1, d)),
    decreases t.len() - st.pos, 8int,
{
    lemma_let_forward(t, st);
    lemma_steps_agree(t, u, d, n, st);
    let (ok1, s1) = expect_peek(t, st, TokenType::Ident);
    assert(expect_peek(u, shift(st, d), TokenType::Ident) == (ok1, shift(s1, d)));
    if ok1 {
        let (ok2, s2) = expect_peek(t, s1, TokenType::Assign);
        if ok2 {
            let s3 = adv(t, s2);
            lemma_expression_forward(t, s3, lowest());
            let s4 = parse_expression(t, s3, lowest()).1;
            lemma_steps_agree(t, u, d, n, s1);
            assert(expect_peek(u, shift(s1, d), TokenType::Assign) == (ok2, shift(s2, d)));
            lemma_steps_agree(t, u, d, n, s2);
            lemma_steps_agree(t, u, d, n, s4);
            lemma_expression_context(t, u, d, n, s3, lowest());
        } else {
            lemma_steps_agree(t, u, d, n, s1);
            assert(expect_peek(u, shift(s1, d), TokenType::Assign) == (ok2, shift(s2, d)));
        }
    }
}

pub proof fn lemma_return_context(
    t: Seq<TokenView>,
    u: Seq<TokenView>,
    d: int,
    n: int,
    st: ParseState,
)
    requires
        inside(t, st),
        embedded(t, u, d, n),
        covered(t, u, d, n, parse_return(t, st).1),
    ensures
        parse_return(u, shift(st, d)) == (parse_return(t, st).0, shift(parse_return(t, st).1, d)),
    decreases t.len() - st.pos, 8int,
{
    lemma_return_forward(t, st);
    lemma_expression_forward(t, adv(t, st), lowest());
    lemma_steps_agree(t, u, d, n, st);
    let s1 = adv(t, st);
    let s2 = parse_expression(t, s1, lowest()).1;
    lemma_steps_agree(t, u, d, n, s2);
    lemma_expression_context(t, u, d, n, s1, lowest());
}

pub proof fn lemma_expression_statement_context(
    t: Seq<TokenView>,
    u: Seq<TokenView>,
    d: int,
    n: int,
    st: ParseState,
)
    requires
        inside(t, st),
        embedded(t, u, d, n),
        covered(t, u, d, n, parse_expression_statement(t, st).1),
    ensures
        parse_expression_statement(u, shift(st, d)) == (
            parse_expression_statement(t, st).0,
            shift(parse_expression_statement(t, st).1, d),
        ),
    decreases t.len() - st.pos, 8int,
{
    lemma_expression_statement_forward(t, st);
    lemma_expression_forward(t, st, lowest());
    lemma_steps_agree(t, u, d, n, st);
    let s1 = parse_expression(t, st, lowest()).1;
    lemma_steps_agree(t, u, d, n, s1);
    lemma_expression_context(t, u, d, n, st, lowest());
}

pub proof fn lemma_expression_context(
    t: Seq<TokenView>,
    u: Seq<TokenView>,
    d: int,
    n: int,
    st: ParseState,
    precedence: int,
)
    requires
        inside(t, st),
        embedded(t, u, d, n),
        covered(t, u, d, n, parse_expression(t, st, precedence).1),
    ensures
        parse_expression(u, shift(st, d), precedence) == (
            parse_expression(t, st, precedence).0,
            shift(parse_expression(t, st, precedence).1, d),
        ),
    decreases t.len() - st.pos, 7int,
{
    lemma_expression_forward(t, st, precedence);
    lemma_steps_agree(t, u, d, n, st);
    if has_prefix(t[st.pos].0) {
        lemma_prefix_forward(t, st);
        let (left, s1) = parse_prefix(t, st);
        if left is Some {
            lemma_infix_loop_forward(t, s1, precedence, left->0);
        }
        lemma_steps_agree(t, u, d, n, s1);
        lemma_prefix_context(t, u, d, n, st);
        if left is Some {
            lemma_infix_loop_context(t, u, d, n, s1, precedence, left->0);
        }
    }
}

pub proof fn lemma_infix_loop_context(
    t: Seq<TokenView>,
    u: Seq<TokenView>,
    d: int,
    n: int,
    st: ParseState,
    precedence: int,
    left: ExprView,
)
    requires
        inside(t, st),
        embedded(t, u, d, n),
        covered(t, u, d, n, parse_infix_loop(t, st, precedence, left).1),
    ensures
        parse_infix_loop(u, shift(st, d), precedence, left) == (
            parse_infix_loop(t, st, precedence, left).0,
            shift(parse_infix_loop(t, st, precedence, left).1, d),
        ),
    decreases t.len() - st.pos, 6int,
{
    lemma_infix_loop_forward(t, st, precedence, left);
    lemma_steps_agree(t, u, d, n, st);
    if peek(t, st).0 != TokenType::SemiColon && precedence < precedence_of(peek(t, st).0)
        && has_infix(peek(t, st).0) {
        let s1 = adv(t, st);
        if moved(st, s1) {
            lemma_infix_forward(t, s1, left);
            let (next, s2) = parse_infix(t, s1, left);
            if next is Some && !bad(t, s2) && moved(st, s2) {
                lemma_infix_loop_forward(t, s2, precedence, next->0);
            }
            lemma_steps_agree(t, u, d, n, s2);
            lemma_infix_context(t, u, d, n, s1, left);
            if next is Some && !bad(t, s2) && moved(st, s2) {
                lemma_infix_loop_context(t, u, d, n, s2, precedence, next->0);
            }
        }
    }
}

pub proof fn lemma_prefix_context(
    t: Seq<TokenView>,
    u: Seq<TokenView>,
    d: int,
    n: int,
    st: ParseState,
)
    requires
        inside(t, st),
        embedded(t, u, d, n),
        covered(t, u, d, n, parse_prefix(t, st).1),
    ensures
        parse_prefix(u, shift(st, d)) == (parse_prefix(t, st).0, shift(parse_prefix(t, st).1, d)),
    decreases t.len() - st.pos, 5int,
{
    lemma_prefix_forward(t, st);
    lemma_steps_agree(t, u, d, n, st);
    let k = t[st.pos].0;
    if k == TokenType::Bang || k == TokenType::Minus {
        let s1 = adv(t, st);
        if moved(st, s1) {
            lemma_expression_forward(t, s1, prefix_level());
            lemma_expression_context(t, u, d, n, s1, prefix_level());
        }
    } else if k == TokenType::LParen {
        let s1 = adv(t, st);
        if moved(st, s1) {
            lemma_expression_forward(t, s1, lowest());
            let s2 = parse_expression(t, s1, lowest()).1;
            lemma_steps_agree(t, u, d, n, s2);
            assert(expect_peek(u, shift(s2, d), TokenType::RParen) == (
                expect_peek(t, s2, TokenType::RParen).0,
                shift(expect_peek(t, s2, TokenType::RParen).1, d),
            ));
            lemma_expression_context(t, u, d, n, s1, lowest());
        }
    } else if k == TokenType::If {
        lemma_if_context(t, u, d, n, st);
    } else if k == TokenType::Function {
        lemma_function_context(t, u, d, n, st);
    }
}

pub proof fn lemma_infix_context(
    t: Seq<TokenView>,
    u: Seq<TokenView>,
    d: int,
    n: int,
    st: ParseState,
    left: ExprView,
)
    requires
        inside(t, st),
        embedded(t, u, d, n),
        covered(t, u, d, n, parse_infix(t, st, left).1),
    ensures
        parse_infix(u, shift(st, d), left) == (
            parse_infix(t, st, left).0,
            shift(parse_infix(t, st, left).1, d),
        ),
    decreases t.len() - st.pos, 5int,
{
    lemma_infix_forward(t, st, left);
    lemma_steps_agree(t, u, d, n, st);
    if t[st.pos].0 == TokenType::LParen {
        lemma_call_arguments_context(t, u, d, n, st);
    } else {
        let s1 = adv(t, st);
        if moved(st, s1) {
            lemma_expression_forward(t, s1, precedence_of(t[st.pos].0));
            lemma_expression_context(t, u, d, n, s1, precedence_of(t[st.pos].0));
        }
    }
}

proof fn lemma_if_order(t: Seq<TokenView>, st: ParseState)
    requires
        inside(t, st),
    ensures
        ({
            let (ok1, s1) = expect_peek(t, st, TokenType::LParen);
            let s2 = adv(t, s1);
            let (condition, s3) = parse_expression(t, s2, lowest());
            let (ok2, s4) = expect_peek(t, s3, TokenType::RParen);
            let (ok3, s5) = expect_peek(t, s4, TokenType::LBrace);
            let (consequence, s6) = parse_block(t, s5);
            let s7 = adv(t, s6);
            let (ok4, s8) = expect_peek(t, s7, TokenType::LBrace);
            &&& ok1 && moved(st, s2) ==> forward(t, s2, s3)
            &&& ok1 && moved(st, s2) && condition is Some && ok2 && ok3 && !bad(t, s5) && moved(
                st,
                s5,
            ) ==> forward(t, s5, s6)
            &&& ok1 && moved(st, s2) && condition is Some && ok2 && ok3 && !bad(t, s5) && moved(
                st,
                s5,
            ) && consequence is Some && peek(t, s6).0 == TokenType::Else && ok4 && !bad(t, s8)
                && moved(st, s8) ==> forward(t, s8, parse_block(t, s8).1)
        }),
{
    let (ok1, s1) = expect_peek(t, st, TokenType::LParen);
    let s2 = adv(t, s1);
    if ok1 && moved(st, s2) {
        lemma_expression_forward(t, s2, lowest());
        let (condition, s3) = parse_expression(t, s2, lowest());
        let (ok2, s4) = expect_peek(t, s3, TokenType::RParen);
        let (ok3, s5) = expect_peek(t, s4, TokenType::LBrace);
        if condition is Some && ok2 && ok3 && !bad(t, s5) && moved(st, s5) {
            lemma_block_forward(t, s5);
            let (consequence, s6) = parse_block(t, s5);
            let s7 = adv(t, s6);
            let (ok4, s8) = expect_peek(t, s7, TokenType::LBrace);
            if consequence is Some && peek(t, s6).0 == TokenType::Else && ok4 && !bad(t, s8)
                && moved(st, s8) {
                lemma_block_forward(t, s8);
            }
        }
    }
}

pub proof fn lemma_if_context(
    t: Seq<TokenView>,
    u: Seq<TokenView>,
    d: int,
    n: int,
    st: ParseState,
)
    requires
        inside(t, st),
        embedded(t, u, d, n),
        covered(t, u, d, n, parse_if(t, st).1),
    ensures
        parse_if(u, shift(st, d)) == (parse_if(t, st).0, shift(parse_if(t, st).1, d)),
    decreases t.len() - st.pos, 4int,
{
    lemma_if_forward(t, st);
    lemma_if_order(t, st);
    lemma_steps_agree(t, u, d, n, st);
    let (ok1, s1) = expect_peek(t, st, TokenType::LParen);
    assert(expect_peek(u, shift(st, d), TokenType::LParen) == (ok1, shift(s1, d)));
    if ok1 {
        lemma_steps_agree(t, u, d, n, s1);
        let s2 = adv(t, s1);
        if moved(st, s2) {
            lemma_expression_forward(t, s2, lowest());
            let (condition, s3) = parse_expression(t, s2, lowest());
            lemma_expression_context(t, u, d, n, s2, lowest());
            if condition is Some {
                lemma_steps_agree(t, u, d, n, s3);
                let (ok2, s4) = expect_peek(t, s3, TokenType::RParen);
                assert(expect_peek(u, shift(s3, d), TokenType::RParen) == (ok2, shift(s4, d)));
                if ok2 {
                    lemma_steps_agree(t, u, d, n, s4);
                    let (ok3, s5) = expect_peek(t, s4, TokenType::LBrace);
                    assert(expect_peek(u, shift(s4, d), TokenType::LBrace) == (ok3, shift(s5, d)));
                    if ok3 && !bad(t, s5) && moved(st, s5) {
                        lemma_block_forward(t, s5);
                        let (consequence, s6) = parse_block(t, s5);
                        lemma_steps_agree(t, u, d, n, s5);
                        if consequence is Some && peek(t, s6).0 == TokenType::Else {
                            let s7 = adv(t, s6);
                            let (ok4, s8) = expect_peek(t, s7, TokenType::LBrace);
                            if ok4 && !bad(t, s8) && moved(st, s8) {
                                lemma_block_forward(t, s8);
                            }
                            lemma_steps_agree(t, u, d, n, s6);
                            lemma_steps_agree(t, u, d, n, s7);
                            assert(expect_peek(u, shift(s7, d), TokenType::LBrace) == (
                                ok4,
                                shift(s8, d),
                            ));
                            lemma_block_context(t, u, d, n, s5);
                            if ok4 && !bad(t, s8) && moved(st, s8) {
                                lemma_steps_agree(t, u, d, n, s8);
                                lemma_block_context(t, u, d, n, s8);
                            }
                        } else {
                            if consequence is Some {
                                lemma_steps_agree(t, u, d, n, s6);
                            }
                            lemma_block_context(t, u, d, n, s5);
                        }
                    }
                }
            }
        }
    }
}

pub proof fn lemma_block_context(
    t: Seq<TokenView>,
    u: Seq<TokenView>,
    d: int,
    n: int,
    st: ParseState,
)
    requires
        inside(t, st),
        embedded(t, u, d, n),
        covered(t, u, d, n, parse_block(t, st).1),
    ensures
        parse_block(u, shift(st, d)) == (parse_block(t, st).0, shift(parse_block(t, st).1, d)),
    decreases t.len() - st.pos, 4int,
{
    lemma_block_forward(t, st);
    lemma_steps_agree(t, u, d, n, st);
    let s1 = adv(t, st);
    if moved(st, s1) {
        lemma_block_loop_forward(t, s1, Seq::empty());
        lemma_block_loop_context(t, u, d, n, s1, Seq::empty());
    }
}

pub proof fn lemma_block_loop_context(
    t: Seq<TokenView>,
    u: Seq<TokenView>,
    d: int,
    n: int,
    st: ParseState,
    acc: Seq<StmtView>,
)
    requires
        inside(t, st),
        embedded(t, u, d, n),
        covered(t, u, d, n, parse_block_loop(t, st, acc).1),
    ensures
        parse_block_loop(u, shift(st, d), acc) == (
            parse_block_loop(t, st, acc).0,
            shift(parse_block_loop(t, st, acc).1, d),
        ),
    decreases t.len() - st.pos, 10int,
{
    lemma_block_loop_forward(t, st, acc);
    lemma_steps_agree(t, u, d, n, st);
    if !(t[st.pos].0 == TokenType::RBrace || t[st.pos].0 == TokenType::Eof) {
        lemma_statement_forward(t, st);
        let (s, s1) = parse_statement(t, st);
        let acc1 = match s {
            Some(x) => acc.push(x),
            None => acc,
        };
        let s2 = adv(t, s1);
        if !bad(t, s2) && moved(st, s2) {
            lemma_block_loop_forward(t, s2, acc1);
        }
        lemma_steps_agree(t, u, d, n, s1);
        lemma_statement_context(t, u, d, n, st);
        if !bad(t, s2) && moved(st, s2) {
            lemma_steps_agree(t, u, d, n, s2);
            lemma_block_loop_context(t, u, d, n, s2, acc1);
        }
    }
}

pub proof fn lemma_function_context(
    t: Seq<TokenView>,
    u: Seq<TokenView>,
    d: int,
    n: int,
    st: ParseState,
)
    requires
        inside(t, st),
        embedded(t, u, d, n),
        covered(t, u, d, n, parse_function(t, st).1),
    ensures
        parse_function(u, shift(st, d)) == (
            parse_function(t, st).0,
            shift(parse_function(t, st).1, d),
        ),
    decreases t.len() - st.pos, 4int,
{
    lemma_function_forward(t, st);
    lemma_steps_agree(t, u, d, n, st);
    let (ok1, s1) = expect_peek(t, st, TokenType::LParen);
    assert(expect_peek(u, shift(st, d), TokenType::LParen) == (ok1, shift(s1, d)));
    if ok1 {
        lemma_parameters_forward(t, s1);
        let (parameters, s2) = parse_parameters(t, s1);
        let (ok2, s3) = expect_peek(t, s2, TokenType::LBrace);
        if ok2 && !bad(t, s3) && moved(st, s3) {
            lemma_block_forward(t, s3);
        }
        lemma_parameters_context(t, u, d, n, s1);
        lemma_steps_agree(t, u, d, n, s2);
        assert(expect_peek(u, shift(s2, d), TokenType::LBrace) == (ok2, shift(s3, d)));
        if ok2 && !bad(t, s3) && moved(st, s3) {
            lemma_steps_agree(t, u, d, n, s3);
            lemma_block_context(t, u, d, n, s3);
        }
    }
}

pub proof fn lemma_parameters_context(
    t: Seq<TokenView>,
    u: Seq<TokenView>,
    d: int,
    n: int,
    st: ParseState,
)
    requires
        inside(t, st),
        embedded(t, u, d, n),
        covered(t, u, d, n, parse_parameters(t, st).1),
    ensures
        parse_parameters(u, shift(st, d)) == (
            parse_parameters(t, st).0,
            shift(parse_parameters(t, st).1, d),
        ),
{
    lemma_parameters_forward(t, st);
    lemma_steps_agree(t, u, d, n, st);
    if peek(t, st).0 != TokenType::RParen {
        let s1 = adv(t, st);
        lemma_parameters_loop_forward(t, s1, seq![ident_of(t[s1.pos])]);
        lemma_steps_agree(t, u, d, n, s1);
        lemma_parameters_loop_context(t, u, d, n, s1, seq![ident_of(t[s1.pos])]);
    }
}

pub proof fn lemma_parameters_loop_context(
    t: Seq<TokenView>,
    u: Seq<TokenView>,
    d: int,
    n: int,
    st: ParseState,
    acc: Seq<ExprView>,
)
    requires
        inside(t, st),
        embedded(t, u, d, n),
        covered(t, u, d, n, parse_parameters_loop(t, st, acc).1),
    ensures
        parse_parameters_loop(u, shift(st, d), acc) == (
            parse_parameters_loop(t, st, acc).0,
            shift(parse_parameters_loop(t, st, acc).1, d),
        ),
    decreases t.len() - st.pos,
{
    lemma_parameters_loop_forward(t, st, acc);
    lemma_steps_agree(t, u, d, n, st);
    if peek(t, st).0 == TokenType::Comma {
        let a1 = adv(t, st);
        let s1 = adv(t, a1);
        if moved(st, s1) {
            lemma_parameters_loop_forward(t, s1, acc.push(ident_of(t[s1.pos])));
            lemma_steps_agree(t, u, d, n, a1);
            lemma_steps_agree(t, u, d, n, s1);
            lemma_parameters_loop_context(t, u, d, n, s1, acc.push(ident_of(t[s1.pos])));
        } else {
            lemma_steps_agree(t, u, d, n, a1);
        }
    } else {
        assert(expect_peek(u, shift(st, d), TokenType::RParen) == (
            expect_peek(t, st, TokenType::RParen).0,
            shift(expect_peek(t, st, TokenType::RParen).1, d),
        ));
    }
}

pub proof fn lemma_call_arguments_context(
    t: Seq<TokenView>,
    u: Seq<TokenView>,
    d: int,
    n: int,
    st: ParseState,
)
    requires
        inside(t, st),
        embedded(t, u, d, n),
        covered(t, u, d, n, parse_call_arguments(t, st).1),
    ensures
        parse_call_arguments(u, shift(st, d)) == (
            parse_call_arguments(t, st).0,
            shift(parse_call_arguments(t, st).1, d),
        ),
    decreases t.len() - st.pos, 3int,
{
    lemma_call_arguments_forward(t, st);
    lemma_steps_agree(t, u, d, n, st);
    if peek(t, st).0 != TokenType::RParen {
        let s1 = adv(t, st);
        if moved(st, s1) {
            lemma_expression_forward(t, s1, lowest());
            let (e, s2) = parse_expression(t, s1, lowest());
            if e is Some && !bad(t, s2) && moved(st, s2) {
                lemma_arguments_loop_forward(t, s2, seq![e->0]);
            }
            lemma_expression_context(t, u, d, n, s1, lowest());
            lemma_steps_agree(t, u, d, n, s2);
            if e is Some && !bad(t, s2) && moved(st, s2) {
                lemma_arguments_loop_context(t, u, d, n, s2, seq![e->0]);
            }
        }
    }
}

pub proof fn lemma_arguments_loop_context(
    t: Seq<TokenView>,
    u: Seq<TokenView>,
    d: int,
    n: int,
    st: ParseState,
    acc: Seq<ExprView>,
)
    requires
        inside(t, st),
        embedded(t, u, d, n),
        covered(t, u, d, n, parse_arguments_loop(t, st, acc).1),
    ensures
        parse_arguments_loop(u, shift(st, d), acc) == (
            parse_arguments_loop(t, st, acc).0,
            shift(parse_arguments_loop(t, st, acc).1, d),
        ),
    decreases t.len() - st.pos, 3int,
{
    lemma_arguments_loop_forward(t, st, acc);
    lemma_steps_agree(t, u, d, n, st);
    if peek(t, st).0 == TokenType::Comma {
        let a1 = adv(t, st);
        let s1 = adv(t, a1);
        if moved(st, s1) {
            lemma_expression_forward(t, s1, lowest());
            let (e, s2) = parse_expression(t, s1, lowest());
            if e is Some && !bad(t, s2) && moved(st, s2) {
                lemma_arguments_loop_forward(t, s2, acc.push(e->0));
            }
            lemma_steps_agree(t, u, d, n, a1);
            lemma_expression_context(t, u, d, n, s1, lowest());
            lemma_steps_agree(t, u, d, n, s2);
            if e is Some && !bad(t, s2) && moved(st, s2) {
                lemma_arguments_loop_context(t, u, d, n, s2, acc.push(e->0));
            }
        } else {
            lemma_steps_agree(t, u, d, n, a1);
        }
    } else {
        assert(expect_peek(u, shift(st, d), TokenType::RParen) == (
            expect_peek(t, st, TokenType::RParen).0,
            shift(expect_peek(t, st, TokenType::RParen).1, d),
        ));
    }
}

/// Whether no error was recorded between `a` and `b`.
pub open spec fn clean(a: ParseState, b: ParseState) -> bool {
    b.errors.len() == a.errors.len()
}

/// Whether `t` stands on a token other than `;` at `s`.
pub open spec fn off_semicolon(t: Seq<TokenView>, s: ParseState) -> bool {
    t[s.pos].0 != TokenType::SemiColon
}

proof fn lemma_expect_peek_lands(t: Seq<TokenView>, st: ParseState, k: TokenType)
    requires
        inside(t, st),
    ensures
        inside(t, expect_peek(t, st, k).1),
        expect_peek(t, st, k).0 ==> t[expect_peek(t, st, k).1.pos].0 == k,
        !expect_peek(t, st, k).0 ==> !clean(st, expect_peek(t, st, k).1),
{
}

/// A statement that records no error does not start with `;`, and an
/// expression that records none starts with a token that begins an
/// expression and does not end on a `;`. (The lemmas below state the
/// latter for each parsing function of expressions.)
pub proof fn lemma_statement_clean_start(t: Seq<TokenView>, st: ParseState)
    requires
        inside(t, st),
        t.last().0 == TokenType::Eof,
    ensures
        clean(st, parse_statement(t, st).1) ==> off_semicolon(t, st),
    decreases t.len() - st.pos, 9int,
{
    let k = t[st.pos].0;
    if k != TokenType::Let && k != TokenType::Return {
        lemma_expression_clean_end(t, st, lowest());
        lemma_expression_forward(t, st, lowest());
    }
}

pub proof fn lemma_expression_clean_end(t: Seq<TokenView>, st: ParseState, precedence: int)
    requires
        inside(t, st),
        t.last().0 == TokenType::Eof,
    ensures
        clean(st, parse_expression(t, st, precedence).1) ==> has_prefix(t[st.pos].0)
            && off_semicolon(t, parse_expression(t, st, precedence).1),
    decreases t.len() - st.pos, 7int,
{
    if has_prefix(t[st.pos].0) {
        lemma_prefix_forward(t, st);
        lemma_prefix_clean_end(t, st);
        let (left, s1) = parse_prefix(t, st);
        if left is Some && !bad(t, s1) && s1.pos >= st.pos {
            lemma_infix_loop_forward(t, s1, precedence, left->0);
            if clean(st, s1) {
                lemma_infix_loop_clean_end(t, s1, precedence, left->0);
            }
        }
    }
}

pub proof fn lemma_infix_loop_clean_end(
    t: Seq<TokenView>,
    st: ParseState,
    precedence: int,
    left: ExprView,
)
    requires
        inside(t, st),
        t.last().0 == TokenType::Eof,
        off_semicolon(t, st),
    ensures
        clean(st, parse_infix_loop(t, st, precedence, left).1) ==> off_semicolon(
            t,
            parse_infix_loop(t, st, precedence, left).1,
        ),
    decreases t.len() - st.pos, 6int,
{
    if peek(t, st).0 != TokenType::SemiColon && precedence < precedence_of(peek(t, st).0)
        && has_infix(peek(t, st).0) {
        let s1 = adv(t, st);
        if moved(st, s1) {
            lemma_infix_forward(t, s1, left);
            lemma_infix_clean_end(t, s1, left);
            let (next, s2) = parse_infix(t, s1, left);
            if next is Some && !bad(t, s2) && moved(st, s2) {
                lemma_infix_loop_forward(t, s2, precedence, next->0);
                if clean(s1, s2) {
                    lemma_infix_loop_clean_end(t, s2, precedence, next->0);
                }
            }
        }
    }
}

pub proof fn lemma_prefix_clean_end(t: Seq<TokenView>, st: ParseState)
    requires
        inside(t, st),
        t.last().0 == TokenType::Eof,
        has_prefix(t[st.pos].0),
    ensures
        clean(st, parse_prefix(t, st).1) ==> off_semicolon(t, parse_prefix(t, st).1),
    decreases t.len() - st.pos, 5int,
{
    let k = t[st.pos].0;
    if k == TokenType::Bang || k == TokenType::Minus {
        let s1 = adv(t, st);
        if moved(st, s1) {
            lemma_expression_clean_end(t, s1, prefix_level());
        }
    } else if k == TokenType::LParen {
        let s1 = adv(t, st);
        if moved(st, s1) {
            lemma_expression_forward(t, s1, lowest());
            let s2 = parse_expression(t, s1, lowest()).1;
            lemma_expect_peek_lands(t, s2, TokenType::RParen);
        }
    } else if k == TokenType::If {
        lemma_if_clean_end(t, st);
    } else if k == TokenType::Function {
        lemma_function_clean_end(t, st);
    }
}

pub proof fn lemma_infix_clean_end(t: Seq<TokenView>, st: ParseState, left: ExprView)
    requires
        inside(t, st),
        t.last().0 == TokenType::Eof,
        has_infix(t[st.pos].0),
    ensures
        clean(st, parse_infix(t, st, left).1) ==> off_semicolon(t, parse_infix(t, st, left).1),
    decreases t.len() - st.pos, 5int,
{
    if t[st.pos].0 == TokenType::LParen {
        lemma_call_arguments_clean_end(t, st);
    } else {
        let s1 = adv(t, st);
        if moved(st, s1) {
            lemma_expression_clean_end(t, s1, precedence_of(t[st.pos].0));
        }
    }
}

pub proof fn lemma_if_clean_end(t: Seq<TokenView>, st: ParseState)
    requires
        inside(t, st),
        t.last().0 == TokenType::Eof,
        t[st.pos].0 == TokenType::If,
    ensures
        clean(st, parse_if(t, st).1) ==> off_semicolon(t, parse_if(t, st).1),
    decreases t.len() - st.pos, 4int,
{
    lemma_if_order(t, st);
    let (ok1, s1) = expect_peek(t, st, TokenType::LParen);
    lemma_expect_peek_lands(t, st, TokenType::LParen);
    if ok1 {
        let s2 = adv(t, s1);
        if moved(st, s2) {
            lemma_expression_clean_end(t, s2, lowest());
            let (condition, s3) = parse_expression(t, s2, lowest());
            if condition is Some {
                lemma_expect_peek_lands(t, s3, TokenType::RParen);
                let (ok2, s4) = expect_peek(t, s3, TokenType::RParen);
                if ok2 {
                    lemma_expect_peek_lands(t, s4, TokenType::LBrace);
                    let (ok3, s5) = expect_peek(t, s4, TokenType::LBrace);
                    if ok3 && !bad(t, s5) && moved(st, s5) {
                        lemma_block_clean_end(t, s5);
                        let (consequence, s6) = parse_block(t, s5);
                        if consequence is Some && peek(t, s6).0 == TokenType::Else {
                            let s7 = adv(t, s6);
                            lemma_expect_peek_lands(t, s7, TokenType::LBrace);
                            let (ok4, s8) = expect_peek(t, s7, TokenType::LBrace);
                            if ok4 && !bad(t, s8) && moved(st, s8) {
                                lemma_block_clean_end(t, s8);
                            }
                        }
                    }
                }
            }
        }
    }
}

pub proof fn lemma_block_clean_end(t: Seq<TokenView>, st: ParseState)
    requires
        inside(t, st),
        t.last().0 == TokenType::Eof,
        t[st.pos].0 == TokenType::LBrace,
    ensures
        clean(st, parse_block(t, st).1) ==> off_semicolon(t, parse_block(t, st).1),
    decreases t.len() - st.pos, 4int,
{
    let s1 = adv(t, st);
    if moved(st, s1) {
        lemma_block_loop_clean_end(t, s1, Seq::empty());
    }
}

pub proof fn lemma_block_loop_clean_end(t: Seq<TokenView>, st: ParseState, acc: Seq<StmtView>)
    requires
        inside(t, st),
        t.last().0 == TokenType::Eof,
    ensures
        clean(st, parse_block_loop(t, st, acc).1) ==> off_semicolon(
            t,
            parse_block_loop(t, st, acc).1,
        ),
    decreases t.len() - st.pos, 10int,
{
    if !(t[st.pos].0 == TokenType::RBrace || t[st.pos].0 == TokenType::Eof) {
        lemma_statement_forward(t, st);
        lemma_statement_clean_start(t, st);
        let (s, s1) = parse_statement(t, st);
        let acc1 = match s {
            Some(x) => acc.push(x),
            None => acc,
        };
        let s2 = adv(t, s1);
        if !bad(t, s2) && moved(st, s2) {
            lemma_block_loop_forward(t, s2, acc1);
            if clean(st, s2) {
                lemma_block_loop_clean_end(t, s2, acc1);
            }
        }
    }
}

pub proof fn lemma_function_clean_end(t: Seq<TokenView>, st: ParseState)
    requires
        inside(t, st),
        t.last().0 == TokenType::Eof,
        t[st.pos].0 == TokenType::Function,
    ensures
        clean(st, parse_function(t, st).1) ==> off_semicolon(t, parse_function(t, st).1),
    decreases t.len() - st.pos, 4int,
{
    let (ok1, s1) = expect_peek(t, st, TokenType::LParen);
    lemma_expect_peek_lands(t, st, TokenType::LParen);
    if ok1 {
        lemma_parameters_forward(t, s1);
        let (parameters, s2) = parse_parameters(t, s1);
        lemma_expect_peek_lands(t, s2, TokenType::LBrace);
        let (ok2, s3) = expect_peek(t, s2, TokenType::LBrace);
        if ok2 && !bad(t, s3) && moved(st, s3) {
            lemma_block_forward(t, s3);
            lemma_block_clean_end(t, s3);
        }
    }
}

pub proof fn lemma_call_arguments_clean_end(t: Seq<TokenView>, st: ParseState)
    requires
        inside(t, st),
        t.last().0 == TokenType::Eof,
        t[st.pos].0 == TokenType::LParen,
    ensures
        clean(st, parse_call_arguments(t, st).1) ==> off_semicolon(
            t,
            parse_call_arguments(t, st).1,
        ),
    decreases t.len() - st.pos, 3int,
{
    if peek(t, st).0 != TokenType::RParen {
        let s1 = adv(t, st);
        if moved(st, s1) {
            lemma_expression_forward(t, s1, lowest());
            lemma_expression_clean_end(t, s1, lowest());
            let (e, s2) = parse_expression(t, s1, lowest());
            if e is Some && !bad(t, s2) && moved(st, s2) {
                lemma_arguments_loop_forward(t, s2, seq![e->0]);
                if clean(s1, s2) {
                    lemma_arguments_loop_clean_end(t, s2, seq![e->0]);
                }
            }
        }
    }
}

pub proof fn lemma_arguments_loop_clean_end(t: Seq<TokenView>, st: ParseState, acc: Seq<ExprView>)
    requires
        inside(t, st),
        t.last().0 == TokenType::Eof,
        off_semicolon(t, st),
    ensures
        clean(st, parse_arguments_loop(t, st, acc).1) ==> off_semicolon(
            t,
            parse_arguments_loop(t, st, acc).1,
        ),
    decreases t.len() - st.pos, 3int,
{
    if peek(t, st).0 == TokenType::Comma {
        let s1 = adv(t, adv(t, st));
        if moved(st, s1) {
            lemma_expression_forward(t, s1, lowest());
            lemma_expression_clean_end(t, s1, lowest());
            let (e, s2) = parse_expression(t, s1, lowest());
            if e is Some && !bad(t, s2) && moved(st, s2) {
                lemma_arguments_loop_forward(t, s2, acc.push(e->0));
                if clean(s1, s2) {
                    lemma_arguments_loop_clean_end(t, s2, acc.push(e->0));
                }
            }
        }
    } else {
        lemma_expect_peek_lands(t, st, TokenType::RParen);
    }
}

pub proof fn lemma_program_loop_forward(t: Seq<TokenView>, st: ParseState, acc: Seq<StmtView>)
    requires
        inside(t, st),
    ensures
        forward(t, st, parse_program_loop(t, st, acc).1),
    decreases t.len() - st.pos,
{
    if t[st.pos].0 != TokenType::Eof {
        lemma_statement_forward(t, st);
        let (s, s1) = parse_statement(t, st);
        let acc1 = match s {
            Some(x) => acc.push(x),
            None => acc,
        };
        let s2 = adv(t, s1);
        if !bad(t, s2) && moved(st, s2) {
            lemma_program_loop_forward(t, s2, acc1);
        }
    }
}

/// The statements that the program loop gathers come after those it was
/// handed.
pub proof fn lemma_program_loop_gathers(t: Seq<TokenView>, st: ParseState, acc: Seq<StmtView>)
    ensures
        parse_program_loop(t, st, acc) == (
            acc + parse_program_loop(t, st, Seq::empty()).0,
            parse_program_loop(t, st, Seq::empty()).1,
        ),
    decreases t.len() - st.pos,
{
    if !(bad(t, st) || t[st.pos].0 == TokenType::Eof) {
        let (s, s1) = parse_statement(t, st);
        let s2 = adv(t, s1);
        if !(bad(t, s2) || !moved(st, s2)) {
            match s {
                Some(x) => {
                    lemma_program_loop_gathers(t, s2, acc.push(x));
                    lemma_program_loop_gathers(t, s2, seq![x]);
                    assert(Seq::<StmtView>::empty().push(x) == seq![x]);
                    let rest = parse_program_loop(t, s2, Seq::empty()).0;
                    assert(acc.push(x) + rest == acc + (seq![x] + rest));
                },
                None => {
                    lemma_program_loop_gathers(t, s2, acc);
                },
            }
        } else {
            match s {
                Some(x) => {
                    assert(Seq::<StmtView>::empty().push(x) == seq![x]);
                    assert(acc.push(x) == acc + seq![x]);
                },
                None => {
                    assert(acc == acc + Seq::<StmtView>::empty());
                },
            }
        }
    } else {
        assert(acc == acc + Seq::<StmtView>::empty());
    }
}

/// Parsing a token stream that stands, whole, at the end of another one
/// gives the same statements there.
pub proof fn lemma_program_loop_shift(
    t: Seq<TokenView>,
    u: Seq<TokenView>,
    d: int,
    st: ParseState,
    acc: Seq<StmtView>,
)
    requires
        inside(t, st),
        embedded(t, u, d, t.len() as int),
        d + t.len() == u.len(),
    ensures
        parse_program_loop(u, shift(st, d), acc) == (
            parse_program_loop(t, st, acc).0,
            shift(parse_program_loop(t, st, acc).1, d),
        ),
    decreases t.len() - st.pos,
{
    let n = t.len() as int;
    lemma_steps_agree(t, u, d, n, st);
    if t[st.pos].0 != TokenType::Eof {
        lemma_statement_forward(t, st);
        lemma_statement_context(t, u, d, n, st);
        let (s, s1) = parse_statement(t, st);
        let acc1 = match s {
            Some(x) => acc.push(x),
            None => acc,
        };
        lemma_steps_agree(t, u, d, n, s1);
        let s2 = adv(t, s1);
        if !bad(t, s2) && moved(st, s2) {
            lemma_steps_agree(t, u, d, n, s2);
            lemma_program_loop_shift(t, u, d, s2, acc1);
        }
    }
}

/// Whether no statement of the program parsed from `st` on runs into the
/// end of the stream.
pub open spec fn statements_close(t: Seq<TokenView>, st: ParseState) -> bool
    decreases t.len() - st.pos,
{
    if bad(t, st) || t[st.pos].0 == TokenType::Eof {
        true
    } else {
        let (s, s1) = parse_statement(t, st);
        let s2 = adv(t, s1);
        &&& !bad(t, s1)
        &&& t[s1.pos].0 != TokenType::Eof
        &&& (bad(t, s2) || !moved(st, s2) || statements_close(t, s2))
    }
}

proof fn lemma_closing_expression(
    t: Seq<TokenView>,
    u: Seq<TokenView>,
    m: int,
    st: ParseState,
)
    requires
        inside(t, st),
        t.len() == m + 1,
        t.last().0 == TokenType::Eof,
        embedded(t, u, 0, m),
        u.len() > m,
        t[m - 1].0 == TokenType::SemiColon,
        skip_semicolon(t, parse_expression(t, st, lowest()).1).pos == m - 1,
        clean(st, parse_expression(t, st, lowest()).1),
    ensures
        parse_expression(u, st, lowest()) == parse_expression(t, st, lowest()),
        skip_semicolon(u, parse_expression(t, st, lowest()).1) == skip_semicolon(
            t,
            parse_expression(t, st, lowest()).1,
        ),
{
    lemma_expression_forward(t, st, lowest());
    lemma_expression_clean_end(t, st, lowest());
    let s1 = parse_expression(t, st, lowest()).1;
    assert(shift(st, 0) == st);
    assert(shift(s1, 0) == s1);
    assert(s1.pos + 1 < m);
    lemma_steps_agree(t, u, 0, m, s1);
    lemma_expression_context(t, u, 0, m, st, lowest());
}

proof fn lemma_last_statement_context(t: Seq<TokenView>, u: Seq<TokenView>, m: int, st: ParseState)
    requires
        inside(t, st),
        t.len() == m + 1,
        t.last().0 == TokenType::Eof,
        embedded(t, u, 0, m),
        u.len() > m,
        t[m - 1].0 == TokenType::SemiColon,
        parse_statement(t, st).1.pos == m - 1,
        clean(st, parse_statement(t, st).1),
    ensures
        parse_statement(u, st) == parse_statement(t, st),
{
    lemma_statement_forward(t, st);
    lemma_statement_clean_start(t, st);
    assert(shift(st, 0) == st);
    assert(st.pos + 1 < m);
    lemma_steps_agree(t, u, 0, m, st);
    let k = t[st.pos].0;
    if k == TokenType::Let {
        lemma_let_forward(t, st);
        let (ok1, s1) = expect_peek(t, st, TokenType::Ident);
        lemma_expect_peek_lands(t, st, TokenType::Ident);
        if ok1 {
            let (ok2, s2) = expect_peek(t, s1, TokenType::Assign);
            lemma_expect_peek_lands(t, s1, TokenType::Assign);
            if ok2 {
                let s3 = adv(t, s2);
                lemma_expression_forward(t, s3, lowest());
                assert(shift(s1, 0) == s1);
                assert(shift(s2, 0) == s2);
                lemma_steps_agree(t, u, 0, m, s1);
                lemma_steps_agree(t, u, 0, m, s2);
                lemma_closing_expression(t, u, m, s3);
            }
        }
    } else if k == TokenType::Return {
        let s1 = adv(t, st);
        lemma_expression_forward(t, s1, lowest());
        lemma_closing_expression(t, u, m, s1);
    } else {
        lemma_expression_forward(t, st, lowest());
        lemma_closing_expression(t, u, m, st);
    }
}

proof fn lemma_statement_prefix(t: Seq<TokenView>, u: Seq<TokenView>, m: int, st: ParseState)
    requires
        valid_tokens(t),
        t.len() == m + 1,
        t[m - 1].0 == TokenType::SemiColon,
        embedded(t, u, 0, m),
        u.len() > m,
        inside(t, st),
        parse_statement(t, st).1.pos < m,
        clean(st, parse_statement(t, st).1),
    ensures
        parse_statement(u, st) == parse_statement(t, st),
{
    let s1 = parse_statement(t, st).1;
    assert(shift(st, 0) == st);
    assert(shift(s1, 0) == s1);
    if s1.pos + 1 < m {
        lemma_statement_context(t, u, 0, m, st);
    } else {
        lemma_last_statement_context(t, u, m, st);
    }
}

/// Parsing a stream whose first `m` tokens are those of `t`, where `t`
/// ends with `;` and `Eof` and none of its statements is left open, goes
/// through the statements of `t` as parsing `t` itself does, and then on
/// from the token after the `;`.
#[verifier::spinoff_prover]
pub proof fn lemma_program_loop_prefix(
    t: Seq<TokenView>,
    u: Seq<TokenView>,
    m: int,
    st: ParseState,
    acc: Seq<StmtView>,
)
    requires
        valid_tokens(t),
        t.len() == m + 1,
        m >= 1,
        t[m - 1].0 == TokenType::SemiColon,
        embedded(t, u, 0, m),
        u.len() > m,
        inside(t, st),
        statements_close(t, st),
        clean(st, parse_program_loop(t, st, acc).1),
    ensures
        parse_program_loop(t, st, acc).1.pos == m,
        parse_program_loop(u, st, acc) == parse_program_loop(
            u,
            parse_program_loop(t, st, acc).1,
            parse_program_loop(t, st, acc).0,
        ),
    decreases t.len() - st.pos,
{
    if t[st.pos].0 == TokenType::Eof {
        assert(st.pos == m);
    } else {
        lemma_statement_forward(t, st);
        let (s, s1) = parse_statement(t, st);
        let acc1 = match s {
            Some(x) => acc.push(x),
            None => acc,
        };
        let s2 = adv(t, s1);
        assert(s1.pos < m);
        lemma_program_loop_forward(t, s2, acc1);
        assert(clean(st, s1));
        lemma_statement_prefix(t, u, m, st);
        assert(u[0 + st.pos] == t[st.pos]);
        lemma_program_loop_prefix(t, u, m, s2, acc1);
    }
}

/// The printed form of two statement lists one after the other.
pub proof fn lemma_stmts_text_concat(a: Seq<StmtView>, b: Seq<StmtView>)
    ensures
        stmts_text(a + b) == stmts_text(a) + stmts_text(b),
    decreases b.len(),
{
    if b.len() == 0 {
        assert(a + b == a);
        assert(stmts_text(b) == Seq::<char>::empty());
        assert(stmts_text(a) + Seq::<char>::empty() == stmts_text(a));
    } else {
        assert((a + b).drop_last() == a + b.drop_last());
        assert((a + b).last() == b.last());
        lemma_stmts_text_concat(a, b.drop_last());
        assert(stmts_text(a) + stmts_text(b.drop_last()) + stmt_text(b.last()) == stmts_text(a) + (
        stmts_text(b.drop_last()) + stmt_text(b.last())));
    }
}

/// A statement that gives nothing records an error.
pub proof fn lemma_statement_none_records(t: Seq<TokenView>, st: ParseState)
    requires
        inside(t, st),
    ensures
        parse_statement(t, st).0 is None ==> !clean(st, parse_statement(t, st).1),
{
    if t[st.pos].0 == TokenType::Let {
        lemma_expect_peek_lands(t, st, TokenType::Ident);
        let (ok1, s1) = expect_peek(t, st, TokenType::Ident);
        if ok1 {
            lemma_expect_peek_lands(t, s1, TokenType::Assign);
        }
    }
}

/// A stream that parses without errors to a single statement `y`: its
/// first statement is `y`, and nothing is gathered after it.
pub proof fn lemma_one_statement_program(t: Seq<TokenView>, y: StmtView)
    requires
        valid_tokens(t),
        parse_tokens(t) == (seq![y], Seq::<Seq<char>>::empty()),
    ensures
        ({
            let (s, s1) = parse_statement(t, at(0));
            let s2 = adv(t, s1);
            &&& t[0].0 != TokenType::Eof
            &&& s == Some(y)
            &&& 0 < s2.pos < t.len()
            &&& parse_program_loop(t, s2, Seq::empty()).0.len() == 0
            &&& parse_program_loop(t, s2, Seq::empty()).1.errors.len() == 0
        }),
{
    let a0 = at(0);
    let empty_acc = Seq::<StmtView>::empty();
    assert(a0 == (ParseState { pos: 0, errors: Seq::empty() }));
    assert(parse_tokens(t).0 == parse_program_loop(t, a0, empty_acc).0);
    assert(t[0].0 != TokenType::Eof) by {
        if t[0].0 == TokenType::Eof {
            assert(parse_program_loop(t, a0, empty_acc).0.len() == 0);
        }
    }
    lemma_statement_forward(t, a0);
    lemma_statement_none_records(t, a0);
    let (s, s1) = parse_statement(t, a0);
    let s2 = adv(t, s1);
    assert(s2.pos > 0);
    lemma_program_loop_forward(t, s2, empty_acc);
    lemma_program_loop_gathers(t, s2, empty_acc);
    let (rest, fin) = parse_program_loop(t, s2, empty_acc);
    match s {
        Some(x) => {
            lemma_program_loop_gathers(t, s2, seq![x]);
            assert(empty_acc.push(x) == seq![x]);
            assert(parse_program_loop(t, a0, empty_acc) == parse_program_loop(t, s2, seq![x]));
            assert(seq![x] + rest == seq![y]);
            assert((seq![x] + rest)[0] == x);
        },
        None => {
            lemma_program_loop_forward(t, s2, empty_acc);
            assert(parse_program_loop(t, a0, empty_acc) == parse_program_loop(t, s2, empty_acc));
        },
    }
}

/// The operators that combine a left and a right operand.
pub open spec fn is_binary_operator(k: TokenType) -> bool {
    has_infix(k) && k != TokenType::LParen
}

pub open spec fn binary(op: TokenView, left: ExprView, right: ExprView) -> ExprView {
    ExprView::Infix { token: op, left: Box::new(left), operator: op.1, right: Box::new(right) }
}

pub open spec fn at(p: int) -> ParseState {
    ParseState { pos: p, errors: Seq::empty() }
}

/// The expression that a single identifier, integer or boolean token
/// parses to, where it parses to one.
pub open spec fn leaf(tok: TokenView) -> Option<ExprView> {
    match tok.0 {
        TokenType::Ident => Some(ident_of(tok)),
        TokenType::Int => match parse_i64_spec(tok.1) {
            Some(v) => Some(ExprView::Int { token: tok, value: v }),
            None => None,
        },
        TokenType::True | TokenType::False => Some(
            ExprView::Bool { token: tok, value: tok.0 == TokenType::True },
        ),
        _ => None,
    }
}

/// How a statement's tokens may end: at the end of the input, or with a
/// `;` just before it.
pub open spec fn statement_end(end: Seq<TokenView>) -> bool {
    ||| end.len() == 1 && end[0].0 == TokenType::Eof
    ||| end.len() == 2 && end[0].0 == TokenType::SemiColon && end[1].0 == TokenType::Eof
}

/// The expression that `a op1 b op2 c` parses to.
pub open spec fn grouped(
    a: TokenView,
    op1: TokenView,
    b: TokenView,
    op2: TokenView,
    c: TokenView,
) -> ExprView {
    let (la, lb, lc) = (leaf(a)->0, leaf(b)->0, leaf(c)->0);
    if precedence_of(op1.0) < precedence_of(op2.0) {
        binary(op1, la, binary(op2, lb, lc))
    } else {
        binary(op2, binary(op1, la, lb), lc)
    }
}

proof fn lemma_grouping_parses(
    a: TokenView,
    op1: TokenView,
    b: TokenView,
    op2: TokenView,
    c: TokenView,
    end: Seq<TokenView>,
)
    requires
        leaf(a) is Some,
        leaf(b) is Some,
        leaf(c) is Some,
        is_binary_operator(op1.0),
        is_binary_operator(op2.0),
        statement_end(end),
    ensures
        parse_tokens(seq![a, op1, b, op2, c] + end) == (
            seq![
                StmtView::Expr { token: a, expression: Some(Box::new(grouped(a, op1, b, op2, c))) },
            ],
            Seq::<Seq<char>>::empty(),
        ),
{
    let t = seq![a, op1, b, op2, c] + end;
    let n: int = t.len() - 1;
    let last: int = if end.len() == 2 { 5 } else { 4 };
    assert(t[0] == a && t[1] == op1 && t[2] == b && t[3] == op2 && t[4] == c);
    assert(t[n].0 == TokenType::Eof);
    assert(end.len() == 2 ==> t[5].0 == TokenType::SemiColon);
    let p1: int = precedence_of(op1.0);
    let p2: int = precedence_of(op2.0);
    let (ea, eb, ec) = (leaf(a)->0, leaf(b)->0, leaf(c)->0);
    assert(parse_prefix(t, at(4)) == (Some(ec), at(4)));
    assert(parse_infix_loop(t, at(4), p2, ec) == (Some(ec), at(4)));
    assert(parse_expression(t, at(4), p2) == (Some(ec), at(4)));
    assert(parse_prefix(t, at(2)) == (Some(eb), at(2)));
    assert(parse_prefix(t, at(0)) == (Some(ea), at(0)));
    let whole = if p1 < p2 {
        let bc = binary(op2, eb, ec);
        assert(parse_infix(t, at(3), eb) == (Some(bc), at(4)));
        assert(parse_infix_loop(t, at(4), p1, bc) == (Some(bc), at(4)));
        assert(parse_infix_loop(t, at(2), p1, eb) == (Some(bc), at(4)));
        assert(parse_expression(t, at(2), p1) == (Some(bc), at(4)));
        let abc = binary(op1, ea, bc);
        assert(parse_infix(t, at(1), ea) == (Some(abc), at(4)));
        assert(parse_infix_loop(t, at(4), 0, abc) == (Some(abc), at(4)));
        assert(parse_infix_loop(t, at(0), 0, ea) == (Some(abc), at(4)));
        abc
    } else {
        assert(parse_infix_loop(t, at(2), p1, eb) == (Some(eb), at(2)));
        assert(parse_expression(t, at(2), p1) == (Some(eb), at(2)));
        let ab = binary(op1, ea, eb);
        assert(parse_infix(t, at(1), ea) == (Some(ab), at(2)));
        let abc = binary(op2, ab, ec);
        assert(parse_infix(t, at(3), ab) == (Some(abc), at(4)));
        assert(parse_infix_loop(t, at(4), 0, abc) == (Some(abc), at(4)));
        assert(parse_infix_loop(t, at(2), 0, ab) == (Some(abc), at(4)));
        assert(parse_infix_loop(t, at(0), 0, ea) == (Some(abc), at(4)));
        abc
    };
    assert(parse_expression(t, at(0), 0) == (Some(whole), at(4)));
    let stmt = StmtView::Expr { token: a, expression: Some(Box::new(whole)) };
    assert(skip_semicolon(t, at(4)) == at(last));
    assert(parse_expression_statement(t, at(0)) == (Some(stmt), at(last)));
    assert(parse_statement(t, at(0)) == (Some(stmt), at(last)));
    assert(parse_program_loop(t, at(n), seq![stmt]) == (seq![stmt], at(n)));
    assert(parse_program_loop(t, at(0), Seq::empty()) == (seq![stmt], at(n)));
}

proof fn lemma_one_statement_text(stmt: StmtView)
    ensures
        stmts_text(seq![stmt]) == stmt_text(stmt),
{
    assert(seq![stmt].drop_last() == Seq::<StmtView>::empty());
    assert(stmts_text(Seq::<StmtView>::empty()) == Seq::<char>::empty());
    assert(seq![stmt].last() == stmt);
    assert(stmts_text(seq![stmt]) == Seq::<char>::empty() + stmt_text(stmt));
    assert(Seq::<char>::empty() + stmt_text(stmt) == stmt_text(stmt));
}

/// In `a op1 b op2 c` (with or without a closing `;`), the second operator
/// takes `b` as its left operand exactly where it binds more strongly than
/// the first; otherwise the first operation is grouped first, so that
/// operators of equal strength group from the left. The program is that one
/// expression statement, with no errors, and it prints as
/// `(a op1 (b op2 c))` or `((a op1 b) op2 c)`.
pub proof fn lemma_binary_operator_grouping(
    a: TokenView,
    op1: TokenView,
    b: TokenView,
    op2: TokenView,
    c: TokenView,
    end: Seq<TokenView>,
)
    requires
        leaf(a) is Some,
        leaf(b) is Some,
        leaf(c) is Some,
        is_binary_operator(op1.0),
        is_binary_operator(op2.0),
        statement_end(end),
    ensures
        parse_tokens(seq![a, op1, b, op2, c] + end) == (
            seq![
                StmtView::Expr { token: a, expression: Some(Box::new(grouped(a, op1, b, op2, c))) },
            ],
            Seq::<Seq<char>>::empty(),
        ),
        ({
            let (ta, tb, tc) = (
                expr_text(leaf(a)->0),
                expr_text(leaf(b)->0),
                expr_text(leaf(c)->0),
            );
            stmts_text(parse_tokens(seq![a, op1, b, op2, c] + end).0) == if precedence_of(op1.0)
                < precedence_of(op2.0) {
                "("@ + ta + " "@ + op1.1 + " ("@ + tb + " "@ + op2.1 + " "@ + tc + "))"@
            } else {
                "(("@ + ta + " "@ + op1.1 + " "@ + tb + ") "@ + op2.1 + " "@ + tc + ")"@
            }
        }),
{
    lemma_grouping_parses(a, op1, b, op2, c, end);
    let whole = grouped(a, op1, b, op2, c);
    let stmt = StmtView::Expr { token: a, expression: Some(Box::new(whole)) };
    lemma_one_statement_text(stmt);
    assert(stmt_text(stmt) == expr_text(whole));
    let (ta, tb, tc) = (expr_text(leaf(a)->0), expr_text(leaf(b)->0), expr_text(leaf(c)->0));
    if precedence_of(op1.0) < precedence_of(op2.0) {
        let inner = binary(op2, leaf(b)->0, leaf(c)->0);
        assert(expr_text(inner) == "("@ + tb + " "@ + op2.1 + " "@ + tc + ")"@);
        assert(expr_text(whole) == "("@ + ta + " "@ + op1.1 + " "@ + expr_text(inner) + ")"@);
        lemma_right_nested_text(ta, op1.1, tb, op2.1, tc);
    } else {
        let inner = binary(op1, leaf(a)->0, leaf(b)->0);
        assert(expr_text(inner) == "("@ + ta + " "@ + op1.1 + " "@ + tb + ")"@);
        assert(expr_text(whole) == "("@ + expr_text(inner) + " "@ + op2.1 + " "@ + tc + ")"@);
        lemma_left_nested_text(ta, op1.1, tb, op2.1, tc);
    }
}

proof fn lemma_right_nested_text(
    ta: Seq<char>,
    o1: Seq<char>,
    tb: Seq<char>,
    o2: Seq<char>,
    tc: Seq<char>,
)
    ensures
        "("@ + ta + " "@ + o1 + " "@ + ("("@ + tb + " "@ + o2 + " "@ + tc + ")"@) + ")"@ == "("@
            + ta + " "@ + o1 + " ("@ + tb + " "@ + o2 + " "@ + tc + "))"@,
{
    reveal_strlit("(");
    reveal_strlit(" (");
    reveal_strlit(" ");
    reveal_strlit(")");
    reveal_strlit("))");
    assert("("@ + ta + " "@ + o1 + " "@ + ("("@ + tb + " "@ + o2 + " "@ + tc + ")"@) + ")"@ =~= "("@
        + ta + " "@ + o1 + " ("@ + tb + " "@ + o2 + " "@ + tc + "))"@);
}

proof fn lemma_left_nested_text(
    ta: Seq<char>,
    o1: Seq<char>,
    tb: Seq<char>,
    o2: Seq<char>,
    tc: Seq<char>,
)
    ensures
        "("@ + ("("@ + ta + " "@ + o1 + " "@ + tb + ")"@) + " "@ + o2 + " "@ + tc + ")"@ == "(("@
            + ta + " "@ + o1 + " "@ + tb + ") "@ + o2 + " "@ + tc + ")"@,
{
    reveal_strlit("(");
    reveal_strlit("((");
    reveal_strlit(" ");
    reveal_strlit(")");
    reveal_strlit(") ");
    assert("("@ + ("("@ + ta + " "@ + o1 + " "@ + tb + ")"@) + " "@ + o2 + " "@ + tc + ")"@ =~= "(("@
        + ta + " "@ + o1 + " "@ + tb + ") "@ + o2 + " "@ + tc + ")"@);
}

/// A prefix operator binds more strongly than every binary operator: in
/// `-a op b` (or `!a op b`) the prefix applies to `a` alone.
pub proof fn lemma_prefix_binds_first(
    prefix: TokenView,
    a: TokenView,
    op: TokenView,
    b: TokenView,
    eof: TokenView,
)
    requires
        prefix.0 == TokenType::Minus || prefix.0 == TokenType::Bang,
        a.0 == TokenType::Ident,
        b.0 == TokenType::Ident,
        is_binary_operator(op.0),
        eof.0 == TokenType::Eof,
    ensures
        parse_tokens(seq![prefix, a, op, b, eof]) == (
            seq![
                StmtView::Expr {
                    token: prefix,
                    expression: Some(
                        Box::new(
                            binary(
                                op,
                                ExprView::Prefix {
                                    token: prefix,
                                    operator: prefix.1,
                                    right: Box::new(ident_of(a)),
                                },
                                ident_of(b),
                            ),
                        ),
                    ),
                },
            ],
            Seq::<Seq<char>>::empty(),
        ),
{
    let t = seq![prefix, a, op, b, eof];
    let p: int = precedence_of(op.0);
    let (ea, eb) = (ident_of(a), ident_of(b));
    let pa = ExprView::Prefix { token: prefix, operator: prefix.1, right: Box::new(ea) };
    assert(parse_prefix(t, at(1)) == (Some(ea), at(1)));
    assert(parse_infix_loop(t, at(1), prefix_level(), ea) == (Some(ea), at(1)));
    assert(parse_expression(t, at(1), prefix_level()) == (Some(ea), at(1)));
    assert(parse_prefix(t, at(0)) == (Some(pa), at(1)));
    assert(parse_prefix(t, at(3)) == (Some(eb), at(3)));
    assert(parse_infix_loop(t, at(3), p, eb) == (Some(eb), at(3)));
    assert(parse_expression(t, at(3), p) == (Some(eb), at(3)));
    let whole = binary(op, pa, eb);
    assert(parse_infix(t, at(2), pa) == (Some(whole), at(3)));
    assert(parse_infix_loop(t, at(3), 0, whole) == (Some(whole), at(3)));
    assert(parse_infix_loop(t, at(1), 0, pa) == (Some(whole), at(3)));
    assert(parse_expression(t, at(0), 0) == (Some(whole), at(3)));
    let stmt = StmtView::Expr { token: prefix, expression: Some(Box::new(whole)) };
    assert(parse_expression_statement(t, at(0)) == (Some(stmt), at(3)));
    assert(parse_statement(t, at(0)) == (Some(stmt), at(3)));
    assert(parse_program_loop(t, at(4), seq![stmt]) == (seq![stmt], at(4)));
    assert(parse_program_loop(t, at(0), Seq::empty()) == (seq![stmt], at(4)));
}

/// `let x = v;`, with an identifier `x` and a single-token value `v`,
/// parses without errors to the one `let` statement binding `x` to `v`.
pub proof fn lemma_let_statement_parses(
    let_token: TokenView,
    name: TokenView,
    assign: TokenView,
    v: TokenView,
    semi: TokenView,
    eof: TokenView,
)
    requires
        let_token.0 == TokenType::Let,
        name.0 == TokenType::Ident,
        assign.0 == TokenType::Assign,
        leaf(v) is Some,
        semi.0 == TokenType::SemiColon,
        eof.0 == TokenType::Eof,
    ensures
        parse_tokens(seq![let_token, name, assign, v, semi, eof]) == (
            seq![
                StmtView::Let {
                    token: let_token,
                    name: Box::new(ident_of(name)),
                    value: Some(Box::new(leaf(v)->0)),
                },
            ],
            Seq::<Seq<char>>::empty(),
        ),
{
    let t = seq![let_token, name, assign, v, semi, eof];
    let ev = leaf(v)->0;
    assert(expect_peek(t, at(0), TokenType::Ident) == (true, at(1)));
    assert(expect_peek(t, at(1), TokenType::Assign) == (true, at(2)));
    assert(parse_prefix(t, at(3)) == (Some(ev), at(3)));
    assert(parse_infix_loop(t, at(3), 0, ev) == (Some(ev), at(3)));
    assert(parse_expression(t, at(3), 0) == (Some(ev), at(3)));
    let stmt = StmtView::Let {
        token: let_token,
        name: Box::new(ident_of(name)),
        value: Some(Box::new(ev)),
    };
    assert(parse_let(t, at(0)) == (Some(stmt), at(4)));
    assert(parse_statement(t, at(0)) == (Some(stmt), at(4)));
    assert(parse_program_loop(t, at(5), seq![stmt]) == (seq![stmt], at(5)));
    assert(parse_program_loop(t, at(0), Seq::empty()) == (seq![stmt], at(5)));
}

/// `return a op b;`, with single-token operands and any binary operator,
/// parses without errors to the one `return` statement whose value is the
/// whole `a op b`.
pub proof fn lemma_return_statement_parses(t: Seq<TokenView>)
    requires
        t.len() == 6,
        t[0].0 == TokenType::Return,
        leaf(t[1]) is Some,
        is_binary_operator(t[2].0),
        leaf(t[3]) is Some,
        t[4].0 == TokenType::SemiColon,
        t[5].0 == TokenType::Eof,
    ensures
        parse_tokens(t) == (
            seq![
                StmtView::Return {
                    token: t[0],
                    value: Some(Box::new(binary(t[2], leaf(t[1])->0, leaf(t[3])->0))),
                },
            ],
            Seq::<Seq<char>>::empty(),
        ),
{
    let (ea, eb) = (leaf(t[1])->0, leaf(t[3])->0);
    let p: int = precedence_of(t[2].0);
    assert(parse_prefix(t, at(3)) == (Some(eb), at(3)));
    assert(parse_infix_loop(t, at(3), p, eb) == (Some(eb), at(3)));
    assert(parse_expression(t, at(3), p) == (Some(eb), at(3)));
    let whole = binary(t[2], ea, eb);
    assert(parse_infix(t, at(2), ea) == (Some(whole), at(3)));
    assert(parse_infix_loop(t, at(3), 0, whole) == (Some(whole), at(3)));
    assert(parse_prefix(t, at(1)) == (Some(ea), at(1)));
    assert(parse_infix_loop(t, at(1), 0, ea) == (Some(whole), at(3)));
    assert(parse_expression(t, at(1), 0) == (Some(whole), at(3)));
    let stmt = StmtView::Return { token: t[0], value: Some(Box::new(whole)) };
    assert(parse_return(t, at(0)) == (Some(stmt), at(4)));
    assert(parse_statement(t, at(0)) == (Some(stmt), at(4)));
    assert(parse_program_loop(t, at(5), seq![stmt]) == (seq![stmt], at(5)));
    assert(Seq::<StmtView>::empty().push(stmt) == seq![stmt]);
    assert(parse_program_loop(t, at(0), Seq::empty()) == (seq![stmt], at(5)));
}

/// `if (c) { a } else { b }`, with single-token expressions `c`, `a`, `b`,
/// parses without errors to the one `if` expression with condition `c`,
/// first branch the block of `a` and other branch the block of `b`.
pub proof fn lemma_if_else_parses(t: Seq<TokenView>)
    requires
        t.len() == 12,
        t[0].0 == TokenType::If,
        t[1].0 == TokenType::LParen,
        leaf(t[2]) is Some,
        t[3].0 == TokenType::RParen,
        t[4].0 == TokenType::LBrace,
        leaf(t[5]) is Some,
        t[6].0 == TokenType::RBrace,
        t[7].0 == TokenType::Else,
        t[8].0 == TokenType::LBrace,
        leaf(t[9]) is Some,
        t[10].0 == TokenType::RBrace,
        t[11].0 == TokenType::Eof,
    ensures
        parse_tokens(t) == (
            seq![
                StmtView::Expr {
                    token: t[0],
                    expression: Some(
                        Box::new(
                            ExprView::If {
                                token: t[0],
                                condition: Box::new(leaf(t[2])->0),
                                consequence: Box::new(
                                    StmtView::Block {
                                        token: t[4],
                                        statements: seq![
                                            StmtView::Expr {
                                                token: t[5],
                                                expression: Some(Box::new(leaf(t[5])->0)),
                                            },
                                        ],
                                    },
                                ),
                                alternative: Some(
                                    Box::new(
                                        StmtView::Block {
                                            token: t[8],
                                            statements: seq![
                                                StmtView::Expr {
                                                    token: t[9],
                                                    expression: Some(Box::new(leaf(t[9])->0)),
                                                },
                                            ],
                                        },
                                    ),
                                ),
                            },
                        ),
                    ),
                },
            ],
            Seq::<Seq<char>>::empty(),
        ),
{
    let (ec, ea, eb) = (leaf(t[2])->0, leaf(t[5])->0, leaf(t[9])->0);
    assert(parse_prefix(t, at(2)) == (Some(ec), at(2)));
    assert(parse_infix_loop(t, at(2), 0, ec) == (Some(ec), at(2)));
    assert(parse_expression(t, at(2), 0) == (Some(ec), at(2)));
    let sa = StmtView::Expr { token: t[5], expression: Some(Box::new(ea)) };
    assert(parse_prefix(t, at(5)) == (Some(ea), at(5)));
    assert(parse_infix_loop(t, at(5), 0, ea) == (Some(ea), at(5)));
    assert(parse_expression(t, at(5), 0) == (Some(ea), at(5)));
    assert(parse_expression_statement(t, at(5)) == (Some(sa), at(5)));
    assert(parse_statement(t, at(5)) == (Some(sa), at(5)));
    assert(parse_block_loop(t, at(6), seq![sa]) == (seq![sa], at(6)));
    assert(Seq::<StmtView>::empty().push(sa) == seq![sa]);
    assert(parse_block_loop(t, at(5), Seq::empty()) == (seq![sa], at(6)));
    let ba = StmtView::Block { token: t[4], statements: seq![sa] };
    assert(parse_block(t, at(4)) == (Some(ba), at(6)));
    let sb = StmtView::Expr { token: t[9], expression: Some(Box::new(eb)) };
    assert(parse_prefix(t, at(9)) == (Some(eb), at(9)));
    assert(parse_infix_loop(t, at(9), 0, eb) == (Some(eb), at(9)));
    assert(parse_expression(t, at(9), 0) == (Some(eb), at(9)));
    assert(parse_expression_statement(t, at(9)) == (Some(sb), at(9)));
    assert(parse_statement(t, at(9)) == (Some(sb), at(9)));
    assert(parse_block_loop(t, at(10), seq![sb]) == (seq![sb], at(10)));
    assert(Seq::<StmtView>::empty().push(sb) == seq![sb]);
    assert(parse_block_loop(t, at(9), Seq::empty()) == (seq![sb], at(10)));
    let bb = StmtView::Block { token: t[8], statements: seq![sb] };
    assert(parse_block(t, at(8)) == (Some(bb), at(10)));
    let e = ExprView::If {
        token: t[0],
        condition: Box::new(ec),
        consequence: Box::new(ba),
        alternative: Some(Box::new(bb)),
    };
    assert(expect_peek(t, at(0), TokenType::LParen) == (true, at(1)));
    assert(expect_peek(t, at(2), TokenType::RParen) == (true, at(3)));
    assert(expect_peek(t, at(3), TokenType::LBrace) == (true, at(4)));
    assert(expect_peek(t, at(7), TokenType::LBrace) == (true, at(8)));
    assert(parse_if(t, at(0)) == (Some(e), at(10)));
    assert(parse_prefix(t, at(0)) == (Some(e), at(10)));
    assert(parse_infix_loop(t, at(10), 0, e) == (Some(e), at(10)));
    assert(parse_expression(t, at(0), 0) == (Some(e), at(10)));
    let stmt = StmtView::Expr { token: t[0], expression: Some(Box::new(e)) };
    assert(parse_expression_statement(t, at(0)) == (Some(stmt), at(10)));
    assert(parse_statement(t, at(0)) == (Some(stmt), at(10)));
    assert(parse_program_loop(t, at(11), seq![stmt]) == (seq![stmt], at(11)));
    assert(Seq::<StmtView>::empty().push(stmt) == seq![stmt]);
    assert(parse_program_loop(t, at(0), Seq::empty()) == (seq![stmt], at(11)));
}

/// `f(a, b)`, with an identifier `f` and single-token arguments `a`, `b`,
/// parses without errors to the call of `f` on the arguments `a` and `b`,
/// in that order.
pub proof fn lemma_call_parses(t: Seq<TokenView>)
    requires
        t.len() == 7,
        t[0].0 == TokenType::Ident,
        t[1].0 == TokenType::LParen,
        leaf(t[2]) is Some,
        t[3].0 == TokenType::Comma,
        leaf(t[4]) is Some,
        t[5].0 == TokenType::RParen,
        t[6].0 == TokenType::Eof,
    ensures
        parse_tokens(t) == (
            seq![
                StmtView::Expr {
                    token: t[0],
                    expression: Some(
                        Box::new(
                            ExprView::Call {
                                token: t[1],
                                function: Box::new(ident_of(t[0])),
                                arguments: seq![leaf(t[2])->0, leaf(t[4])->0],
                            },
                        ),
                    ),
                },
            ],
            Seq::<Seq<char>>::empty(),
        ),
{
    let (ef, ea, eb) = (ident_of(t[0]), leaf(t[2])->0, leaf(t[4])->0);
    assert(parse_prefix(t, at(2)) == (Some(ea), at(2)));
    assert(parse_infix_loop(t, at(2), 0, ea) == (Some(ea), at(2)));
    assert(parse_expression(t, at(2), 0) == (Some(ea), at(2)));
    assert(parse_prefix(t, at(4)) == (Some(eb), at(4)));
    assert(parse_infix_loop(t, at(4), 0, eb) == (Some(eb), at(4)));
    assert(parse_expression(t, at(4), 0) == (Some(eb), at(4)));
    assert(expect_peek(t, at(4), TokenType::RParen) == (true, at(5)));
    assert(seq![ea].push(eb) == seq![ea, eb]);
    assert(parse_arguments_loop(t, at(4), seq![ea, eb]) == (seq![ea, eb], at(5)));
    assert(parse_arguments_loop(t, at(2), seq![ea]) == (seq![ea, eb], at(5)));
    assert(parse_call_arguments(t, at(1)) == (seq![ea, eb], at(5)));
    let call = ExprView::Call { token: t[1], function: Box::new(ef), arguments: seq![ea, eb] };
    assert(parse_infix(t, at(1), ef) == (Some(call), at(5)));
    assert(parse_infix_loop(t, at(5), 0, call) == (Some(call), at(5)));
    assert(parse_prefix(t, at(0)) == (Some(ef), at(0)));
    assert(parse_infix_loop(t, at(0), 0, ef) == (Some(call), at(5)));
    assert(parse_expression(t, at(0), 0) == (Some(call), at(5)));
    let stmt = StmtView::Expr { token: t[0], expression: Some(Box::new(call)) };
    assert(parse_expression_statement(t, at(0)) == (Some(stmt), at(5)));
    assert(parse_statement(t, at(0)) == (Some(stmt), at(5)));
    assert(parse_program_loop(t, at(6), seq![stmt]) == (seq![stmt], at(6)));
    assert(Seq::<StmtView>::empty().push(stmt) == seq![stmt]);
    assert(parse_program_loop(t, at(0), Seq::empty()) == (seq![stmt], at(6)));
}

/// `fn(x, y) { a }`, with identifiers `x`, `y` and a single-token body
/// expression `a`, parses without errors to the function with parameters
/// `x` and `y`, in that order, and the block of `a` as its body.
pub proof fn lemma_function_parses(t: Seq<TokenView>)
    requires
        t.len() == 10,
        t[0].0 == TokenType::Function,
        t[1].0 == TokenType::LParen,
        t[2].0 == TokenType::Ident,
        t[3].0 == TokenType::Comma,
        t[4].0 == TokenType::Ident,
        t[5].0 == TokenType::RParen,
        t[6].0 == TokenType::LBrace,
        leaf(t[7]) is Some,
        t[8].0 == TokenType::RBrace,
        t[9].0 == TokenType::Eof,
    ensures
        parse_tokens(t) == (
            seq![
                StmtView::Expr {
                    token: t[0],
                    expression: Some(
                        Box::new(
                            ExprView::Func {
                                token: t[0],
                                parameters: seq![ident_of(t[2]), ident_of(t[4])],
                                body: Some(
                                    Box::new(
                                        StmtView::Block {
                                            token: t[6],
                                            statements: seq![
                                                StmtView::Expr {
                                                    token: t[7],
                                                    expression: Some(Box::new(leaf(t[7])->0)),
                                                },
                                            ],
                                        },
                                    ),
                                ),
                            },
                        ),
                    ),
                },
            ],
            Seq::<Seq<char>>::empty(),
        ),
{
    let (ex, ey, ea) = (ident_of(t[2]), ident_of(t[4]), leaf(t[7])->0);
    assert(expect_peek(t, at(0), TokenType::LParen) == (true, at(1)));
    assert(expect_peek(t, at(4), TokenType::RParen) == (true, at(5)));
    assert(seq![ex].push(ey) == seq![ex, ey]);
    assert(parse_parameters_loop(t, at(4), seq![ex, ey]) == (seq![ex, ey], at(5)));
    assert(parse_parameters_loop(t, at(2), seq![ex]) == (seq![ex, ey], at(5)));
    assert(parse_parameters(t, at(1)) == (seq![ex, ey], at(5)));
    assert(expect_peek(t, at(5), TokenType::LBrace) == (true, at(6)));
    let sa = StmtView::Expr { token: t[7], expression: Some(Box::new(ea)) };
    assert(parse_prefix(t, at(7)) == (Some(ea), at(7)));
    assert(parse_infix_loop(t, at(7), 0, ea) == (Some(ea), at(7)));
    assert(parse_expression(t, at(7), 0) == (Some(ea), at(7)));
    assert(parse_expression_statement(t, at(7)) == (Some(sa), at(7)));
    assert(parse_statement(t, at(7)) == (Some(sa), at(7)));
    assert(parse_block_loop(t, at(8), seq![sa]) == (seq![sa], at(8)));
    assert(Seq::<StmtView>::empty().push(sa) == seq![sa]);
    assert(parse_block_loop(t, at(7), Seq::empty()) == (seq![sa], at(8)));
    let body = StmtView::Block { token: t[6], statements: seq![sa] };
    assert(parse_block(t, at(6)) == (Some(body), at(8)));
    let f = ExprView::Func {
        token: t[0],
        parameters: seq![ex, ey],
        body: Some(Box::new(body)),
    };
    assert(parse_function(t, at(0)) == (Some(f), at(8)));
    assert(parse_prefix(t, at(0)) == (Some(f), at(8)));
    assert(parse_infix_loop(t, at(8), 0, f) == (Some(f), at(8)));
    assert(parse_expression(t, at(0), 0) == (Some(f), at(8)));
    let stmt = StmtView::Expr { token: t[0], expression: Some(Box::new(f)) };
    assert(parse_expression_statement(t, at(0)) == (Some(stmt), at(8)));
    assert(parse_statement(t, at(0)) == (Some(stmt), at(8)));
    assert(parse_program_loop(t, at(9), seq![stmt]) == (seq![stmt], at(9)));
    assert(Seq::<StmtView>::empty().push(stmt) == seq![stmt]);
    assert(parse_program_loop(t, at(0), Seq::empty()) == (seq![stmt], at(9)));
}

/// The program that a token stream parses to, and the errors recorded.
pub open spec fn parse_tokens(t: Seq<TokenView>) -> (Seq<StmtView>, Seq<Seq<char>>) {
    let (statements, st) = parse_program_loop(
        t,
        ParseState { pos: 0, errors: Seq::empty() },
        Seq::empty(),
    );
    (statements, st.errors)
}

} // verus!
