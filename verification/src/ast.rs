//! The abstract syntax tree, its mathematical view, and its printed form.

use vstd::prelude::*;

use crate::text::{i64_text, int_text};
use vstd::string::StringExecFns;
use crate::token::Token;

verus! {

/// The operations every node of the tree offers.
pub trait Node {
    /// The literal of the token that the node starts with.
    fn token_literal(&self) -> String;

    /// The node printed back as source text, fully parenthesized.
    fn string(&self) -> String;
}

/// `let <name> = <value>;`
#[derive(Debug)]
pub struct LetStatement {
    pub token: Token,
    pub name: Box<Expression>,
    pub value: Option<Box<Expression>>,
}

/// `return <value>;`
#[derive(Debug)]
pub struct ReturnStatement {
    pub token: Token,
    pub return_value: Option<Box<Expression>>,
}

/// An expression on its own, as a statement.
#[derive(Debug)]
pub struct ExpressionStatement {
    pub token: Token,
    pub expression: Option<Box<Expression>>,
}

/// `{ <statements> }`
#[derive(Debug)]
pub struct BlockStatement {
    pub token: Token,
    pub statements: Vec<Statement>,
}

#[derive(Debug)]
pub enum Statement {
    Let(LetStatement),
    Return(ReturnStatement),
    Expression(ExpressionStatement),
    Block(BlockStatement),
}

#[derive(Debug)]
pub struct Identifier {
    pub token: Token,
    pub value: String,
}

#[derive(Debug)]
pub struct IntegerLiteral {
    pub token: Token,
    pub value: i64,
}

/// `<operator><right>`
#[derive(Debug)]
pub struct PrefixExpression {
    pub token: Token,
    pub operator: String,
    pub right: Box<Expression>,
}

/// `<left> <operator> <right>`
#[derive(Debug)]
pub struct InfixExpression {
    pub token: Token,
    pub left: Box<Expression>,
    pub operator: String,
    pub right: Box<Expression>,
}

#[derive(Debug)]
pub struct Boolean {
    pub token: Token,
    pub value: bool,
}

/// `if (<condition>) <consequence> else <alternative>`
#[derive(Debug)]
pub struct IfExpression {
    pub token: Token,
    pub condition: Box<Expression>,
    pub consequence: Statement,
    pub alternative: Option<Statement>,
}

/// `fn(<parameters>) <body>`
#[derive(Debug)]
pub struct FunctionLiteral {
    pub token: Token,
    pub parameters: Vec<Expression>,
    pub body: Option<Statement>,
}

/// `<function>(<arguments>)`
#[derive(Debug)]
pub struct CallExpression {
    pub token: Token,
    pub function: Box<Expression>,
    pub arguments: Vec<Expression>,
}

#[derive(Debug)]
pub enum Expression {
    Identifier(Identifier),
    IntegerLiteral(IntegerLiteral),
    Prefix(Box<PrefixExpression>),
    Infix(Box<InfixExpression>),
    Boolean(Boolean),
    If(IfExpression),
    FunctionLiteral(FunctionLiteral),
    Call(CallExpression),
}

/// A whole program: its statements in order.
pub struct Program {
    pub statements: Vec<Statement>,
}

/// A token as a value: its kind and literal.
pub type TokenView = (crate::token::TokenType, Seq<char>);

/// The mathematical value of an expression.
pub enum ExprView {
    Ident { token: TokenView, value: Seq<char> },
    Int { token: TokenView, value: i64 },
    Prefix { token: TokenView, operator: Seq<char>, right: Box<ExprView> },
    Infix { token: TokenView, left: Box<ExprView>, operator: Seq<char>, right: Box<ExprView> },
    Bool { token: TokenView, value: bool },
    If {
        token: TokenView,
        condition: Box<ExprView>,
        consequence: Box<StmtView>,
        alternative: Option<Box<StmtView>>,
    },
    Func { token: TokenView, parameters: Seq<ExprView>, body: Option<Box<StmtView>> },
    Call { token: TokenView, function: Box<ExprView>, arguments: Seq<ExprView> },
}

/// The mathematical value of a statement.
pub enum StmtView {
    Let { token: TokenView, name: Box<ExprView>, value: Option<Box<ExprView>> },
    Return { token: TokenView, value: Option<Box<ExprView>> },
    Expr { token: TokenView, expression: Option<Box<ExprView>> },
    Block { token: TokenView, statements: Seq<StmtView> },
}

pub open spec fn expr_view(e: Expression) -> ExprView
    decreases e,
{
    match e {
        Expression::Identifier(i) => ExprView::Ident { token: i.token@, value: i.value@ },
        Expression::IntegerLiteral(i) => ExprView::Int { token: i.token@, value: i.value },
        Expression::Prefix(p) => ExprView::Prefix {
            token: p.token@,
            operator: p.operator@,
            right: Box::new(expr_view(*p.right)),
        },
        Expression::Infix(p) => ExprView::Infix {
            token: p.token@,
            left: Box::new(expr_view(*p.left)),
            operator: p.operator@,
            right: Box::new(expr_view(*p.right)),
        },
        Expression::Boolean(b) => ExprView::Bool { token: b.token@, value: b.value },
        Expression::If(i) => ExprView::If {
            token: i.token@,
            condition: Box::new(expr_view(*i.condition)),
            consequence: Box::new(stmt_view(i.consequence)),
            alternative: match i.alternative {
                Some(a) => Some(Box::new(stmt_view(a))),
                None => None,
            },
        },
        Expression::FunctionLiteral(f) => ExprView::Func {
            token: f.token@,
            parameters: exprs_view(f.parameters@),
            body: match f.body {
                Some(b) => Some(Box::new(stmt_view(b))),
                None => None,
            },
        },
        Expression::Call(c) => ExprView::Call {
            token: c.token@,
            function: Box::new(expr_view(*c.function)),
            arguments: exprs_view(c.arguments@),
        },
    }
}

pub open spec fn exprs_view(es: Seq<Expression>) -> Seq<ExprView>
    decreases es,
{
    if es.len() == 0 {
        Seq::empty()
    } else {
        exprs_view(es.drop_last()).push(expr_view(es.last()))
    }
}

pub open spec fn stmt_view(s: Statement) -> StmtView
    decreases s,
{
    match s {
        Statement::Let(l) => StmtView::Let {
            token: l.token@,
            name: Box::new(expr_view(*l.name)),
            value: match l.value {
                Some(v) => Some(Box::new(expr_view(*v))),
                None => None,
            },
        },
        Statement::Return(r) => StmtView::Return {
            token: r.token@,
            value: match r.return_value {
                Some(v) => Some(Box::new(expr_view(*v))),
                None => None,
            },
        },
        Statement::Expression(x) => StmtView::Expr {
            token: x.token@,
            expression: match x.expression {
                Some(v) => Some(Box::new(expr_view(*v))),
                None => None,
            },
        },
        Statement::Block(b) => StmtView::Block { token: b.token@, statements: stmts_view(b.statements@) },
    }
}

pub open spec fn stmts_view(ss: Seq<Statement>) -> Seq<StmtView>
    decreases ss,
{
    if ss.len() == 0 {
        Seq::empty()
    } else {
        stmts_view(ss.drop_last()).push(stmt_view(ss.last()))
    }
}

pub proof fn lemma_exprs_view_len(es: Seq<Expression>)
    ensures
        exprs_view(es).len() == es.len(),
        forall|i: int| 0 <= i < es.len() ==> #[trigger] exprs_view(es)[i] == expr_view(es[i]),
    decreases es.len(),
{
    if es.len() > 0 {
        lemma_exprs_view_len(es.drop_last());
    }
}

pub proof fn lemma_stmts_view_len(ss: Seq<Statement>)
    ensures
        stmts_view(ss).len() == ss.len(),
        forall|i: int| 0 <= i < ss.len() ==> #[trigger] stmts_view(ss)[i] == stmt_view(ss[i]),
    decreases ss.len(),
{
    if ss.len() > 0 {
        lemma_stmts_view_len(ss.drop_last());
    }
}

impl View for Expression {
    type V = ExprView;

    open spec fn view(&self) -> ExprView {
        expr_view(*self)
    }
}

impl View for Statement {
    type V = StmtView;

    open spec fn view(&self) -> StmtView {
        stmt_view(*self)
    }
}

impl View for Program {
    type V = Seq<StmtView>;

    open spec fn view(&self) -> Seq<StmtView> {
        stmts_view(self.statements@)
    }
}


/// The token an expression starts with.
pub open spec fn expr_token(e: ExprView) -> TokenView {
    match e {
        ExprView::Ident { token, .. } => token,
        ExprView::Int { token, .. } => token,
        ExprView::Prefix { token, .. } => token,
        ExprView::Infix { token, .. } => token,
        ExprView::Bool { token, .. } => token,
        ExprView::If { token, .. } => token,
        ExprView::Func { token, .. } => token,
        ExprView::Call { token, .. } => token,
    }
}

/// The token a statement starts with.
pub open spec fn stmt_token(s: StmtView) -> TokenView {
    match s {
        StmtView::Let { token, .. } => token,
        StmtView::Return { token, .. } => token,
        StmtView::Expr { token, .. } => token,
        StmtView::Block { token, .. } => token,
    }
}

/// The printed form of an expression.
pub open spec fn expr_text(e: ExprView) -> Seq<char>
    decreases e,
{
    match e {
        ExprView::Ident { value, .. } => value,
        ExprView::Int { value, .. } => int_text(value as int),
        ExprView::Prefix { operator, right, .. } => "("@ + operator + expr_text(*right) + ")"@,
        ExprView::Infix { left, operator, right, .. } => "("@ + expr_text(*left) + " "@ + operator
            + " "@ + expr_text(*right) + ")"@,
        ExprView::Bool { token, .. } => token.1,
        ExprView::If { condition, consequence, alternative, .. } => "if"@ + expr_text(*condition)
            + " "@ + stmt_text(*consequence) + match alternative {
            Some(a) => "else "@ + stmt_text(*a),
            None => Seq::empty(),
        },
        ExprView::Func { token, parameters, body } => token.1 + "("@ + exprs_join(parameters)
            + ") "@ + match body {
            Some(b) => stmt_text(*b),
            None => Seq::empty(),
        },
        ExprView::Call { function, arguments, .. } => expr_text(*function) + "("@ + exprs_join(
            arguments,
        ) + ")"@,
    }
}

/// The printed forms of `es`, separated by `", "`.
pub open spec fn exprs_join(es: Seq<ExprView>) -> Seq<char>
    decreases es,
{
    if es.len() == 0 {
        Seq::empty()
    } else if es.len() == 1 {
        expr_text(es[0])
    } else {
        exprs_join(es.drop_last()) + ", "@ + expr_text(es.last())
    }
}

/// The printed form of a statement.
pub open spec fn stmt_text(s: StmtView) -> Seq<char>
    decreases s,
{
    match s {
        StmtView::Let { token, name, value } => token.1 + " "@ + expr_text(*name) + " = "@ + match value {
            Some(v) => expr_text(*v),
            None => Seq::empty(),
        } + ";"@,
        StmtView::Return { token, value } => token.1 + " "@ + match value {
            Some(v) => expr_text(*v),
            None => Seq::empty(),
        },
        StmtView::Expr { expression, .. } => match expression {
            Some(v) => expr_text(*v),
            None => Seq::empty(),
        },
        StmtView::Block { statements, .. } => stmts_text(statements),
    }
}

/// The printed forms of `ss`, one after the other.
pub open spec fn stmts_text(ss: Seq<StmtView>) -> Seq<char>
    decreases ss,
{
    if ss.len() == 0 {
        Seq::empty()
    } else {
        stmts_text(ss.drop_last()) + stmt_text(ss.last())
    }
}

/// A block prints as all of its statements, in order: an empty block
/// prints as nothing, and one more statement at its end adds that
/// statement's printed form at the end.
pub proof fn lemma_block_text(token: TokenView, statements: Seq<StmtView>, last: StmtView)
    ensures
        stmt_text(StmtView::Block { token, statements: Seq::empty() }) == Seq::<char>::empty(),
        stmt_text(StmtView::Block { token, statements: statements.push(last) }) == stmt_text(
            StmtView::Block { token, statements },
        ) + stmt_text(last),
{
    assert(statements.push(last).drop_last() == statements);
    assert(statements.push(last).last() == last);
}

fn expr_string(e: &Expression) -> (res: String)
    ensures
        res@ == expr_text(e@),
    decreases e,
{
    match e {
        Expression::Identifier(i) => i.value.clone(),
        Expression::IntegerLiteral(i) => i64_text(i.value),
        Expression::Prefix(p) => {
            let mut out = String::from_str("(");
            out.append(p.operator.as_str());
            out.append(expr_string(&p.right).as_str());
            out.append(")");
            out
        },
        Expression::Infix(p) => {
            let mut out = String::from_str("(");
            out.append(expr_string(&p.left).as_str());
            out.append(" ");
            out.append(p.operator.as_str());
            out.append(" ");
            out.append(expr_string(&p.right).as_str());
            out.append(")");
            out
        },
        Expression::Boolean(b) => b.token.literal.clone(),
        Expression::If(i) => {
            let mut out = String::from_str("if");
            out.append(expr_string(&i.condition).as_str());
            out.append(" ");
            out.append(stmt_string(&i.consequence).as_str());
            if let Some(alternative) = &i.alternative {
                out.append("else ");
                out.append(stmt_string(alternative).as_str());
            }
            out
        },
        Expression::FunctionLiteral(f) => {
            let mut out = f.token.literal.clone();
            out.append("(");
            out.append(join_exprs(&f.parameters).as_str());
            out.append(") ");
            if let Some(body) = &f.body {
                out.append(stmt_string(body).as_str());
            }
            out
        },
        Expression::Call(c) => {
            let mut out = expr_string(&c.function);
            out.append("(");
            out.append(join_exprs(&c.arguments).as_str());
            out.append(")");
            out
        },
    }
}

fn join_exprs(es: &Vec<Expression>) -> (res: String)
    ensures
        res@ == exprs_join(exprs_view(es@)),
    decreases es,
{
    let mut out = String::new();
    let mut i: usize = 0;
    while i < es.len()
        invariant
            i <= es.len(),
            out@ == exprs_join(exprs_view(es@.take(i as int))),
        decreases es.len() - i,
    {
        assert(decreases_to!(es => es@[i as int]));
        if i > 0 {
            out.append(", ");
        }
        out.append(expr_string(&es[i]).as_str());
        proof {
            let prev = es@.take(i as int);
            let next = es@.take(i + 1);
            assert(next.drop_last() == prev);
            assert(exprs_view(next) == exprs_view(prev).push(expr_view(es@[i as int])));
            lemma_exprs_view_len(prev);
            assert(exprs_view(next).drop_last() == exprs_view(prev));
        }
        i = i + 1;
    }
    assert(es@.take(es.len() as int) == es@);
    out
}

fn stmt_string(s: &Statement) -> (res: String)
    ensures
        res@ == stmt_text(s@),
    decreases s,
{
    match s {
        Statement::Let(l) => {
            let mut out = l.token.literal.clone();
            out.append(" ");
            out.append(expr_string(&l.name).as_str());
            out.append(" = ");
            if let Some(value) = &l.value {
                out.append(expr_string(value).as_str());
            }
            out.append(";");
            out
        },
        Statement::Return(r) => {
            let mut out = r.token.literal.clone();
            out.append(" ");
            if let Some(value) = &r.return_value {
                out.append(expr_string(value).as_str());
            }
            out
        },
        Statement::Expression(x) => {
            if let Some(expression) = &x.expression {
                return expr_string(expression);
            }
            String::new()
        },
        Statement::Block(b) => concat_stmts(&b.statements),
    }
}

fn concat_stmts(ss: &Vec<Statement>) -> (res: String)
    ensures
        res@ == stmts_text(stmts_view(ss@)),
    decreases ss,
{
    let mut out = String::new();
    let mut i: usize = 0;
    while i < ss.len()
        invariant
            i <= ss.len(),
            out@ == stmts_text(stmts_view(ss@.take(i as int))),
        decreases ss.len() - i,
    {
        assert(decreases_to!(ss => ss@[i as int]));
        out.append(stmt_string(&ss[i]).as_str());
        proof {
            let prev = ss@.take(i as int);
            let next = ss@.take(i + 1);
            assert(next.drop_last() == prev);
            assert(stmts_view(next) == stmts_view(prev).push(stmt_view(ss@[i as int])));
            assert(stmts_view(next).drop_last() == stmts_view(prev));
        }
        i = i + 1;
    }
    assert(ss@.take(ss.len() as int) == ss@);
    out
}


impl Node for LetStatement {
    fn token_literal(&self) -> (res: String)
        ensures
            res@ == self.token.literal@,
    {
        self.token.literal.clone()
    }

    fn string(&self) -> (res: String)
        ensures
            res@ == stmt_text(stmt_view(Statement::Let(*self))),
    {
        let mut out = self.token_literal();
        out.append(" ");
        out.append(expr_string(&self.name).as_str());
        out.append(" = ");
        if let Some(value) = &self.value {
            out.append(expr_string(value).as_str());
        }
        out.append(";");
        out
    }
}

impl Node for ReturnStatement {
    fn token_literal(&self) -> (res: String)
        ensures
            res@ == self.token.literal@,
    {
        self.token.literal.clone()
    }

    fn string(&self) -> (res: String)
        ensures
            res@ == stmt_text(stmt_view(Statement::Return(*self))),
    {
        let mut out = self.token_literal();
        out.append(" ");
        if let Some(value) = &self.return_value {
            out.append(expr_string(value).as_str());
        }
        out
    }
}

impl Node for ExpressionStatement {
    fn token_literal(&self) -> (res: String)
        ensures
            res@ == self.token.literal@,
    {
        self.token.literal.clone()
    }

    fn string(&self) -> (res: String)
        ensures
            res@ == stmt_text(stmt_view(Statement::Expression(*self))),
    {
        if let Some(expression) = &self.expression {
            return expr_string(expression);
        }
        String::new()
    }
}

impl Node for BlockStatement {
    fn token_literal(&self) -> (res: String)
        ensures
            res@ == self.token.literal@,
    {
        self.token.literal.clone()
    }

    fn string(&self) -> (res: String)
        ensures
            res@ == stmt_text(stmt_view(Statement::Block(*self))),
    {
        concat_stmts(&self.statements)
    }
}

impl Node for Statement {
    fn token_literal(&self) -> (res: String)
        ensures
            res@ == stmt_token(self@).1,
    {
        match self {
            Statement::Let(s) => s.token_literal(),
            Statement::Return(s) => s.token_literal(),
            Statement::Expression(s) => s.token_literal(),
            Statement::Block(s) => s.token_literal(),
        }
    }

    fn string(&self) -> (res: String)
        ensures
            res@ == stmt_text(self@),
    {
        stmt_string(self)
    }
}

impl Node for Identifier {
    fn token_literal(&self) -> (res: String)
        ensures
            res@ == self.token.literal@,
    {
        self.token.literal.clone()
    }

    fn string(&self) -> (res: String)
        ensures
            res@ == self.value@,
    {
        self.value.clone()
    }
}

impl Node for IntegerLiteral {
    fn token_literal(&self) -> (res: String)
        ensures
            res@ == self.token.literal@,
    {
        self.token.literal.clone()
    }

    fn string(&self) -> (res: String)
        ensures
            res@ == int_text(self.value as int),
    {
        i64_text(self.value)
    }
}

impl Node for PrefixExpression {
    fn token_literal(&self) -> (res: String)
        ensures
            res@ == self.token.literal@,
    {
        self.token.literal.clone()
    }

    fn string(&self) -> (res: String)
        ensures
            res@ == "("@ + self.operator@ + expr_text(self.right@) + ")"@,
    {
        let mut out = String::from_str("(");
        out.append(self.operator.as_str());
        out.append(expr_string(&self.right).as_str());
        out.append(")");
        out
    }
}

impl Node for InfixExpression {
    fn token_literal(&self) -> (res: String)
        ensures
            res@ == self.token.literal@,
    {
        self.token.literal.clone()
    }

    fn string(&self) -> (res: String)
        ensures
            res@ == "("@ + expr_text(self.left@) + " "@ + self.operator@ + " "@ + expr_text(
                self.right@,
            ) + ")"@,
    {
        let mut out = String::from_str("(");
        out.append(expr_string(&self.left).as_str());
        out.append(" ");
        out.append(self.operator.as_str());
        out.append(" ");
        out.append(expr_string(&self.right).as_str());
        out.append(")");
        out
    }
}

impl Node for Boolean {
    fn token_literal(&self) -> (res: String)
        ensures
            res@ == self.token.literal@,
    {
        self.token.literal.clone()
    }

    fn string(&self) -> (res: String)
        ensures
            res@ == self.token.literal@,
    {
        self.token.literal.clone()
    }
}

impl Node for IfExpression {
    fn token_literal(&self) -> (res: String)
        ensures
            res@ == self.token.literal@,
    {
        self.token.literal.clone()
    }

    fn string(&self) -> (res: String)
        ensures
            res@ == expr_text(expr_view(Expression::If(*self))),
    {
        let mut out = String::from_str("if");
        out.append(expr_string(&self.condition).as_str());
        out.append(" ");
        out.append(stmt_string(&self.consequence).as_str());
        if let Some(alternative) = &self.alternative {
            out.append("else ");
            out.append(stmt_string(alternative).as_str());
        }
        out
    }
}

impl Node for FunctionLiteral {
    fn token_literal(&self) -> (res: String)
        ensures
            res@ == self.token.literal@,
    {
        self.token.literal.clone()
    }

    fn string(&self) -> (res: String)
        ensures
            res@ == expr_text(expr_view(Expression::FunctionLiteral(*self))),
    {
        let mut out = self.token_literal();
        out.append("(");
        out.append(join_exprs(&self.parameters).as_str());
        out.append(") ");
        if let Some(body) = &self.body {
            out.append(stmt_string(body).as_str());
        }
        out
    }
}

impl Node for CallExpression {
    fn token_literal(&self) -> (res: String)
        ensures
            res@ == self.token.literal@,
    {
        self.token.literal.clone()
    }

    fn string(&self) -> (res: String)
        ensures
            res@ == expr_text(expr_view(Expression::Call(*self))),
    {
        let mut out = expr_string(&self.function);
        out.append("(");
        out.append(join_exprs(&self.arguments).as_str());
        out.append(")");
        out
    }
}

impl Node for Expression {
    fn token_literal(&self) -> (res: String)
        ensures
            res@ == expr_token(self@).1,
    {
        match self {
            Expression::Identifier(e) => e.token_literal(),
            Expression::IntegerLiteral(e) => e.token_literal(),
            Expression::Prefix(e) => e.token_literal(),
            Expression::Infix(e) => e.token_literal(),
            Expression::Boolean(e) => e.token_literal(),
            Expression::If(e) => e.token_literal(),
            Expression::FunctionLiteral(e) => e.token_literal(),
            Expression::Call(e) => e.token_literal(),
        }
    }

    fn string(&self) -> (res: String)
        ensures
            res@ == expr_text(self@),
    {
        expr_string(self)
    }
}

impl Node for Program {
    fn token_literal(&self) -> (res: String)
        ensures
            res@ == if self@.len() > 0 {
                stmt_token(self@[0]).1
            } else {
                Seq::empty()
            },
    {
        proof {
            lemma_stmts_view_len(self.statements@);
        }
        if self.statements.len() > 0 {
            return self.statements[0].token_literal();
        }
        String::new()
    }

    fn string(&self) -> (res: String)
        ensures
            res@ == stmts_text(self@),
    {
        concat_stmts(&self.statements)
    }
}

fn clone_box_expr(e: &Option<Box<Expression>>) -> (res: Option<Box<Expression>>)
    ensures
        match (res, *e) {
            (Some(a), Some(b)) => expr_view(*a) == expr_view(*b),
            (None, None) => true,
            _ => false,
        },
    decreases e,
{
    match e {
        Some(x) => Some(Box::new(clone_expr(x))),
        None => None,
    }
}

fn clone_expr(e: &Expression) -> (res: Expression)
    ensures
        res@ == e@,
    decreases e,
{
    match e {
        Expression::Identifier(i) => Expression::Identifier(
            Identifier { token: i.token.clone(), value: i.value.clone() },
        ),
        Expression::IntegerLiteral(i) => Expression::IntegerLiteral(
            IntegerLiteral { token: i.token.clone(), value: i.value },
        ),
        Expression::Prefix(p) => Expression::Prefix(
            Box::new(
                PrefixExpression {
                    token: p.token.clone(),
                    operator: p.operator.clone(),
                    right: Box::new(clone_expr(&p.right)),
                },
            ),
        ),
        Expression::Infix(p) => Expression::Infix(
            Box::new(
                InfixExpression {
                    token: p.token.clone(),
                    left: Box::new(clone_expr(&p.left)),
                    operator: p.operator.clone(),
                    right: Box::new(clone_expr(&p.right)),
                },
            ),
        ),
        Expression::Boolean(b) => Expression::Boolean(
            Boolean { token: b.token.clone(), value: b.value },
        ),
        Expression::If(i) => Expression::If(
            IfExpression {
                token: i.token.clone(),
                condition: Box::new(clone_expr(&i.condition)),
                consequence: clone_stmt(&i.consequence),
                alternative: match &i.alternative {
                    Some(a) => Some(clone_stmt(a)),
                    None => None,
                },
            },
        ),
        Expression::FunctionLiteral(f) => Expression::FunctionLiteral(
            FunctionLiteral {
                token: f.token.clone(),
                parameters: clone_exprs(&f.parameters),
                body: match &f.body {
                    Some(b) => Some(clone_stmt(b)),
                    None => None,
                },
            },
        ),
        Expression::Call(c) => Expression::Call(
            CallExpression {
                token: c.token.clone(),
                function: Box::new(clone_expr(&c.function)),
                arguments: clone_exprs(&c.arguments),
            },
        ),
    }
}

fn clone_exprs(es: &Vec<Expression>) -> (res: Vec<Expression>)
    ensures
        exprs_view(res@) == exprs_view(es@),
    decreases es,
{
    let mut out: Vec<Expression> = Vec::new();
    let mut i: usize = 0;
    while i < es.len()
        invariant
            i <= es.len(),
            exprs_view(out@) == exprs_view(es@.take(i as int)),
        decreases es.len() - i,
    {
        assert(decreases_to!(es => es@[i as int]));
        let ghost before = out@;
        out.push(clone_expr(&es[i]));
        proof {
            assert(out@.drop_last() == before);
            assert(es@.take(i + 1).drop_last() == es@.take(i as int));
        }
        i = i + 1;
    }
    assert(es@.take(es.len() as int) == es@);
    out
}

fn clone_stmt(s: &Statement) -> (res: Statement)
    ensures
        res@ == s@,
    decreases s,
{
    match s {
        Statement::Let(l) => Statement::Let(
            LetStatement {
                token: l.token.clone(),
                name: Box::new(clone_expr(&l.name)),
                value: clone_box_expr(&l.value),
            },
        ),
        Statement::Return(r) => Statement::Return(
            ReturnStatement { token: r.token.clone(), return_value: clone_box_expr(&r.return_value) },
        ),
        Statement::Expression(x) => Statement::Expression(
            ExpressionStatement { token: x.token.clone(), expression: clone_box_expr(&x.expression) },
        ),
        Statement::Block(b) => Statement::Block(
            BlockStatement { token: b.token.clone(), statements: clone_stmts(&b.statements) },
        ),
    }
}

fn clone_stmts(ss: &Vec<Statement>) -> (res: Vec<Statement>)
    ensures
        stmts_view(res@) == stmts_view(ss@),
    decreases ss,
{
    let mut out: Vec<Statement> = Vec::new();
    let mut i: usize = 0;
    while i < ss.len()
        invariant
            i <= ss.len(),
            stmts_view(out@) == stmts_view(ss@.take(i as int)),
        decreases ss.len() - i,
    {
        assert(decreases_to!(ss => ss@[i as int]));
        let ghost before = out@;
        out.push(clone_stmt(&ss[i]));
        proof {
            assert(out@.drop_last() == before);
            assert(ss@.take(i + 1).drop_last() == ss@.take(i as int));
        }
        i = i + 1;
    }
    assert(ss@.take(ss.len() as int) == ss@);
    out
}

impl Clone for Expression {
    fn clone(&self) -> (res: Self)
        ensures
            res@ == self@,
    {
        clone_expr(self)
    }
}

impl Clone for Statement {
    fn clone(&self) -> (res: Self)
        ensures
            res@ == self@,
    {
        clone_stmt(self)
    }
}

impl Clone for LetStatement {
    fn clone(&self) -> (res: Self)
        ensures
            stmt_view(Statement::Let(res)) == stmt_view(Statement::Let(*self)),
    {
        LetStatement {
            token: self.token.clone(),
            name: Box::new(clone_expr(&self.name)),
            value: clone_box_expr(&self.value),
        }
    }
}

impl Clone for ReturnStatement {
    fn clone(&self) -> (res: Self)
        ensures
            stmt_view(Statement::Return(res)) == stmt_view(Statement::Return(*self)),
    {
        ReturnStatement { token: self.token.clone(), return_value: clone_box_expr(&self.return_value) }
    }
}

impl Clone for ExpressionStatement {
    fn clone(&self) -> (res: Self)
        ensures
            stmt_view(Statement::Expression(res)) == stmt_view(Statement::Expression(*self)),
    {
        ExpressionStatement { token: self.token.clone(), expression: clone_box_expr(&self.expression) }
    }
}

impl Clone for BlockStatement {
    fn clone(&self) -> (res: Self)
        ensures
            stmt_view(Statement::Block(res)) == stmt_view(Statement::Block(*self)),
    {
        BlockStatement { token: self.token.clone(), statements: clone_stmts(&self.statements) }
    }
}

impl Clone for Identifier {
    fn clone(&self) -> (res: Self)
        ensures
            res == *self,
    {
        Identifier { token: self.token.clone(), value: self.value.clone() }
    }
}

impl Clone for IntegerLiteral {
    fn clone(&self) -> (res: Self)
        ensures
            res == *self,
    {
        IntegerLiteral { token: self.token.clone(), value: self.value }
    }
}

impl Clone for Boolean {
    fn clone(&self) -> (res: Self)
        ensures
            res == *self,
    {
        Boolean { token: self.token.clone(), value: self.value }
    }
}

impl Clone for PrefixExpression {
    fn clone(&self) -> (res: Self)
        ensures
            expr_view(Expression::Prefix(Box::new(res))) == expr_view(
                Expression::Prefix(Box::new(*self)),
            ),
    {
        PrefixExpression {
            token: self.token.clone(),
            operator: self.operator.clone(),
            right: Box::new(clone_expr(&self.right)),
        }
    }
}

impl Clone for InfixExpression {
    fn clone(&self) -> (res: Self)
        ensures
            expr_view(Expression::Infix(Box::new(res))) == expr_view(
                Expression::Infix(Box::new(*self)),
            ),
    {
        InfixExpression {
            token: self.token.clone(),
            left: Box::new(clone_expr(&self.left)),
            operator: self.operator.clone(),
            right: Box::new(clone_expr(&self.right)),
        }
    }
}

impl Clone for IfExpression {
    fn clone(&self) -> (res: Self)
        ensures
            expr_view(Expression::If(res)) == expr_view(Expression::If(*self)),
    {
        IfExpression {
            token: self.token.clone(),
            condition: Box::new(clone_expr(&self.condition)),
            consequence: clone_stmt(&self.consequence),
            alternative: match &self.alternative {
                Some(a) => Some(clone_stmt(a)),
                None => None,
            },
        }
    }
}

impl Clone for FunctionLiteral {
    fn clone(&self) -> (res: Self)
        ensures
            expr_view(Expression::FunctionLiteral(res)) == expr_view(
                Expression::FunctionLiteral(*self),
            ),
    {
        FunctionLiteral {
            token: self.token.clone(),
            parameters: clone_exprs(&self.parameters),
            body: match &self.body {
                Some(b) => Some(clone_stmt(b)),
                None => None,
            },
        }
    }
}

impl Clone for CallExpression {
    fn clone(&self) -> (res: Self)
        ensures
            expr_view(Expression::Call(res)) == expr_view(Expression::Call(*self)),
    {
        CallExpression {
            token: self.token.clone(),
            function: Box::new(clone_expr(&self.function)),
            arguments: clone_exprs(&self.arguments),
        }
    }
}

} // verus!
