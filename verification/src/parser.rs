//! The parser: a Pratt parser that turns the lexer's tokens into a program.

use vstd::prelude::*;
use vstd::string::StringExecFns;

use crate::ast::{
    BlockStatement, Boolean, CallExpression, ExprView, Expression, ExpressionStatement,
    FunctionLiteral, Identifier, IfExpression, InfixExpression, IntegerLiteral, LetStatement,
    PrefixExpression, Program, ReturnStatement, Statement, StmtView, TokenView, exprs_view,
    stmts_view,
};
use crate::grammar::{
    ParseState, adv, errors_kept, expect_peek, has_infix, ident_of, no_prefix_message,
    parse_arguments_loop, parse_block, parse_block_loop, parse_call_arguments, parse_expression,
    parse_expression_statement, parse_infix, parse_infix_loop, parse_let, parse_parameters,
    parse_parameters_loop, parse_prefix, parse_program_loop, parse_return, parse_statement, peek,
    peek_error_message, precedence_of, record, valid_tokens, lemma_binary_operator_grouping,
    parse_tokens, at, shift, statements_close, lemma_program_loop_prefix, embedded, inside,
    lemma_statement_forward, lemma_expression_forward, lemma_expression_context,
    lemma_steps_agree, lemma_program_loop_forward, lemma_statement_none_records, lemma_one_statement_program,
    skip_semicolon, lowest,
    lemma_program_loop_gathers, lemma_program_loop_shift, lemma_stmts_text_concat,
};
use crate::lexer::{
    lemma_eof_is_final, lemma_lex_all_ends_with_eof, lemma_lex_leading_whitespace,
    lemma_lex_operator, lemma_lex_single, lemma_lex_step_progress, lemma_lex_word, lex_all,
    lemma_lexing_joined_texts, lemma_semicolon_ends_tokens, lemma_lex_ascii_word,
    lex_step, operator_kind, skip_whitespace_from, tokenize, Lexer,
};
use crate::ast::stmts_text;
use crate::text::is_letter_char;
use crate::token::keyword_type;
use crate::text::parse_i64;
use crate::token::{Token, TokenType};

verus! {

/// The values of a sequence of tokens.
pub open spec fn tokens_view(v: Seq<Token>) -> Seq<TokenView> {
    v.map_values(|t: Token| t@)
}

/// The values of a sequence of messages.
pub open spec fn messages_view(v: Seq<String>) -> Seq<Seq<char>> {
    v.map_values(|m: String| m@)
}

pub open spec fn opt_expr(e: Option<Expression>) -> Option<ExprView> {
    match e {
        Some(x) => Some(x@),
        None => None,
    }
}

pub open spec fn opt_stmt(s: Option<Statement>) -> Option<StmtView> {
    match s {
        Some(x) => Some(x@),
        None => None,
    }
}

/// How strongly an operator binds.
enum Precedence {
    Lowest,
    Equals,
    LessGreater,
    Sum,
    Product,
    Prefix,
    Call,
}

spec fn level(p: Precedence) -> int {
    match p {
        Precedence::Lowest => 0,
        Precedence::Equals => 1,
        Precedence::LessGreater => 2,
        Precedence::Sum => 3,
        Precedence::Product => 4,
        Precedence::Prefix => 5,
        Precedence::Call => 6,
    }
}

impl Precedence {
    fn value(&self) -> (res: u8)
        ensures
            res == level(*self),
    {
        match self {
            Precedence::Lowest => 0,
            Precedence::Equals => 1,
            Precedence::LessGreater => 2,
            Precedence::Sum => 3,
            Precedence::Product => 4,
            Precedence::Prefix => 5,
            Precedence::Call => 6,
        }
    }
}

fn precedences(token_type: &TokenType) -> (res: Option<Precedence>)
    ensures
        res matches Some(p) ==> level(p) == precedence_of(*token_type) && level(p) > 0,
        res is None ==> precedence_of(*token_type) == 0,
{
    match token_type {
        TokenType::Eq | TokenType::NotEq => Some(Precedence::Equals),
        TokenType::Lt | TokenType::Gt => Some(Precedence::LessGreater),
        TokenType::Plus | TokenType::Minus => Some(Precedence::Sum),
        TokenType::Slash | TokenType::Asterisk => Some(Precedence::Product),
        TokenType::LParen => Some(Precedence::Call),
        _ => None,
    }
}

/// Parses the tokens that a lexer hands out into a program, recording the
/// errors it meets on the way. It reads one token ahead of the current one.
pub struct Parser<'a> {
    lexer: &'a mut Lexer,
    current_token: Option<Token>,
    peek_token: Option<Token>,
    errors: Vec<String>,
    stream: Ghost<Seq<TokenView>>,
    text: Ghost<Seq<char>>,
    position: Ghost<int>,
}

impl<'a> Parser<'a> {
    /// The parser's state is consistent: its current and next tokens are
    /// those at its position in the stream, and its lexer has handed out
    /// exactly the tokens up to the next one.
    pub closed spec fn wf(&self) -> bool {
        let t = self.stream@;
        let pos = self.position@;
        &&& valid_tokens(t)
        &&& t.last().1 == Seq::<char>::empty()
        &&& 0 <= pos < t.len()
        &&& self.current_token matches Some(c) && c@ == t[pos]
        &&& self.peek_token matches Some(p) && p@ == peek(
            t,
            ParseState { pos, errors: Seq::empty() },
        )
        &&& self.lexer.source() == self.text@
        &&& 0 <= self.lexer.offset() <= self.text@.len()
        &&& if pos + 2 < t.len() {
            lex_all(self.text@, self.lexer.offset()) == t.subrange(pos + 2, t.len() as int)
        } else {
            self.lexer.offset() == self.text@.len()
        }
    }

    /// The whole stream of tokens that the lexer hands out to this parser.
    pub closed spec fn tokens(&self) -> Seq<TokenView> {
        self.stream@
    }

    /// The source text of the lexer.
    pub closed spec fn source(&self) -> Seq<char> {
        self.text@
    }

    /// The current position in the stream and the errors recorded so far.
    pub closed spec fn state(&self) -> ParseState {
        ParseState { pos: self.position@, errors: messages_view(self.errors@) }
    }

    /// Where the parser's lexer stands in the source text.
    pub closed spec fn lexer_offset(&self) -> int {
        self.lexer.offset()
    }

    /// The lexer that the parser reads from.
    pub closed spec fn lexer_ref(&self) -> &'a mut Lexer {
        self.lexer
    }

    /// A consistent parser stands on a token of its stream, which ends with
    /// `Eof` and holds no `Eof` before.
    pub proof fn lemma_position_in_stream(&self)
        requires
            self.wf(),
        ensures
            valid_tokens(self.tokens()),
            0 <= self.state().pos < self.tokens().len(),
    {
    }

    /// Once the parser is done with its lexer, the lexer stands where the
    /// parser left it: the lexer after the borrow is the one the parser holds.
    pub proof fn lemma_lexer_handed_back(&self)
        requires
            self.wf(),
            has_resolved(*self),
        ensures
            *final(self.lexer_ref()) == *self.lexer_ref(),
            (*final(self.lexer_ref())).offset() == self.lexer_offset(),
            (*final(self.lexer_ref())).source() == self.source(),
    {
    }

    /// A parser that reads from `lexer`: it takes two tokens, the current
    /// one and the one after it.
    pub fn new(lexer: &'a mut Lexer) -> (res: Self)
        ensures
            res.wf(),
            valid_tokens(res.tokens()),
            0 <= res.state().pos < res.tokens().len(),
            res.source() == old(lexer).source(),
            res.tokens() == lex_all(old(lexer).source(), old(lexer).offset()),
            res.state() == (ParseState { pos: 0, errors: Seq::empty() }),
            res.lexer_offset() == lex_step(
                old(lexer).source(),
                lex_step(old(lexer).source(), old(lexer).offset()).1,
            ).1,
            *final(lexer) == *final(res.lexer_ref()),
    {
        let ghost s = lexer.source();
        let ghost p0: int = lexer.offset();
        let first = lexer.next_token();
        let ghost p1: int = lexer.offset();
        let second = lexer.next_token();
        proof {
            lemma_lex_step_progress(s, p0);
            lemma_lex_step_progress(s, p1);
            lemma_lex_all_ends_with_eof(s, p0);
            if first@.0 == TokenType::Eof {
                lemma_eof_is_final(s, p0);
            } else {
                lemma_lex_all_ends_with_eof(s, p1);
                if second@.0 == TokenType::Eof {
                    assert(lex_all(s, p1) == seq![second@]);
                } else {
                    assert(lex_all(s, p1) == seq![second@] + lex_all(s, lexer.offset()));
                    assert(lex_all(s, p0).subrange(2, lex_all(s, p0).len() as int) == lex_all(
                        s,
                        lexer.offset(),
                    ));
                }
            }
        }
        let parser = Parser {
            lexer,
            current_token: Some(first),
            peek_token: Some(second),
            errors: Vec::new(),
            stream: Ghost(lex_all(s, p0)),
            text: Ghost(s),
            position: Ghost(0),
        };
        assert(messages_view(parser.errors@) == Seq::<Seq<char>>::empty());
        parser
    }

    /// The error messages recorded so far.
    pub fn errors(&self) -> (res: Vec<String>)
        ensures
            messages_view(res@) == self.state().errors,
    {
        let mut res: Vec<String> = Vec::new();
        let mut i: usize = 0;
        while i < self.errors.len()
            invariant
                i <= self.errors@.len(),
                messages_view(res@) == messages_view(self.errors@.take(i as int)),
            decreases self.errors@.len() - i,
        {
            let ghost before = res@;
            res.push(self.errors[i].clone());
            assert(self.errors@.take(i + 1) == self.errors@.take(i as int).push(self.errors@[i as int]));
            assert(messages_view(res@) == messages_view(before).push(self.errors@[i as int]@));
            i = i + 1;
        }
        assert(self.errors@.take(i as int) == self.errors@);
        res
    }

    fn cur(&self) -> (res: &Token)
        requires
            self.wf(),
        ensures
            res@ == self.tokens()[self.state().pos],
    {
        match &self.current_token {
            Some(token) => token,
            None => {
                assert(false);
                unreached()
            },
        }
    }

    fn peek_tok(&self) -> (res: &Token)
        requires
            self.wf(),
        ensures
            res@ == peek(self.tokens(), self.state()),
    {
        match &self.peek_token {
            Some(token) => token,
            None => {
                assert(false);
                unreached()
            },
        }
    }

    fn cur_token_is(&self, token_type: TokenType) -> (res: bool)
        requires
            self.wf(),
        ensures
            res == (self.tokens()[self.state().pos].0 == token_type),
    {
        self.cur().token_type == token_type
    }

    fn peek_token_is(&self, token_type: TokenType) -> (res: bool)
        requires
            self.wf(),
        ensures
            res == (peek(self.tokens(), self.state()).0 == token_type),
    {
        self.peek_tok().token_type == token_type
    }

    /// Steps to the next token, reading one more from the lexer; on the
    /// last one, stays there.
    pub fn next_token(&mut self)
        requires
            old(self).wf(),
        ensures
            final(self).wf(),
            valid_tokens(final(self).tokens()),
            0 <= old(self).state().pos < old(self).tokens().len(),
            0 <= final(self).state().pos < final(self).tokens().len(),
            final(self).source() == old(self).source(),
            *final(final(self).lexer_ref()) == *final(old(self).lexer_ref()),
            errors_kept(old(self).state(), final(self).state()),
            final(self).tokens() == old(self).tokens(),
            final(self).state() == adv(old(self).tokens(), old(self).state()),
            final(self).lexer_offset() == lex_step(old(self).source(), old(self).lexer_offset()).1,
    {
        let ghost t = self.stream@;
        let ghost s = self.text@;
        let ghost off: int = self.lexer.offset();
        let ghost pos: int = self.position@;
        let next = self.lexer.next_token();
        proof {
            lemma_lex_step_progress(s, off);
            if pos + 2 < t.len() {
                assert(lex_all(s, off)[0] == t[pos + 2]);
                if next@.0 != TokenType::Eof {
                    assert(lex_all(s, off) == seq![next@] + lex_all(s, self.lexer.offset()));
                    assert(t.subrange(pos + 3, t.len() as int) == lex_all(s, off).subrange(
                        1,
                        lex_all(s, off).len() as int,
                    ));
                }
            } else {
                assert(skip_whitespace_from(s, s.len() as int) == s.len());
            }
        }
        let mut incoming = Some(next);
        std::mem::swap(&mut self.peek_token, &mut incoming);
        self.current_token = incoming;
        self.position = Ghost(if pos + 1 < t.len() { pos + 1 } else { pos });
        proof {
            let (t1, p1) = (self.stream@, self.position@);
            assert(self.peek_token matches Some(n) && n@ == peek(
                t1,
                ParseState { pos: p1, errors: Seq::empty() },
            ));
            if p1 + 2 < t1.len() {
                assert(lex_all(s, self.lexer.offset()) == t1.subrange(p1 + 2, t1.len() as int));
            }
        }
    }

    fn push_error(&mut self, message: String)
        requires
            old(self).wf(),
        ensures
            final(self).wf(),
            final(self).source() == old(self).source(),
            *final(final(self).lexer_ref()) == *final(old(self).lexer_ref()),
            errors_kept(old(self).state(), final(self).state()),
            final(self).tokens() == old(self).tokens(),
            final(self).state() == record(old(self).state(), message@),
    {
        let ghost before = self.errors@;
        self.errors.push(message);
        assert(messages_view(self.errors@) == messages_view(before).push(message@));
    }

    fn peek_error(&mut self, token_type: TokenType)
        requires
            old(self).wf(),
        ensures
            final(self).wf(),
            final(self).source() == old(self).source(),
            *final(final(self).lexer_ref()) == *final(old(self).lexer_ref()),
            errors_kept(old(self).state(), final(self).state()),
            final(self).tokens() == old(self).tokens(),
            final(self).state() == record(
                old(self).state(),
                peek_error_message(token_type, peek(old(self).tokens(), old(self).state()).0),
            ),
    {
        let got = self.peek_tok().token_type;
        let mut message = String::from_str("expected next token to be ");
        message.append(token_type.to_string().as_str());
        message.append(", got ");
        message.append(got.to_string().as_str());
        message.append(" instead");
        self.push_error(message);
    }

    fn expect_peek(&mut self, token_type: TokenType) -> (res: bool)
        requires
            old(self).wf(),
        ensures
            final(self).wf(),
            final(self).source() == old(self).source(),
            *final(final(self).lexer_ref()) == *final(old(self).lexer_ref()),
            errors_kept(old(self).state(), final(self).state()),
            final(self).tokens() == old(self).tokens(),
            (res, final(self).state()) == expect_peek(
                old(self).tokens(),
                old(self).state(),
                token_type,
            ),
    {
        if self.peek_token_is(token_type) {
            self.next_token();
            true
        } else {
            self.peek_error(token_type);
            false
        }
    }

    fn no_prefix_parse_fn_error(&mut self, token_type: TokenType)
        requires
            old(self).wf(),
        ensures
            final(self).wf(),
            final(self).source() == old(self).source(),
            *final(final(self).lexer_ref()) == *final(old(self).lexer_ref()),
            errors_kept(old(self).state(), final(self).state()),
            final(self).tokens() == old(self).tokens(),
            final(self).state() == record(old(self).state(), no_prefix_message(token_type)),
    {
        let mut message = String::from_str("no prefix parse function for ");
        message.append(token_type.to_string().as_str());
        message.append(" found");
        self.push_error(message);
    }

    fn peek_precedence(&self) -> (res: Precedence)
        requires
            self.wf(),
        ensures
            level(res) == precedence_of(peek(self.tokens(), self.state()).0),
    {
        match precedences(&self.peek_tok().token_type) {
            Some(p) => p,
            None => Precedence::Lowest,
        }
    }

    fn cur_precedence(&self) -> (res: Precedence)
        requires
            self.wf(),
        ensures
            level(res) == precedence_of(self.tokens()[self.state().pos].0),
    {
        match precedences(&self.cur().token_type) {
            Some(p) => p,
            None => Precedence::Lowest,
        }
    }

    fn parse_statement(&mut self) -> (res: Option<Statement>)
        requires
            old(self).wf(),
        ensures
            final(self).wf(),
            final(self).source() == old(self).source(),
            *final(final(self).lexer_ref()) == *final(old(self).lexer_ref()),
            final(self).tokens() == old(self).tokens(),
            (opt_stmt(res), final(self).state()) == parse_statement(
                old(self).tokens(),
                old(self).state(),
            ),
            old(self).state().pos <= final(self).state().pos,
            errors_kept(old(self).state(), final(self).state()),
        decreases self.tokens().len() - self.state().pos, 9int,
    {
        match self.cur().token_type {
            TokenType::Let => self.parse_let_statement(),
            TokenType::Return => self.parse_return_statement(),
            _ => self.parse_expression_statement(),
        }
    }

    fn parse_let_statement(&mut self) -> (res: Option<Statement>)
        requires
            old(self).wf(),
        ensures
            final(self).wf(),
            final(self).source() == old(self).source(),
            *final(final(self).lexer_ref()) == *final(old(self).lexer_ref()),
            final(self).tokens() == old(self).tokens(),
            (opt_stmt(res), final(self).state()) == parse_let(old(self).tokens(), old(self).state()),
            old(self).state().pos <= final(self).state().pos,
            errors_kept(old(self).state(), final(self).state()),
        decreases self.tokens().len() - self.state().pos, 8int,
    {
        let token = self.cur().clone();
        if !self.expect_peek(TokenType::Ident) {
            return None;
        }
        let name_token = self.cur().clone();
        let name = Identifier { token: name_token.clone(), value: name_token.literal };
        if !self.expect_peek(TokenType::Assign) {
            return None;
        }
        self.next_token();
        let value = self.parse_expression(&Precedence::Lowest);
        if self.peek_token_is(TokenType::SemiColon) {
            self.next_token();
        }
        let value = match value {
            Some(v) => Some(Box::new(v)),
            None => None,
        };
        Some(
            Statement::Let(
                LetStatement { token, name: Box::new(Expression::Identifier(name)), value },
            ),
        )
    }

    fn parse_return_statement(&mut self) -> (res: Option<Statement>)
        requires
            old(self).wf(),
        ensures
            final(self).wf(),
            final(self).source() == old(self).source(),
            *final(final(self).lexer_ref()) == *final(old(self).lexer_ref()),
            final(self).tokens() == old(self).tokens(),
            (opt_stmt(res), final(self).state()) == parse_return(
                old(self).tokens(),
                old(self).state(),
            ),
            old(self).state().pos <= final(self).state().pos,
            errors_kept(old(self).state(), final(self).state()),
        decreases self.tokens().len() - self.state().pos, 8int,
    {
        let token = self.cur().clone();
        self.next_token();
        let return_value = self.parse_expression(&Precedence::Lowest);
        if self.peek_token_is(TokenType::SemiColon) {
            self.next_token();
        }
        let return_value = match return_value {
            Some(v) => Some(Box::new(v)),
            None => None,
        };
        Some(Statement::Return(ReturnStatement { token, return_value }))
    }

    fn parse_expression_statement(&mut self) -> (res: Option<Statement>)
        requires
            old(self).wf(),
        ensures
            final(self).wf(),
            final(self).source() == old(self).source(),
            *final(final(self).lexer_ref()) == *final(old(self).lexer_ref()),
            final(self).tokens() == old(self).tokens(),
            (opt_stmt(res), final(self).state()) == parse_expression_statement(
                old(self).tokens(),
                old(self).state(),
            ),
            old(self).state().pos <= final(self).state().pos,
            errors_kept(old(self).state(), final(self).state()),
        decreases self.tokens().len() - self.state().pos, 8int,
    {
        let token = self.cur().clone();
        let expression = self.parse_expression(&Precedence::Lowest);
        if self.peek_token_is(TokenType::SemiColon) {
            self.next_token();
        }
        let expression = match expression {
            Some(v) => Some(Box::new(v)),
            None => None,
        };
        Some(Statement::Expression(ExpressionStatement { token, expression }))
    }

    fn parse_expression(&mut self, precedence: &Precedence) -> (res: Option<Expression>)
        requires
            old(self).wf(),
        ensures
            final(self).wf(),
            final(self).source() == old(self).source(),
            *final(final(self).lexer_ref()) == *final(old(self).lexer_ref()),
            final(self).tokens() == old(self).tokens(),
            (opt_expr(res), final(self).state()) == parse_expression(
                old(self).tokens(),
                old(self).state(),
                level(*precedence),
            ),
            old(self).state().pos <= final(self).state().pos,
            errors_kept(old(self).state(), final(self).state()),
        decreases self.tokens().len() - self.state().pos, 7int,
    {
        let ghost t = self.tokens();
        let ghost st = self.state();
        let token_type = self.cur().token_type;
        let prefix = match token_type {
            TokenType::Ident => self.parse_identifier(),
            TokenType::Int => self.parse_integer_literal(),
            TokenType::Bang | TokenType::Minus => self.parse_prefix_expression(),
            TokenType::True | TokenType::False => self.parse_boolean(),
            TokenType::LParen => self.parse_grouped_expression(),
            TokenType::If => self.parse_if_expression(),
            TokenType::Function => self.parse_function_literal(),
            _ => {
                self.no_prefix_parse_fn_error(token_type);
                return None;
            },
        };
        let mut left_exp = match prefix {
            Some(left) => left,
            None => {
                return None;
            },
        };
        let ghost s1 = self.state();
        let ghost l0 = left_exp@;
        let strength: u8 = precedence.value();
        assert(parse_expression(t, st, level(*precedence)) == parse_infix_loop(
            t,
            s1,
            strength as int,
            l0,
        ));
        while !self.peek_token_is(TokenType::SemiColon) && strength < self.peek_precedence().value()
            invariant
                self.wf(),
                self.source() == old(self).source(),
                *final(self.lexer_ref()) == *final(old(self).lexer_ref()),
                self.tokens() == t,
                t == old(self).tokens(),
                errors_kept(old(self).state(), self.state()),
                valid_tokens(t),
                0 <= self.state().pos < t.len(),
                st.pos <= s1.pos <= self.state().pos,
                st == old(self).state(),
                strength == level(*precedence),
                parse_expression(t, st, level(*precedence)) == parse_infix_loop(
                    t,
                    s1,
                    strength as int,
                    l0,
                ),
                parse_infix_loop(t, self.state(), strength as int, left_exp@) == parse_infix_loop(
                    t,
                    s1,
                    strength as int,
                    l0,
                ),
            decreases t.len() - self.state().pos,
        {
            let ghost s = self.state();
            let ghost lv = left_exp@;
            let peek_type = self.peek_tok().token_type;
            let infix = match peek_type {
                TokenType::Plus | TokenType::Minus | TokenType::Slash | TokenType::Asterisk
                | TokenType::Eq | TokenType::NotEq | TokenType::Lt | TokenType::Gt => {
                    self.next_token();
                    self.parse_infix_expression(left_exp)
                },
                TokenType::LParen => {
                    self.next_token();
                    self.parse_call_expression(left_exp)
                },
                _ => {
                    return Some(left_exp);
                },
            };
            left_exp = match infix {
                Some(e) => e,
                None => {
                    assert(parse_infix_loop(t, s, strength as int, lv) == (
                        None::<ExprView>,
                        self.state(),
                    ));
                    return None;
                },
            };
        }
        Some(left_exp)
    }

    fn parse_identifier(&mut self) -> (res: Option<Expression>)
        requires
            old(self).wf(),
            old(self).tokens()[old(self).state().pos].0 == TokenType::Ident,
        ensures
            final(self).wf(),
            final(self).source() == old(self).source(),
            *final(final(self).lexer_ref()) == *final(old(self).lexer_ref()),
            final(self).tokens() == old(self).tokens(),
            (opt_expr(res), final(self).state()) == parse_prefix(old(self).tokens(), old(self).state()),
            old(self).state().pos <= final(self).state().pos,
            errors_kept(old(self).state(), final(self).state()),
    {
        let token = self.cur().clone();
        Some(Expression::Identifier(Identifier { token: token.clone(), value: token.literal }))
    }

    fn parse_integer_literal(&mut self) -> (res: Option<Expression>)
        requires
            old(self).wf(),
            old(self).tokens()[old(self).state().pos].0 == TokenType::Int,
        ensures
            final(self).wf(),
            final(self).source() == old(self).source(),
            *final(final(self).lexer_ref()) == *final(old(self).lexer_ref()),
            final(self).tokens() == old(self).tokens(),
            (opt_expr(res), final(self).state()) == parse_prefix(old(self).tokens(), old(self).state()),
            old(self).state().pos <= final(self).state().pos,
            errors_kept(old(self).state(), final(self).state()),
    {
        let token = self.cur().clone();
        match parse_i64(token.literal.as_str()) {
            Some(value) => Some(Expression::IntegerLiteral(IntegerLiteral { token, value })),
            None => {
                let mut message = String::from_str("could not parse ");
                message.append(token.literal.as_str());
                self.push_error(message);
                None
            },
        }
    }

    fn parse_boolean(&mut self) -> (res: Option<Expression>)
        requires
            old(self).wf(),
            old(self).tokens()[old(self).state().pos].0 == TokenType::True
                || old(self).tokens()[old(self).state().pos].0 == TokenType::False,
        ensures
            final(self).wf(),
            final(self).source() == old(self).source(),
            *final(final(self).lexer_ref()) == *final(old(self).lexer_ref()),
            final(self).tokens() == old(self).tokens(),
            (opt_expr(res), final(self).state()) == parse_prefix(old(self).tokens(), old(self).state()),
            old(self).state().pos <= final(self).state().pos,
            errors_kept(old(self).state(), final(self).state()),
    {
        let token = self.cur().clone();
        let value = self.cur_token_is(TokenType::True);
        Some(Expression::Boolean(Boolean { token, value }))
    }

    fn parse_grouped_expression(&mut self) -> (res: Option<Expression>)
        requires
            old(self).wf(),
            old(self).tokens()[old(self).state().pos].0 == TokenType::LParen,
        ensures
            final(self).wf(),
            final(self).source() == old(self).source(),
            *final(final(self).lexer_ref()) == *final(old(self).lexer_ref()),
            final(self).tokens() == old(self).tokens(),
            (opt_expr(res), final(self).state()) == parse_prefix(old(self).tokens(), old(self).state()),
            old(self).state().pos <= final(self).state().pos,
            errors_kept(old(self).state(), final(self).state()),
        decreases self.tokens().len() - self.state().pos, 5int,
    {
        self.next_token();
        let expression = self.parse_expression(&Precedence::Lowest);
        if !self.expect_peek(TokenType::RParen) {
            return None;
        }
        expression
    }

    fn parse_prefix_expression(&mut self) -> (res: Option<Expression>)
        requires
            old(self).wf(),
            old(self).tokens()[old(self).state().pos].0 == TokenType::Bang
                || old(self).tokens()[old(self).state().pos].0 == TokenType::Minus,
        ensures
            final(self).wf(),
            final(self).source() == old(self).source(),
            *final(final(self).lexer_ref()) == *final(old(self).lexer_ref()),
            final(self).tokens() == old(self).tokens(),
            (opt_expr(res), final(self).state()) == parse_prefix(old(self).tokens(), old(self).state()),
            old(self).state().pos <= final(self).state().pos,
            errors_kept(old(self).state(), final(self).state()),
        decreases self.tokens().len() - self.state().pos, 5int,
    {
        let token = self.cur().clone();
        let operator = token.literal.clone();
        self.next_token();
        let right = match self.parse_expression(&Precedence::Prefix) {
            Some(r) => r,
            None => {
                return None;
            },
        };
        Some(Expression::Prefix(Box::new(PrefixExpression { token, operator, right: Box::new(right) })))
    }

    fn parse_infix_expression(&mut self, left: Expression) -> (res: Option<Expression>)
        requires
            old(self).wf(),
            has_infix(old(self).tokens()[old(self).state().pos].0),
            old(self).tokens()[old(self).state().pos].0 != TokenType::LParen,
        ensures
            final(self).wf(),
            final(self).source() == old(self).source(),
            *final(final(self).lexer_ref()) == *final(old(self).lexer_ref()),
            final(self).tokens() == old(self).tokens(),
            (opt_expr(res), final(self).state()) == parse_infix(
                old(self).tokens(),
                old(self).state(),
                left@,
            ),
            old(self).state().pos <= final(self).state().pos,
            errors_kept(old(self).state(), final(self).state()),
        decreases self.tokens().len() - self.state().pos, 5int,
    {
        let token = self.cur().clone();
        let operator = token.literal.clone();
        let precedence = self.cur_precedence();
        self.next_token();
        let right = match self.parse_expression(&precedence) {
            Some(r) => r,
            None => {
                return None;
            },
        };
        Some(
            Expression::Infix(
                Box::new(
                    InfixExpression { token, operator, left: Box::new(left), right: Box::new(right) },
                ),
            ),
        )
    }

    fn parse_if_expression(&mut self) -> (res: Option<Expression>)
        requires
            old(self).wf(),
            old(self).tokens()[old(self).state().pos].0 == TokenType::If,
        ensures
            final(self).wf(),
            final(self).source() == old(self).source(),
            *final(final(self).lexer_ref()) == *final(old(self).lexer_ref()),
            final(self).tokens() == old(self).tokens(),
            (opt_expr(res), final(self).state()) == parse_prefix(old(self).tokens(), old(self).state()),
            old(self).state().pos <= final(self).state().pos,
            errors_kept(old(self).state(), final(self).state()),
        decreases self.tokens().len() - self.state().pos, 4int,
    {
        let token = self.cur().clone();
        if !self.expect_peek(TokenType::LParen) {
            return None;
        }
        self.next_token();
        let condition = match self.parse_expression(&Precedence::Lowest) {
            Some(c) => c,
            None => {
                return None;
            },
        };
        if !self.expect_peek(TokenType::RParen) {
            return None;
        }
        if !self.expect_peek(TokenType::LBrace) {
            return None;
        }
        let consequence = match self.parse_block_statement() {
            Some(c) => c,
            None => {
                return None;
            },
        };
        let alternative = if self.peek_token_is(TokenType::Else) {
            self.next_token();
            if !self.expect_peek(TokenType::LBrace) {
                return None;
            }
            self.parse_block_statement()
        } else {
            None
        };
        Some(
            Expression::If(
                IfExpression { token, condition: Box::new(condition), consequence, alternative },
            ),
        )
    }

    fn parse_block_statement(&mut self) -> (res: Option<Statement>)
        requires
            old(self).wf(),
            old(self).tokens()[old(self).state().pos].0 == TokenType::LBrace,
        ensures
            final(self).wf(),
            final(self).source() == old(self).source(),
            *final(final(self).lexer_ref()) == *final(old(self).lexer_ref()),
            final(self).tokens() == old(self).tokens(),
            (opt_stmt(res), final(self).state()) == parse_block(old(self).tokens(), old(self).state()),
            old(self).state().pos <= final(self).state().pos,
            errors_kept(old(self).state(), final(self).state()),
            res is Some,
        decreases self.tokens().len() - self.state().pos, 4int,
    {
        let ghost t = self.tokens();
        let ghost st = self.state();
        let token = self.cur().clone();
        let mut statements: Vec<Statement> = Vec::new();
        self.next_token();
        let ghost s1 = self.state();
        while !self.cur_token_is(TokenType::RBrace) && !self.cur_token_is(TokenType::Eof)
            invariant
                self.wf(),
                self.source() == old(self).source(),
                *final(self.lexer_ref()) == *final(old(self).lexer_ref()),
                self.tokens() == t,
                t == old(self).tokens(),
                errors_kept(old(self).state(), self.state()),
                valid_tokens(t),
                0 <= self.state().pos < t.len(),
                st.pos < s1.pos <= self.state().pos,
                st == old(self).state(),
                parse_block_loop(t, self.state(), stmts_view(statements@)) == parse_block_loop(
                    t,
                    s1,
                    Seq::empty(),
                ),
            decreases t.len() - self.state().pos,
        {
            let ghost before = statements@;
            let statement = self.parse_statement();
            if let Some(statement) = statement {
                statements.push(statement);
                assert(statements@.drop_last() == before);
            }
            self.next_token();
        }
        Some(Statement::Block(BlockStatement { token, statements }))
    }

    fn parse_function_literal(&mut self) -> (res: Option<Expression>)
        requires
            old(self).wf(),
            old(self).tokens()[old(self).state().pos].0 == TokenType::Function,
        ensures
            final(self).wf(),
            final(self).source() == old(self).source(),
            *final(final(self).lexer_ref()) == *final(old(self).lexer_ref()),
            final(self).tokens() == old(self).tokens(),
            (opt_expr(res), final(self).state()) == parse_prefix(old(self).tokens(), old(self).state()),
            old(self).state().pos <= final(self).state().pos,
            errors_kept(old(self).state(), final(self).state()),
        decreases self.tokens().len() - self.state().pos, 4int,
    {
        let token = self.cur().clone();
        if !self.expect_peek(TokenType::LParen) {
            return None;
        }
        let parameters = self.parse_function_parameters();
        if !self.expect_peek(TokenType::LBrace) {
            return None;
        }
        let body = self.parse_block_statement();
        Some(Expression::FunctionLiteral(FunctionLiteral { token, parameters, body }))
    }

    fn parse_function_parameters(&mut self) -> (res: Vec<Expression>)
        requires
            old(self).wf(),
        ensures
            final(self).wf(),
            final(self).source() == old(self).source(),
            *final(final(self).lexer_ref()) == *final(old(self).lexer_ref()),
            final(self).tokens() == old(self).tokens(),
            (exprs_view(res@), final(self).state()) == parse_parameters(
                old(self).tokens(),
                old(self).state(),
            ),
            old(self).state().pos <= final(self).state().pos,
            errors_kept(old(self).state(), final(self).state()),
    {
        let ghost t = self.tokens();
        let mut identifiers: Vec<Expression> = Vec::new();
        if self.peek_token_is(TokenType::RParen) {
            self.next_token();
            return identifiers;
        }
        self.next_token();
        let token = self.cur().clone();
        identifiers.push(Expression::Identifier(Identifier { token: token.clone(), value: token.literal }));
        let ghost s1 = self.state();
        assert(identifiers@.drop_last() == Seq::<Expression>::empty());
        assert(exprs_view(Seq::<Expression>::empty()) == Seq::<ExprView>::empty());
        assert(identifiers@.last()@ == ident_of(t[s1.pos]));
        assert(exprs_view(identifiers@) == seq![ident_of(t[s1.pos])]);
        while self.peek_token_is(TokenType::Comma)
            invariant
                self.wf(),
                self.source() == old(self).source(),
                *final(self.lexer_ref()) == *final(old(self).lexer_ref()),
                self.tokens() == t,
                t == old(self).tokens(),
                errors_kept(old(self).state(), self.state()),
                valid_tokens(t),
                0 <= self.state().pos < t.len(),
                old(self).state().pos <= self.state().pos,
                parse_parameters_loop(t, self.state(), exprs_view(identifiers@))
                    == parse_parameters_loop(t, s1, seq![ident_of(t[s1.pos])]),
            decreases t.len() - self.state().pos,
        {
            let ghost before = identifiers@;
            self.next_token();
            self.next_token();
            let token = self.cur().clone();
            identifiers.push(
                Expression::Identifier(Identifier { token: token.clone(), value: token.literal }),
            );
            assert(identifiers@.drop_last() == before);
            assert(identifiers@.last()@ == ident_of(t[self.state().pos]));
            assert(exprs_view(identifiers@) == exprs_view(before).push(ident_of(t[self.state().pos])));
        }
        if !self.expect_peek(TokenType::RParen) {
            return Vec::new();
        }
        identifiers
    }

    fn parse_call_expression(&mut self, function: Expression) -> (res: Option<Expression>)
        requires
            old(self).wf(),
            old(self).tokens()[old(self).state().pos].0 == TokenType::LParen,
        ensures
            final(self).wf(),
            final(self).source() == old(self).source(),
            *final(final(self).lexer_ref()) == *final(old(self).lexer_ref()),
            final(self).tokens() == old(self).tokens(),
            (opt_expr(res), final(self).state()) == parse_infix(
                old(self).tokens(),
                old(self).state(),
                function@,
            ),
            old(self).state().pos <= final(self).state().pos,
            errors_kept(old(self).state(), final(self).state()),
        decreases self.tokens().len() - self.state().pos, 5int,
    {
        let token = self.cur().clone();
        let arguments = self.parse_call_arguments();
        Some(Expression::Call(CallExpression { token, function: Box::new(function), arguments }))
    }

    fn parse_call_arguments(&mut self) -> (res: Vec<Expression>)
        requires
            old(self).wf(),
            old(self).tokens()[old(self).state().pos].0 == TokenType::LParen,
        ensures
            final(self).wf(),
            final(self).source() == old(self).source(),
            *final(final(self).lexer_ref()) == *final(old(self).lexer_ref()),
            final(self).tokens() == old(self).tokens(),
            (exprs_view(res@), final(self).state()) == parse_call_arguments(
                old(self).tokens(),
                old(self).state(),
            ),
            old(self).state().pos <= final(self).state().pos,
            errors_kept(old(self).state(), final(self).state()),
        decreases self.tokens().len() - self.state().pos, 3int,
    {
        let ghost t = self.tokens();
        let ghost st = self.state();
        let mut args: Vec<Expression> = Vec::new();
        if self.peek_token_is(TokenType::RParen) {
            self.next_token();
            return args;
        }
        self.next_token();
        let expression = match self.parse_expression(&Precedence::Lowest) {
            Some(e) => e,
            None => {
                return args;
            },
        };
        args.push(expression);
        let ghost s2 = self.state();
        let ghost first = args@[0]@;
        assert(args@.drop_last() == Seq::<Expression>::empty());
        assert(exprs_view(Seq::<Expression>::empty()) == Seq::<ExprView>::empty());
        assert(exprs_view(args@) == seq![first]);
        assert(parse_call_arguments(t, st) == parse_arguments_loop(t, s2, seq![first]));
        while self.peek_token_is(TokenType::Comma)
            invariant
                self.wf(),
                self.source() == old(self).source(),
                *final(self.lexer_ref()) == *final(old(self).lexer_ref()),
                self.tokens() == t,
                t == old(self).tokens(),
                errors_kept(old(self).state(), self.state()),
                valid_tokens(t),
                0 <= self.state().pos < t.len(),
                st.pos < s2.pos <= self.state().pos,
                st == old(self).state(),
                parse_call_arguments(t, st) == parse_arguments_loop(t, s2, seq![first]),
                parse_arguments_loop(t, self.state(), exprs_view(args@)) == parse_arguments_loop(
                    t,
                    s2,
                    seq![first],
                ),
            decreases t.len() - self.state().pos,
        {
            let ghost before = args@;
            let ghost s = self.state();
            self.next_token();
            self.next_token();
            let expression = match self.parse_expression(&Precedence::Lowest) {
                Some(e) => e,
                None => {
                    assert(parse_arguments_loop(t, s, exprs_view(args@)) == (
                        exprs_view(args@),
                        self.state(),
                    ));
                    return args;
                },
            };
            args.push(expression);
            assert(args@.drop_last() == before);
        }
        if !self.expect_peek(TokenType::RParen) {
            return Vec::new();
        }
        args
    }

    /// Parses every statement up to `Eof`.
    pub fn parse_program(&mut self) -> (res: Program)
        requires
            old(self).wf(),
        ensures
            final(self).wf(),
            final(self).source() == old(self).source(),
            *final(final(self).lexer_ref()) == *final(old(self).lexer_ref()),
            final(self).tokens() == old(self).tokens(),
            errors_kept(old(self).state(), final(self).state()),
            0 <= final(self).state().pos < final(self).tokens().len(),
            final(self).tokens()[final(self).state().pos].0 == TokenType::Eof,
            final(self).lexer_offset() == final(self).source().len(),
            (res@, final(self).state()) == parse_program_loop(
                old(self).tokens(),
                old(self).state(),
                Seq::empty(),
            ),
    {
        let ghost t = self.tokens();
        let ghost st = self.state();
        let mut program = Program { statements: Vec::new() };
        while !self.cur_token_is(TokenType::Eof)
            invariant
                self.wf(),
                self.source() == old(self).source(),
                *final(self.lexer_ref()) == *final(old(self).lexer_ref()),
                self.tokens() == t,
                t == old(self).tokens(),
                errors_kept(old(self).state(), self.state()),
                valid_tokens(t),
                0 <= self.state().pos < t.len(),
                parse_program_loop(t, self.state(), program@) == parse_program_loop(
                    t,
                    st,
                    Seq::empty(),
                ),
            decreases t.len() - self.state().pos,
        {
            let ghost before = program.statements@;
            if let Some(stmt) = self.parse_statement() {
                program.statements.push(stmt);
                assert(program.statements@.drop_last() == before);
            }
            self.next_token();
        }
        program
    }
}

/// What a parser made by `Parser::new` on a fresh lexer over `s` returns
/// from `parse_program`: the program, and the error messages recorded.
pub open spec fn parse_text(s: Seq<char>) -> (Seq<StmtView>, Seq<Seq<char>>) {
    parse_tokens(tokenize(s))
}

/// A word that the lexer reads as an identifier.
pub open spec fn is_identifier_text(w: Seq<char>) -> bool {
    &&& w.len() > 0
    &&& forall|i: int| 0 <= i < w.len() ==> is_letter_char(#[trigger] w[i])
    &&& keyword_type(w) == TokenType::Ident
}

/// How strongly a binary operator binds: `==` and `!=` least, then `<`
/// and `>`, then `+` and `-`, and `*` and `/` most.
pub open spec fn operator_rank(o: Seq<char>) -> int {
    if o == "=="@ || o == "!="@ {
        1
    } else if o == "<"@ || o == ">"@ {
        2
    } else if o == "+"@ || o == "-"@ {
        3
    } else {
        4
    }
}

proof fn lemma_operator_ranks(o: Seq<char>)
    requires
        operator_kind(o) is Some,
    ensures
        precedence_of(operator_kind(o)->0) == operator_rank(o),
{
    reveal_strlit("==");
    reveal_strlit("!=");
    reveal_strlit("<");
    reveal_strlit(">");
    reveal_strlit("+");
    reveal_strlit("-");
    reveal_strlit("*");
    reveal_strlit("/");
}

/// The source text `a o1 b o2 c;`.
pub open spec fn two_operators_text(
    a: Seq<char>,
    o1: Seq<char>,
    b: Seq<char>,
    o2: Seq<char>,
    c: Seq<char>,
) -> Seq<char> {
    a + " "@ + o1 + " "@ + b + " "@ + o2 + " "@ + c + ";"@
}

/// The tokens of `b o2 c;`.
proof fn lemma_operator_tail_tokens(b: Seq<char>, o2: Seq<char>, c: Seq<char>)
    requires
        is_identifier_text(b),
        is_identifier_text(c),
        operator_kind(o2) is Some,
    ensures
        lex_all(b + (seq![' '] + (o2 + (seq![' '] + (c + seq![';'])))), 0) == seq![
            (keyword_type(b), b),
            (operator_kind(o2)->0, o2),
            (keyword_type(c), c),
            (TokenType::SemiColon, seq![';']),
            (TokenType::Eof, Seq::<char>::empty()),
        ],
{
    let sp = seq![' '];
    let r8 = seq![';'];
    let r7 = c + r8;
    let r6 = sp + r7;
    let r5 = o2 + r6;
    let r4 = sp + r5;
    assert(lex_all(Seq::<char>::empty(), 0) == seq![(TokenType::Eof, Seq::<char>::empty())]);
    lemma_lex_single(';', Seq::<char>::empty());
    assert(seq![';'] + Seq::<char>::empty() == r8);
    lemma_lex_word(c, r8);
    lemma_lex_leading_whitespace(' ', r7);
    lemma_lex_operator(o2, r6);
    lemma_lex_leading_whitespace(' ', r5);
    lemma_lex_word(b, r4);
}

#[verifier::spinoff_prover]
proof fn lemma_two_operators_tokens(
    a: Seq<char>,
    o1: Seq<char>,
    b: Seq<char>,
    o2: Seq<char>,
    c: Seq<char>,
)
    requires
        is_identifier_text(a),
        is_identifier_text(b),
        is_identifier_text(c),
        operator_kind(o1) is Some,
        operator_kind(o2) is Some,
    ensures
        tokenize(two_operators_text(a, o1, b, o2, c)) == seq![
            (keyword_type(a), a),
            (operator_kind(o1)->0, o1),
            (keyword_type(b), b),
            (operator_kind(o2)->0, o2),
            (keyword_type(c), c),
        ] + seq![(TokenType::SemiColon, seq![';']), (TokenType::Eof, Seq::<char>::empty())],
{
    reveal_strlit(" ");
    reveal_strlit(";");
    let sp = seq![' '];
    let r3 = b + (sp + (o2 + (sp + (c + seq![';']))));
    let r2 = sp + r3;
    let r1 = o1 + r2;
    let r0 = sp + r1;
    let whole = a + r0;
    assert(two_operators_text(a, o1, b, o2, c) =~= whole);
    lemma_operator_tail_tokens(b, o2, c);
    lemma_lex_leading_whitespace(' ', r3);
    lemma_lex_operator(o1, r2);
    lemma_lex_leading_whitespace(' ', r1);
    lemma_lex_word(a, r0);
}

/// The source text `a o1 b o2 c;`, with identifiers `a`, `b`, `c` and
/// binary operators `o1`, `o2`, parses without errors to one statement,
/// which prints as `((a o1 b) o2 c)` where `o1` ranks at least as high as
/// `o2` (equal ranks group from the left) and as `(a o1 (b o2 c))` where
/// `o2` ranks higher.
pub proof fn lemma_grouping_in_source(
    a: Seq<char>,
    o1: Seq<char>,
    b: Seq<char>,
    o2: Seq<char>,
    c: Seq<char>,
)
    requires
        is_identifier_text(a),
        is_identifier_text(b),
        is_identifier_text(c),
        operator_kind(o1) is Some,
        operator_kind(o2) is Some,
    ensures
        ({
            let (program, errors) = parse_text(two_operators_text(a, o1, b, o2, c));
            &&& errors.len() == 0
            &&& program.len() == 1
            &&& stmts_text(program) == if operator_rank(o1) < operator_rank(o2) {
                "("@ + a + " "@ + o1 + " ("@ + b + " "@ + o2 + " "@ + c + "))"@
            } else {
                "(("@ + a + " "@ + o1 + " "@ + b + ") "@ + o2 + " "@ + c + ")"@
            }
        }),
{
    lemma_operator_ranks(o1);
    lemma_operator_ranks(o2);
    lemma_two_operators_tokens(a, o1, b, o2, c);
    lemma_binary_operator_grouping(
        (keyword_type(a), a),
        (operator_kind(o1)->0, o1),
        (keyword_type(b), b),
        (operator_kind(o2)->0, o2),
        (keyword_type(c), c),
        seq![(TokenType::SemiColon, seq![';']), (TokenType::Eof, Seq::<char>::empty())],
    );
}

/// Parsing two texts one after the other, where the first ends with `;`,
/// leaves none of its statements open (an unclosed block would take in the
/// statements that follow), and each parses without errors, gives the
/// statements of the first followed by those of the second, without errors;
/// so it also prints as the two printed forms one after the other.
#[verifier::spinoff_prover]
pub proof fn lemma_parsing_joined_texts(s1: Seq<char>, s2: Seq<char>)
    requires
        s1.len() > 0,
        s1.last() == ';',
        statements_close(tokenize(s1), at(0)),
        parse_text(s1).1.len() == 0,
        parse_text(s2).1.len() == 0,
    ensures
        parse_text(s1 + s2) == (parse_text(s1).0 + parse_text(s2).0, Seq::<Seq<char>>::empty()),
        parse_text(s1 + s2).0.len() == parse_text(s1).0.len() + parse_text(s2).0.len(),
        stmts_text(parse_text(s1 + s2).0) == stmts_text(parse_text(s1).0) + stmts_text(
            parse_text(s2).0,
        ),
{
    let t1 = tokenize(s1);
    let t2 = tokenize(s2);
    let m = t1.len() - 1;
    lemma_lex_all_ends_with_eof(s1, 0);
    lemma_lex_all_ends_with_eof(s2, 0);
    lemma_semicolon_ends_tokens(s1, 0);
    lemma_lexing_joined_texts(s1, s2);
    let big = tokenize(s1 + s2);
    assert(big == t1.drop_last() + t2);
    assert forall|i: int| 0 <= i < m implies #[trigger] big[0 + i] == t1[i] by {
        assert(big[i] == t1[i]);
    }
    assert forall|i: int| 0 <= i < t2.len() implies #[trigger] big[m + i] == t2[i] by {
        assert(big[m + i] == t2[i]);
    }
    let empty_acc = Seq::<StmtView>::empty();
    let (p1, f1) = parse_program_loop(t1, at(0), empty_acc);
    lemma_program_loop_prefix(t1, big, m, at(0), empty_acc);
    assert(f1.errors =~= Seq::<Seq<char>>::empty());
    assert(f1 == shift(at(0), m));
    lemma_program_loop_gathers(big, f1, p1);
    lemma_program_loop_shift(t2, big, m, at(0), empty_acc);
    let (p2, f2) = parse_program_loop(t2, at(0), empty_acc);
    assert(f2.errors =~= Seq::<Seq<char>>::empty());
    lemma_stmts_text_concat(p1, p2);
}

proof fn lemma_return_text_tokens(e: Seq<char>)
    ensures
        tokenize("return "@ + e) == seq![(TokenType::Return, "return"@)] + tokenize(e),
{
    reveal_strlit("return ");
    reveal_strlit("return");
    reveal_strlit("let");
    reveal_strlit("fn");
    reveal_strlit("true");
    reveal_strlit("false");
    reveal_strlit("if");
    reveal_strlit("else");
    let w = "return"@;
    let r = seq![' '] + e;
    assert("return "@ + e =~= w + r);
    assert(keyword_type(w) == TokenType::Return);
    lemma_lex_ascii_word(w, r);
    lemma_lex_leading_whitespace(' ', e);
}

/// The value of a `return` statement is a whole expression, as that of an
/// expression statement is: where `e` parses without errors to the single
/// expression statement with value `value`, `return e` parses without
/// errors to the single `return` statement with that value.
#[verifier::spinoff_prover]
pub proof fn lemma_return_takes_whole_expression(
    e: Seq<char>,
    token: TokenView,
    value: Option<Box<ExprView>>,
)
    requires
        parse_text(e) == (
            seq![StmtView::Expr { token, expression: value }],
            Seq::<Seq<char>>::empty(),
        ),
    ensures
        parse_text("return "@ + e) == (
            seq![StmtView::Return { token: (TokenType::Return, "return"@), value }],
            Seq::<Seq<char>>::empty(),
        ),
{
    let te = tokenize(e);
    let rt = (TokenType::Return, "return"@);
    lemma_return_text_tokens(e);
    let big = tokenize("return "@ + e);
    lemma_lex_all_ends_with_eof(e, 0);
    let n = te.len() as int;
    let a0 = at(0);
    let y = StmtView::Expr { token, expression: value };
    assert forall|i: int| 0 <= i < n implies #[trigger] big[1 + i] == te[i] by {
        assert(big[1 + i] == te[i]);
    }
    assert(embedded(te, big, 1, n));
    lemma_one_statement_program(te, y);
    let (s, s1) = parse_statement(te, a0);
    let s2 = adv(te, s1);
    lemma_statement_forward(te, a0);
    assert(te[0].0 != TokenType::Let && te[0].0 != TokenType::Return);
    let pe = parse_expression(te, a0, lowest()).1;
    lemma_expression_forward(te, a0, lowest());
    lemma_expression_context(te, big, 1, n, a0, lowest());
    lemma_steps_agree(te, big, 1, n, pe);
    lemma_steps_agree(te, big, 1, n, s1);
    lemma_steps_agree(te, big, 1, n, s2);
    let ret = StmtView::Return { token: rt, value };
    assert(shift(a0, 1) == at(1));
    assert(big[0] == rt);
    assert(parse_statement(big, a0) == (Some(ret), shift(s1, 1)));
    lemma_program_loop_shift(te, big, 1, s2, seq![ret]);
    lemma_program_loop_gathers(te, s2, seq![ret]);
    let (rest, fin) = parse_program_loop(te, s2, Seq::<StmtView>::empty());
    assert(seq![ret] + rest == seq![ret]);
    assert(Seq::<StmtView>::empty().push(ret) == seq![ret]);
    assert(parse_program_loop(big, a0, Seq::empty()) == parse_program_loop(
        big,
        shift(s2, 1),
        seq![ret],
    ));
    assert(fin.errors =~= Seq::<Seq<char>>::empty());
}

} // verus!
