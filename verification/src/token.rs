//! Tokens produced by the lexer.

use vstd::prelude::*;

use crate::text::str_eq;

verus! {

/// The kind of a token.
#[derive(Debug, Clone, Copy, PartialEq, Eq, Hash, Structural)]
pub enum TokenType {
    Illegal,
    Eof,
    Ident,
    Int,
    Assign,
    Plus,
    Minus,
    Bang,
    Asterisk,
    Slash,
    Lt,
    Gt,
    Comma,
    SemiColon,
    LParen,
    RParen,
    LBrace,
    RBrace,
    Eq,
    NotEq,
    Function,
    Let,
    True,
    False,
    If,
    Else,
    Return,
}

/// A token: its kind and the source text it stands for.
#[derive(Debug, PartialEq, Eq)]
pub struct Token {
    pub token_type: TokenType,
    pub literal: String,
}

impl View for Token {
    type V = (TokenType, Seq<char>);

    open spec fn view(&self) -> (TokenType, Seq<char>) {
        (self.token_type, self.literal@)
    }
}

impl Clone for Token {
    fn clone(&self) -> (res: Self)
        ensures
            res == *self,
    {
        Token { token_type: self.token_type, literal: self.literal.clone() }
    }
}

impl Token {
    pub fn new(token_type: TokenType, literal: String) -> (res: Self)
        ensures
            res.token_type == token_type,
            res.literal == literal,
    {
        Token { token_type, literal }
    }
}

/// The keyword that a word of letters stands for, or `Ident` if it is none.
pub open spec fn keyword_type(word: Seq<char>) -> TokenType {
    if word == "let"@ {
        TokenType::Let
    } else if word == "fn"@ {
        TokenType::Function
    } else if word == "true"@ {
        TokenType::True
    } else if word == "false"@ {
        TokenType::False
    } else if word == "if"@ {
        TokenType::If
    } else if word == "else"@ {
        TokenType::Else
    } else if word == "return"@ {
        TokenType::Return
    } else {
        TokenType::Ident
    }
}

/// The name under which a token kind is printed in messages.
pub open spec fn kind_name(t: TokenType) -> Seq<char> {
    match t {
        TokenType::Eof => "EOF"@,
        TokenType::Ident => "IDENT"@,
        TokenType::Int => "INT"@,
        TokenType::Assign => "="@,
        TokenType::Plus => "+"@,
        TokenType::Minus => "-"@,
        TokenType::Bang => "!"@,
        TokenType::Asterisk => "*"@,
        TokenType::Slash => "/"@,
        TokenType::Lt => "<"@,
        TokenType::Gt => ">"@,
        TokenType::Comma => ","@,
        TokenType::SemiColon => ";"@,
        TokenType::LParen => "("@,
        TokenType::RParen => ")"@,
        TokenType::LBrace => "{"@,
        TokenType::RBrace => "}"@,
        TokenType::Eq => "=="@,
        TokenType::NotEq => "!="@,
        TokenType::Function => "FUNCTION"@,
        TokenType::Let => "LET"@,
        TokenType::True => "TRUE"@,
        TokenType::False => "FALSE"@,
        TokenType::If => "IF"@,
        TokenType::Else => "ELSE"@,
        TokenType::Return => "RETURN"@,
        TokenType::Illegal => "ILLEGAL"@,
    }
}

impl TokenType {
    /// The keyword kind of `value`, or `Ident` where `value` is no keyword.
    pub fn lookup_ident(value: &str) -> (res: Self)
        ensures
            res == keyword_type(value@),
    {
        if str_eq(value, "let") {
            TokenType::Let
        } else if str_eq(value, "fn") {
            TokenType::Function
        } else if str_eq(value, "true") {
            TokenType::True
        } else if str_eq(value, "false") {
            TokenType::False
        } else if str_eq(value, "if") {
            TokenType::If
        } else if str_eq(value, "else") {
            TokenType::Else
        } else if str_eq(value, "return") {
            TokenType::Return
        } else {
            TokenType::Ident
        }
    }

    /// The printed name of this kind, as used in parser messages.
    pub fn to_string(&self) -> (res: String)
        ensures
            res@ == kind_name(*self),
    {
        let s = match self {
            TokenType::Eof => "EOF",
            TokenType::Ident => "IDENT",
            TokenType::Int => "INT",
            TokenType::Assign => "=",
            TokenType::Plus => "+",
            TokenType::Minus => "-",
            TokenType::Bang => "!",
            TokenType::Asterisk => "*",
            TokenType::Slash => "/",
            TokenType::Lt => "<",
            TokenType::Gt => ">",
            TokenType::Comma => ",",
            TokenType::SemiColon => ";",
            TokenType::LParen => "(",
            TokenType::RParen => ")",
            TokenType::LBrace => "{",
            TokenType::RBrace => "}",
            TokenType::Eq => "==",
            TokenType::NotEq => "!=",
            TokenType::Function => "FUNCTION",
            TokenType::Let => "LET",
            TokenType::True => "TRUE",
            TokenType::False => "FALSE",
            TokenType::If => "IF",
            TokenType::Else => "ELSE",
            TokenType::Return => "RETURN",
            TokenType::Illegal => "ILLEGAL",
        };
        s.to_string()
    }
}

} // verus!
