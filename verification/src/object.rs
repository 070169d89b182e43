//! The values that evaluation produces.

use vstd::prelude::*;

use crate::text::{i64_text, int_text, lemma_int_text_parses, parse_i64_spec};
use crate::token::{keyword_type, TokenType};

verus! {

/// A value of the language.
#[derive(PartialEq, Eq, Debug)]
pub enum Object {
    Integer(i64),
    Boolean(bool),
    /// A value on its way out of a `return`.
    Return(Box<Object>),
    Null,
}

/// How a value is printed.
pub open spec fn inspect_text(o: Object) -> Seq<char>
    decreases o,
{
    match o {
        Object::Integer(v) => int_text(v as int),
        Object::Boolean(b) => if b {
            "true"@
        } else {
            "false"@
        },
        Object::Return(inner) => inspect_text(*inner),
        Object::Null => "null"@,
    }
}

/// How values print: a boolean as the keyword that reads back as that
/// boolean (`true` or `false`, so the two differ), an integer as a numeral
/// that parses back to it, `null` as `null`, and a value on its way out of a
/// `return` as the value itself.
pub proof fn lemma_printed_values(b: bool, v: i64, inner: Object)
    ensures
        inspect_text(Object::Boolean(true)) == "true"@,
        inspect_text(Object::Boolean(false)) == "false"@,
        inspect_text(Object::Boolean(true)) != inspect_text(Object::Boolean(false)),
        keyword_type(inspect_text(Object::Boolean(b))) == if b {
            TokenType::True
        } else {
            TokenType::False
        },
        parse_i64_spec(inspect_text(Object::Integer(v))) == Some(v),
        inspect_text(Object::Null) == "null"@,
        inspect_text(Object::Return(Box::new(inner))) == inspect_text(inner),
{
    reveal_strlit("true");
    reveal_strlit("false");
    reveal_strlit("let");
    reveal_strlit("fn");
    reveal_strlit("if");
    reveal_strlit("else");
    reveal_strlit("return");
    assert("true"@.len() != "false"@.len());
    assert("true"@ != "let"@ && "true"@ != "fn"@) by {
        assert("true"@.len() != "let"@.len());
        assert("true"@.len() != "fn"@.len());
    }
    assert("false"@ != "let"@ && "false"@ != "fn"@ && "false"@ != "true"@);
    lemma_int_text_parses(v);
}

impl Object {
    /// The value printed as the interpreter shows it.
    pub fn inspect(&self) -> (res: String)
        ensures
            res@ == inspect_text(*self),
        decreases self,
    {
        match self {
            Object::Integer(value) => i64_text(*value),
            Object::Boolean(value) => if *value {
                "true".to_string()
            } else {
                "false".to_string()
            },
            Object::Return(object) => object.inspect(),
            Object::Null => "null".to_string(),
        }
    }
}

impl Clone for Object {
    fn clone(&self) -> (res: Self)
        ensures
            res == *self,
        decreases self,
    {
        match self {
            Object::Integer(v) => Object::Integer(*v),
            Object::Boolean(b) => Object::Boolean(*b),
            Object::Return(inner) => Object::Return(Box::new((**inner).clone())),
            Object::Null => Object::Null,
        }
    }
}

/// Whether two values are equal.
pub fn objects_equal(a: &Object, b: &Object) -> (res: bool)
    ensures
        res == (*a == *b),
    decreases a,
{
    match (a, b) {
        (Object::Integer(x), Object::Integer(y)) => *x == *y,
        (Object::Boolean(x), Object::Boolean(y)) => *x == *y,
        (Object::Return(x), Object::Return(y)) => objects_equal(x, y),
        (Object::Null, Object::Null) => true,
        _ => false,
    }
}

} // verus!
