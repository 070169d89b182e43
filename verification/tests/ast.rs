use monkey::ast::{Expression, Identifier, LetStatement, Node, Program, Statement};
use monkey::token::{Token, TokenType};

#[test]
fn test_string() {
    let program = Program {
        statements: vec![Statement::Let(LetStatement {
            token: Token::new(TokenType::Let, "let".into()),
            name: Box::from(Expression::Identifier(Identifier {
                token: Token::new(TokenType::Ident, "myVar".into()),
                value: "myVar".to_string(),
            })),
            value: Some(Box::from(Expression::Identifier(Identifier {
                token: Token::new(TokenType::Ident, "anotherVar".into()),
                value: "anotherVar".to_string(),
            }))),
        })],
    };

    assert_eq!(program.string(), "let myVar = anotherVar;");
}
