use monkey::ast::{Expression, InfixExpression, Node, Statement};
use monkey::lexer::Lexer;
use monkey::parser::Parser;

#[test]
fn test_let_statements() {
    let tests = [
        ("let x = 5;", "x", Expected::from(5)),
        ("let y = true;", "y", Expected::from(true)),
        ("let foobar = y;", "foobar", Expected::from("y")),
    ];

    for (input, expected_identifier, expected_value) in tests {
        let mut lexer = Lexer::new(input);
        let mut parser = Parser::new(&mut lexer);

        let program = parser.parse_program();
        check_parser_errors(&parser);

        assert_eq!(program.statements.len(), 1);

        let statement = &program.statements[0];
        test_let_statement(statement, expected_identifier);

        if let Statement::Let(let_statement) = statement {
            if let Some(expression) = &let_statement.value {
                test_literal_expression(expression, &expected_value);
            }
        } else {
            panic!("statement not let statement");
        }
    }
}

#[test]
fn test_return_statements() {
    let input = r"return 5;
return 10;
return 993322;";

    let mut lexer = Lexer::new(input);
    let mut parser = Parser::new(&mut lexer);

    let program = &parser.parse_program();
    check_parser_errors(&parser);

    assert_eq!(program.statements.len(), 3);

    for statement in &program.statements {
        let Statement::Return(return_stmt) = statement else {
            panic!("stmt not ReturnStatement");
        };
        assert_eq!(
            return_stmt.token_literal(),
            "return",
            "returnStmt.TokenLiteral not 'return' got {}",
            return_stmt.token_literal()
        );
    }
}

#[test]
fn test_identifier_expression() {
    let input = "foobar;";

    let mut lexer = Lexer::new(input);
    let mut parser = Parser::new(&mut lexer);
    let program = parser.parse_program();

    check_parser_errors(&parser);

    assert_eq!(program.statements.len(), 1);

    let Statement::Expression(statement) = &program.statements[0] else {
        panic!("program.statements[0] is not ExpressionStatement");
    };

    let Some(expression) = &statement.expression else {
        panic!("expression is None");
    };

    let Expression::Identifier(ident) = expression.as_ref() else {
        panic!("Expression is not Identifier");
    };

    let value = &ident.value;
    assert_eq!(value, "foobar", "ident value not foobar, got {value}");

    let token_literal = ident.token_literal();
    assert_eq!(
        token_literal, "foobar",
        "ident token_literal not foobar, got {token_literal}"
    );
}

#[test]
fn test_integer_literal_expression() {
    let input = "5;";

    let mut lexer = Lexer::new(input);
    let mut parser = Parser::new(&mut lexer);
    let program = (parser).parse_program();

    check_parser_errors(&parser);

    assert_eq!(program.statements.len(), 1);

    let Statement::Expression(statement) = &program.statements[0] else {
        panic!("program.statements[0] is not ExpressionStatement");
    };

    let Some(expression) = &statement.expression else {
        panic!("expression is None");
    };

    let Expression::IntegerLiteral(integer_literal) = expression.as_ref() else {
        panic!("Expression is not Integer literal");
    };

    let value = &integer_literal.value;
    assert_eq!(*value, 5, "literal value  not 5 got {value}");

    let token_literal = integer_literal.token_literal();
    assert_eq!(
        token_literal, "5",
        "token literal is not '5' got {token_literal}"
    );
}

#[test]
fn test_parsing_prefix_expressions() {
    let tests = [
        ("!5;", "!", Expected::from(5)),
        ("-15;", "-", Expected::from(15)),
        ("!true;", "!", Expected::from(true)),
        ("!false;", "!", Expected::from(false)),
    ];

    for (input, expected_operator, expected_value) in tests {
        let mut lexer = Lexer::new(input);
        let mut parser = Parser::new(&mut lexer);

        let program = parser.parse_program();
        check_parser_errors(&parser);

        assert_eq!(program.statements.len(), 1);

        let Statement::Expression(statement) = &program.statements[0] else {
            panic!("program.statements[0] is not ExpressionStatement");
        };

        let Some(expression) = &statement.expression else {
            panic!("expression is None");
        };

        let Expression::Prefix(expression) = expression.as_ref() else {
            panic!("Expression is not prefix expression");
        };

        let exp_operator = &expression.operator;
        assert_eq!(exp_operator, expected_operator);

        test_literal_expression(&expression.right, &expected_value);
    }
}

#[test]
fn test_parsing_infix_expressions() {
    let tests = [
        ("5 + 5;", Expected::from(5), "+", Expected::from(5)),
        ("5 - 5;", Expected::from(5), "-", Expected::from(5)),
        ("5 * 5;", Expected::from(5), "*", Expected::from(5)),
        ("5 / 5;", Expected::from(5), "/", Expected::from(5)),
        ("5 > 5;", Expected::from(5), ">", Expected::from(5)),
        ("5 < 5;", Expected::from(5), "<", Expected::from(5)),
        ("5 == 5;", Expected::from(5), "==", Expected::from(5)),
        ("5 != 5;", Expected::from(5), "!=", Expected::from(5)),
        (
            "true == true",
            Expected::from(true),
            "==",
            Expected::from(true),
        ),
    ];

    for (input, expected_left_value, expected_operator, expected_right_value) in &tests {
        let mut lexer = Lexer::new(input);
        let mut parser = Parser::new(&mut lexer);

        let program = parser.parse_program();
        check_parser_errors(&parser);

        assert_eq!(program.statements.len(), 1);

        let Statement::Expression(statement) = &program.statements[0] else {
            panic!("program.statements[0] is not ExpressionStatement");
        };

        let Some(expression) = &statement.expression else {
            panic!("expression is None");
        };

        let Expression::Infix(expression) = expression.as_ref() else {
            panic!("Expression is not infix expression");
        };

        test_infix_expression(
            expression,
            expected_left_value,
            expected_operator,
            expected_right_value,
        );
    }
}

#[test]
fn test_operator_precedence_parsing() {
    let tests = [
        ("true", "true"),
        ("false", "false"),
        ("3 > 5 == false", "((3 > 5) == false)"),
        ("3 < 5 == true", "((3 < 5) == true)"),
        ("-a * b", "((-a) * b)"),
        ("!-a", "(!(-a))"),
        ("a + b + c", "((a + b) + c)"),
        ("a + b - c", "((a + b) - c)"),
        ("a * b * c", "((a * b) * c)"),
        ("a * b / c", "((a * b) / c)"),
        ("a + b / c", "(a + (b / c))"),
        ("a + b * c + d / e - f", "(((a + (b * c)) + (d / e)) - f)"),
        ("3 + 4; -5 * 5", "(3 + 4)((-5) * 5)"),
        ("5 > 4 == 3 < 4", "((5 > 4) == (3 < 4))"),
        ("5 < 4 != 3 > 4", "((5 < 4) != (3 > 4))"),
        (
            "3 + 4 * 5 == 3 * 1 + 4 * 5",
            "((3 + (4 * 5)) == ((3 * 1) + (4 * 5)))",
        ),
        ("1 + (2 + 3) + 4", "((1 + (2 + 3)) + 4)"),
        ("(5 + 5) * 2", "((5 + 5) * 2)"),
        ("2 / (5 + 5)", "(2 / (5 + 5))"),
        ("-(5 + 5)", "(-(5 + 5))"),
        ("!(true == true)", "(!(true == true))"),
        ("a + add(b * c) + d", "((a + add((b * c))) + d)"),
        (
            "add(a, b, 1, 2 * 3, 4 + 5, add(6, 7 * 8))",
            "add(a, b, 1, (2 * 3), (4 + 5), add(6, (7 * 8)))",
        ),
        (
            "add(a + b + c * d / f + g)",
            "add((((a + b) + ((c * d) / f)) + g))",
        ),
    ];

    for (input, expected) in &tests {
        let mut lexer = Lexer::new(input);
        let mut parser = Parser::new(&mut lexer);

        let program = parser.parse_program();
        check_parser_errors(&parser);

        assert_eq!(program.string(), *expected);
    }
}

#[test]
fn test_boolean_expression() {
    let tests = [("true;", true), ("false;", false)];

    for (input, expected) in &tests {
        let mut lexer = Lexer::new(input);
        let mut parser = Parser::new(&mut lexer);

        let program = parser.parse_program();
        check_parser_errors(&parser);

        assert_eq!(
            program.statements.len(),
            1,
            "program does not have 1 statement"
        );

        let Statement::Expression(statement) = &program.statements[0] else {
            panic!("program.statements[0] is not ExpressionStatement");
        };

        let Some(expression) = &statement.expression else {
            panic!("expression is None");
        };

        let Expression::Boolean(expression) = expression.as_ref() else {
            panic!("Expression is not boolean expression");
        };

        assert_eq!(
            expression.value, *expected,
            "boolean value does not match expected"
        );
    }
}

#[test]
fn test_if_expression() {
    let input = "if (x < y) { x }";

    let mut lexer = Lexer::new(input);
    let mut parser = Parser::new(&mut lexer);
    let program = parser.parse_program();
    check_parser_errors(&parser);

    assert_eq!(
        program.statements.len(),
        1,
        "program does not have 1 statement"
    );

    let Statement::Expression(statement) = &program.statements[0] else {
        panic!("program.statements[0] is not ExpressionStatement");
    };

    let Some(expression) = &statement.expression else {
        panic!("expression is None");
    };

    let Expression::If(expression) = expression.as_ref() else {
        panic!("expression is not IfExpression");
    };

    let Expression::Infix(condition) = expression.condition.as_ref() else {
        panic!("condition is not InfixExpression");
    };

    test_infix_expression(condition, &Expected::from("x"), "<", &Expected::from("y"));

    let Statement::Block(block) = &expression.consequence else {
        panic!("consequence is not BlockStatement")
    };

    assert_eq!(
        block.statements.len(),
        1,
        "consequence is not 1 statements. got {}",
        block.statements.len()
    );

    let Statement::Expression(expr_stmt) = &block.statements[0] else {
        panic!("block[0] is not ExpressionStatement");
    };

    let Some(expr) = &expr_stmt.expression else {
        panic!("missing expression");
    };

    test_identifier(expr, "x");
}

#[test]
fn test_if_else_expression() {
    let input = "if (x < y) { x } else { y }";

    let mut lexer = Lexer::new(input);
    let mut parser = Parser::new(&mut lexer);
    let program = parser.parse_program();
    check_parser_errors(&parser);

    assert_eq!(
        program.statements.len(),
        1,
        "program does not have 1 statement"
    );

    let Statement::Expression(statement) = &program.statements[0] else {
        panic!("program.statements[0] is not ExpressionStatement");
    };

    let Some(expression) = &statement.expression else {
        panic!("expression is None");
    };

    let Expression::If(expression) = expression.as_ref() else {
        panic!("expression is not IfExpression");
    };

    let Expression::Infix(condition) = expression.condition.as_ref() else {
        panic!("condition is not InfixExpression");
    };

    test_infix_expression(condition, &Expected::from("x"), "<", &Expected::from("y"));

    let Statement::Block(block) = &expression.consequence else {
        panic!("consequence is not BlockStatement")
    };

    assert_eq!(
        block.statements.len(),
        1,
        "consequence is not 1 statements. got {}",
        block.statements.len()
    );

    let Statement::Expression(expr_stmt) = &block.statements[0] else {
        panic!("block[0] is not ExpressionStatement");
    };

    let Some(expr) = &expr_stmt.expression else {
        panic!("missing expression");
    };

    test_identifier(expr, "x");

    let Some(Statement::Block(block)) = &expression.alternative else {
        panic!("consequence is not BlockStatement")
    };

    assert_eq!(
        block.statements.len(),
        1,
        "consequence is not 1 statements. got {}",
        block.statements.len()
    );

    let Statement::Expression(expr_stmt) = &block.statements[0] else {
        panic!("block[0] is not ExpressionStatement");
    };

    let Some(expr) = &expr_stmt.expression else {
        panic!("missing expression");
    };

    test_identifier(expr, "y");
}

#[test]
fn test_function_literal_parsing() {
    let input = "fn(x, y) { x + y; }";

    let mut lexer = Lexer::new(input);
    let mut parser = Parser::new(&mut lexer);

    let program = parser.parse_program();
    check_parser_errors(&parser);

    assert_eq!(
        program.statements.len(),
        1,
        "program body does not contain 1 statements got={}",
        program.statements.len()
    );

    let Statement::Expression(statement) = &program.statements[0] else {
        panic!("program.statements[0] is not ExpressionStatement");
    };

    let Some(Expression::FunctionLiteral(function)) = &statement.expression.as_deref() else {
        panic!("statement.expression is not FunctionLiteral");
    };

    assert_eq!(
        function.parameters.len(),
        2,
        "function parameters wrong. want 2, got={}",
        function.parameters.len()
    );

    test_literal_expression(&function.parameters[0], &Expected::from("x"));
    test_literal_expression(&function.parameters[1], &Expected::from("y"));

    let Some(Statement::Block(block_statement)) = &function.body else {
        panic!("function.body not block statement");
    };
    assert_eq!(
        block_statement.statements.len(),
        1,
        "function.body.statements length not 1 got={}",
        block_statement.statements.len()
    );

    let Statement::Expression(expression_statement) = &block_statement.statements[0] else {
        panic!("function body stmt is not ExpressionStatement");
    };

    let Some(Expression::Infix(infix_expression)) = expression_statement.expression.as_deref()
    else {
        panic!("expression statement not infix expression");
    };

    test_infix_expression(
        infix_expression,
        &Expected::from("x"),
        "+",
        &Expected::from("y"),
    );
}

#[test]
fn test_function_parameter_parsing() {
    let tests = [
        ("fn() {};", Vec::new()),
        ("fn(x) {};", vec!["x"]),
        ("fn(x, y, z) {};", vec!["x", "y", "z"]),
    ];

    for (input, expected_params) in &tests {
        let mut lexer = Lexer::new(input);
        let mut parser = Parser::new(&mut lexer);
        let program = parser.parse_program();
        check_parser_errors(&parser);

        let Statement::Expression(expression_statement) = &program.statements[0] else {
            panic!("program.statements[0] is not ExpressionStatement");
        };

        let Some(Expression::FunctionLiteral(function)) =
            expression_statement.expression.as_deref()
        else {
            panic!("expression_statement.expression not FunctionLiteral");
        };

        assert_eq!(
            function.parameters.len(),
            expected_params.len(),
            "length parameters wrong. want {}, got={}",
            expected_params.len(),
            function.parameters.len()
        );

        for (i, ident) in expected_params.iter().enumerate() {
            test_literal_expression(&function.parameters[i], &Expected::from(*ident));
        }
    }
}

#[test]
fn test_call_expression_parsing() {
    let input = "add(1, 2 * 3, 4 + 5);";

    let mut lexer = Lexer::new(input);
    let mut parser = Parser::new(&mut lexer);
    let program = parser.parse_program();
    check_parser_errors(&parser);

    assert_eq!(
        program.statements.len(),
        1,
        "program.statements does not contain 1 statements, got={}",
        program.statements.len()
    );

    let Statement::Expression(statement) = &program.statements[0] else {
        panic!("stmt is not ExpressionStatement");
    };

    let Some(Expression::Call(call_expression)) = statement.expression.as_deref() else {
        panic!("statement.expression is not CallExpression")
    };

    test_identifier(&call_expression.function, "add");

    assert_eq!(
        call_expression.arguments.len(),
        3,
        "wrong length of arguments. got={}",
        call_expression.arguments.len()
    );

    test_literal_expression(&call_expression.arguments[0], &Expected::from(1));

    let Expression::Infix(infix) = &call_expression.arguments[1] else {
        panic!("call_expression.arguements[1] is not InfixExpression")
    };

    test_infix_expression(infix, &Expected::from(2), "*", &Expected::from(3));

    let Expression::Infix(infix) = &call_expression.arguments[2] else {
        panic!("call_expression.arguements[2] is not InfixExpression")
    };

    test_infix_expression(infix, &Expected::from(4), "+", &Expected::from(5));
}

fn test_let_statement(statement: &Statement, name: &str) {
    assert_eq!(
        statement.token_literal(),
        "let",
        "token_literal not 'let. got={}",
        statement.token_literal()
    );

    match statement {
        Statement::Let(let_stmt) => match &let_stmt.name.as_ref() {
            Expression::Identifier(ident) => {
                assert_eq!(
                    ident.value, name,
                    "let_stmt.name.value not '{}. got={}",
                    name, ident.value
                );

                assert_eq!(
                    let_stmt.name.token_literal(),
                    name,
                    "let_stmt.name not '{:#?}. got={:#?}",
                    name,
                    let_stmt.name
                );
            }
            _ => panic!("let_stmt.name is not Identifier"),
        },
        _ => panic!("statement is not Let"),
    }
}

fn test_infix_expression(
    infix_expression: &InfixExpression,
    left: &Expected,
    operator: &str,
    right: &Expected,
) {
    test_literal_expression(&infix_expression.left, left);

    assert_eq!(
        infix_expression.operator, operator,
        "expression operator is not {operator}, got {}",
        infix_expression.operator
    );

    test_literal_expression(&infix_expression.right, right);
}

fn test_literal_expression(expression: &Expression, expected: &Expected) {
    match expected {
        Expected::Int(v) => test_integer_literal(expression, *v),
        Expected::Str(v) => test_identifier(expression, v),
        Expected::Boolean(v) => test_boolean_literal(expression, *v),
    }
}

fn test_integer_literal(integer_literal: &Expression, value: i64) {
    match integer_literal {
        Expression::IntegerLiteral(integer) => {
            assert_eq!(
                integer.value, value,
                "integer.value not {value}, got {}",
                integer.value
            );

            assert_eq!(
                integer.token_literal(),
                value.to_string(),
                "integer.token_literal not {value}, got {}",
                integer.token_literal()
            );
        }
        _ => panic!("expression not Integer Literal"),
    }
}

fn test_identifier(expression: &Expression, value: &str) {
    match expression {
        Expression::Identifier(identifier) => {
            assert_eq!(
                identifier.value, value,
                "identifier value not {value}, got {}",
                identifier.value
            );

            assert_eq!(
                identifier.token_literal(),
                value,
                "identifier token literal not {value}, got {}",
                identifier.token_literal()
            );
        }
        _ => panic!("expression not Identifier"),
    }
}

fn test_boolean_literal(expression: &Expression, value: bool) {
    match expression {
        Expression::Boolean(boolean) => {
            assert_eq!(
                boolean.value, value,
                "boolean value not {value}, got {}",
                boolean.value
            );

            assert_eq!(
                boolean.token_literal(),
                value.to_string(),
                "identifier token literal not {value}, got {}",
                boolean.token_literal()
            );
        }
        _ => panic!("expression not Boolean"),
    }
}

fn check_parser_errors(parser: &Parser) {
    let errors = parser.errors();

    if errors.is_empty() {
        return;
    }

    println!("parser has {} errors", errors.len());
    for e in &errors {
        println!("parser error: {e}");
    }

    panic!()
}

pub enum Expected<'a> {
    Int(i64),
    Str(&'a str),
    Boolean(bool),
}

impl From<i64> for Expected<'_> {
    fn from(value: i64) -> Self {
        Expected::Int(value)
    }
}

impl<'a> From<&'a str> for Expected<'a> {
    fn from(value: &'a str) -> Self {
        Expected::Str(value)
    }
}

impl From<bool> for Expected<'_> {
    fn from(value: bool) -> Self {
        Expected::Boolean(value)
    }
}

