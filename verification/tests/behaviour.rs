use monkey::ast::Node;
use monkey::evaluator::{checked_eval, eval, ArithmeticError};
use monkey::lexer::Lexer;
use monkey::object::Object;
use monkey::parser::Parser;
use monkey::repl::{parser_errors_report, respond, Reply, MONKEY_FACE};
use monkey::token::{Token, TokenType};

fn lex_all_tokens(input: &str) -> Vec<(TokenType, String)> {
    let mut lexer = Lexer::new(input);
    let mut out = Vec::new();
    loop {
        let tok = lexer.next_token();
        let done = tok.token_type == TokenType::Eof;
        out.push((tok.token_type, tok.literal));
        if done {
            return out;
        }
    }
}

fn parse_source(input: &str) -> (String, Vec<String>) {
    let mut lexer = Lexer::new(input);
    let mut parser = Parser::new(&mut lexer);
    let program = parser.parse_program();
    (program.string(), parser.errors())
}

fn run_checked(input: &str) -> Result<Option<Object>, ArithmeticError> {
    let mut lexer = Lexer::new(input);
    let mut parser = Parser::new(&mut lexer);
    let program = parser.parse_program();
    checked_eval(&program)
}

#[test]
fn eof_repeats_after_the_end() {
    let mut lexer = Lexer::new("x");
    assert_eq!(lexer.next_token().token_type, TokenType::Ident);
    for _ in 0..3 {
        let tok = lexer.next_token();
        assert_eq!(tok.token_type, TokenType::Eof);
        assert_eq!(tok.literal, "");
    }
}

#[test]
fn literals_are_the_source_text() {
    let tokens = lex_all_tokens("  foo==bar\t!= 12;\n");
    let literals: Vec<&str> = tokens.iter().map(|(_, l)| l.as_str()).collect();
    assert_eq!(literals, vec!["foo", "==", "bar", "!=", "12", ";", ""]);
}

#[test]
fn identifiers_stop_at_digits_and_accept_unicode_letters() {
    let tokens = lex_all_tokens("add1 héllo _x");
    assert_eq!(tokens[0], (TokenType::Ident, "add".to_string()));
    assert_eq!(tokens[1], (TokenType::Int, "1".to_string()));
    assert_eq!(tokens[2], (TokenType::Ident, "héllo".to_string()));
    assert_eq!(tokens[3], (TokenType::Ident, "_x".to_string()));
    assert_eq!(tokens[4].0, TokenType::Eof);
}

#[test]
fn unknown_characters_are_illegal() {
    let tokens = lex_all_tokens("@");
    assert_eq!(tokens[0], (TokenType::Illegal, "@".to_string()));
    let (_, errors) = parse_source("@");
    assert_eq!(errors, vec!["no prefix parse function for ILLEGAL found".to_string()]);
}

#[test]
fn empty_input_is_an_empty_program() {
    let tokens = lex_all_tokens(" \n\t ");
    assert_eq!(tokens, vec![(TokenType::Eof, String::new())]);
    let (text, errors) = parse_source("");
    assert_eq!(text, "");
    assert!(errors.is_empty());
    let mut lexer = Lexer::new("");
    let mut parser = Parser::new(&mut lexer);
    let program = parser.parse_program();
    assert_eq!(program.token_literal(), "");
    assert_eq!(eval(&program), None);
}

#[test]
fn keywords_and_kind_names() {
    assert_eq!(TokenType::lookup_ident("fn"), TokenType::Function);
    assert_eq!(TokenType::lookup_ident("return"), TokenType::Return);
    assert_eq!(TokenType::lookup_ident("lets"), TokenType::Ident);
    assert_eq!(TokenType::Eof.to_string(), "EOF");
    assert_eq!(TokenType::NotEq.to_string(), "!=");
    assert_eq!(TokenType::Function.to_string(), "FUNCTION");
    let tok = Token::new(TokenType::Int, "7".to_string());
    assert_eq!(tok.clone(), tok);
}

#[test]
fn stronger_operators_group_first() {
    assert_eq!(parse_source("a + b * c").0, "(a + (b * c))");
    assert_eq!(parse_source("a * b + c").0, "((a * b) + c)");
    assert_eq!(parse_source("a < b == c").0, "((a < b) == c)");
    assert_eq!(parse_source("a == b < c").0, "(a == (b < c))");
    assert_eq!(parse_source("a - b - c").0, "((a - b) - c)");
    assert_eq!(parse_source("!a == b").0, "((!a) == b)");
}

#[test]
fn parser_errors_accumulate() {
    let (_, errors) = parse_source("let = 10; let x 5; let 838383;");
    assert_eq!(
        errors,
        vec![
            "expected next token to be IDENT, got = instead".to_string(),
            "no prefix parse function for = found".to_string(),
            "expected next token to be =, got INT instead".to_string(),
            "expected next token to be IDENT, got INT instead".to_string(),
        ]
    );
}

#[test]
fn integer_literal_out_of_range() {
    let (_, errors) = parse_source("99999999999999999999");
    assert_eq!(errors, vec!["could not parse 99999999999999999999".to_string()]);
    let (text, errors) = parse_source("9223372036854775807");
    assert_eq!(text, "9223372036854775807");
    assert!(errors.is_empty());
}

#[test]
fn printed_forms_of_nodes() {
    assert_eq!(parse_source("fn(x, y) { x + y; }").0, "fn(x, y) (x + y)");
    assert_eq!(parse_source("if (x < y) { x } else { y }").0, "if(x < y) xelse y");
    assert_eq!(parse_source("return -5;").0, "return (-5)");
    assert_eq!(parse_source("let a = b").0, "let a = b;");
    assert_eq!(parse_source("add(1, f(2))").0, "add(1, f(2))");
}

#[test]
fn double_negation_is_truthiness() {
    assert_eq!(run_checked("!!0"), Ok(Some(Object::Boolean(true))));
    assert_eq!(run_checked("!!false"), Ok(Some(Object::Boolean(false))));
    assert_eq!(run_checked("!!if (false) { 1 }"), Ok(Some(Object::Boolean(false))));
}

#[test]
fn return_ends_the_program() {
    assert_eq!(run_checked("return 1; 2 / 0;"), Ok(Some(Object::Integer(1))));
    assert_eq!(run_checked("1 / 0; return 1;"), Err(ArithmeticError::DivideByZero));
}

#[test]
fn each_arithmetic_fault() {
    assert_eq!(run_checked("9223372036854775807 + 1"), Err(ArithmeticError::AddOverflow));
    assert_eq!(run_checked("-9223372036854775807 - 2"), Err(ArithmeticError::SubtractOverflow));
    assert_eq!(run_checked("9223372036854775807 * 2"), Err(ArithmeticError::MultiplyOverflow));
    assert_eq!(run_checked("5 / 0"), Err(ArithmeticError::DivideByZero));
    assert_eq!(
        run_checked("(-9223372036854775807 - 1) / -1"),
        Err(ArithmeticError::DivideOverflow)
    );
    assert_eq!(
        run_checked("-(-9223372036854775807 - 1)"),
        Err(ArithmeticError::NegateOverflow)
    );
    assert_eq!(ArithmeticError::AddOverflow.message(), "attempt to add with overflow");
    assert_eq!(ArithmeticError::DivideByZero.message(), "attempt to divide by zero");
}

#[test]
fn division_rounds_toward_zero() {
    assert_eq!(run_checked("-7 / 2"), Ok(Some(Object::Integer(-3))));
    assert_eq!(run_checked("7 / -2"), Ok(Some(Object::Integer(-3))));
    assert_eq!(run_checked("-7 / -2"), Ok(Some(Object::Integer(3))));
}

#[test]
fn values_without_a_result() {
    assert_eq!(run_checked("let x = 5;"), Ok(None));
    assert_eq!(run_checked("x"), Ok(None));
    assert_eq!(run_checked("fn(x) { x }"), Ok(None));
    assert_eq!(run_checked("1 + true"), Ok(Some(Object::Null)));
    assert_eq!(run_checked("true == 1"), Ok(Some(Object::Boolean(false))));
}

#[test]
fn inspect_prints_values() {
    assert_eq!(Object::Integer(-5).inspect(), "-5");
    assert_eq!(Object::Integer(i64::MIN).inspect(), "-9223372036854775808");
    assert_eq!(Object::Boolean(true).inspect(), "true");
    assert_eq!(Object::Null.inspect(), "null");
    assert_eq!(Object::Return(Box::new(Object::Integer(3))).inspect(), "3");
}

#[test]
fn replies_to_lines() {
    assert!(matches!(respond("exit\n"), Reply::Exit));
    assert!(matches!(respond("  exit\u{3000}"), Reply::Exit));
    match respond("5 + 5\n") {
        Reply::Print(text) => assert_eq!(text, "10\n"),
        _ => panic!("expected a value"),
    }
    assert!(matches!(respond("let x = 5;\n"), Reply::Quiet));
    assert!(matches!(respond("1 / 0\n"), Reply::Fault(ArithmeticError::DivideByZero)));
    match respond("let = 1;\n") {
        Reply::Print(text) => {
            assert!(text.starts_with(MONKEY_FACE));
            assert!(text.ends_with(
                "Woops! We ran into some monkey business here!\n parser errors:\n\texpected next token to be IDENT, got = instead\n\tno prefix parse function for = found\n"
            ));
        }
        _ => panic!("expected an error report"),
    }
}

#[test]
fn error_report_lists_each_message() {
    let report = parser_errors_report(&vec!["a".to_string(), "b".to_string()]);
    let expected = format!(
        "{MONKEY_FACE}Woops! We ran into some monkey business here!\n parser errors:\n\ta\n\tb\n"
    );
    assert_eq!(report, expected);
}

#[test]
fn cloned_nodes_print_the_same() {
    let mut lexer = Lexer::new("let f = fn(a, b) { if (a < b) { return a; } else { b } }; f(1, -2)");
    let mut parser = Parser::new(&mut lexer);
    let program = parser.parse_program();
    assert!(parser.errors().is_empty());
    for statement in &program.statements {
        assert_eq!(statement.clone().string(), statement.string());
        assert_eq!(statement.clone().token_literal(), statement.token_literal());
    }
}

#[test]
fn nested_return_is_unwrapped_once() {
    assert_eq!(
        run_checked("return if (true) { return 1; };"),
        Ok(Some(Object::Return(Box::new(Object::Integer(1)))))
    );
}

#[test]
fn parser_stops_at_the_end_of_input() {
    let mut lexer = Lexer::new("1; 2");
    let mut parser = Parser::new(&mut lexer);
    let program = parser.parse_program();
    assert_eq!(program.statements.len(), 2);
    parser.next_token();
    let again = parser.parse_program();
    assert_eq!(again.statements.len(), 0);
}

#[test]
fn parser_new_takes_two_tokens_from_the_lexer() {
    let mut lexer = Lexer::new("let x = 5;");
    {
        let parser = Parser::new(&mut lexer);
        assert!(parser.errors().is_empty());
    }
    let next = lexer.next_token();
    assert_eq!(next.token_type, TokenType::Assign);
    assert_eq!(next.literal, "=");
}

#[test]
fn parser_next_token_takes_one_more_token() {
    let mut lexer = Lexer::new("let x = 5;");
    {
        let mut parser = Parser::new(&mut lexer);
        parser.next_token();
    }
    let next = lexer.next_token();
    assert_eq!(next.token_type, TokenType::Int);
    assert_eq!(next.literal, "5");
}

#[test]
fn parse_program_reads_the_lexer_to_its_end() {
    let mut lexer = Lexer::new("let x = 5;");
    {
        let mut parser = Parser::new(&mut lexer);
        let program = parser.parse_program();
        assert!(parser.errors().is_empty());
        assert_eq!(program.statements.len(), 1);
        assert_eq!(program.string(), "let x = 5;");
    }
    let next = lexer.next_token();
    assert_eq!(next.token_type, TokenType::Eof);
    assert_eq!(next.literal, "");
}

#[test]
fn literals_together_are_the_source_without_whitespace() {
    let source = "let five = 5;\n\tif (x!=10) { return add(x, y) }\r\n@ 007";
    let tokens = lex_all_tokens(source);
    let joined: String = tokens.iter().map(|(_, l)| l.as_str()).collect();
    let stripped: String = source
        .chars()
        .filter(|c| !matches!(c, ' ' | '\t' | '\n' | '\r'))
        .collect();
    assert_eq!(joined, stripped);
    assert_eq!(tokens.last().unwrap(), &(TokenType::Eof, String::new()));
}

#[test]
fn grouping_with_semicolons_and_literal_operands() {
    assert_eq!(parse_source("1 + 2 * 3;"), ("(1 + (2 * 3))".to_string(), vec![]));
    assert_eq!(parse_source("5 - 3 - 1;"), ("((5 - 3) - 1)".to_string(), vec![]));
    assert_eq!(parse_source("a / b * c;"), ("((a / b) * c)".to_string(), vec![]));
    assert_eq!(parse_source("true == x < 5;"), ("(true == (x < 5))".to_string(), vec![]));
    assert_eq!(parse_source("a != b > c;"), ("(a != (b > c))".to_string(), vec![]));
}

#[test]
fn bang_gives_the_negated_truth() {
    assert_eq!(run_checked("!false"), Ok(Some(Object::Boolean(true))));
    assert_eq!(run_checked("!if (false) { 1 }"), Ok(Some(Object::Boolean(true))));
    assert_eq!(run_checked("!5"), Ok(Some(Object::Boolean(false))));
    assert_eq!(run_checked("!true"), Ok(Some(Object::Boolean(false))));
}

#[test]
fn return_after_statements_ends_the_program() {
    assert_eq!(run_checked("let a = 1; 2; return 9 * 2; 100; 1 / 0;"), Ok(Some(Object::Integer(18))));
    assert_eq!(run_checked("return 9 * 2;"), Ok(Some(Object::Integer(18))));
}

#[test]
fn swapped_branches_under_negation_agree() {
    for (plain, swapped) in [
        ("if (1 < 2) { 10 } else { 20 }", "if (!(1 < 2)) { 20 } else { 10 }"),
        ("if (1 > 2) { 10 } else { 20 }", "if (!(1 > 2)) { 20 } else { 10 }"),
        ("if (0) { 10 } else { 20 }", "if (!(0)) { 20 } else { 10 }"),
    ] {
        assert_eq!(run_checked(plain), run_checked(swapped));
    }
    assert_eq!(run_checked("if (1 < 2) { 10 } else { 20 }"), Ok(Some(Object::Integer(10))));
    assert_eq!(run_checked("if (1 > 2) { 10 }"), Ok(Some(Object::Null)));
    assert_eq!(run_checked("if (false) { 10 }"), Ok(Some(Object::Null)));
}

#[test]
fn exit_is_trimmed_by_unicode_whitespace() {
    for code in 0u32..0x3100 {
        if let Some(c) = char::from_u32(code) {
            let line = format!("{}exit{}", c, c);
            let exits = matches!(respond(&line), Reply::Exit);
            assert_eq!(exits, c.is_whitespace(), "code point {:#x}", code);
        }
    }
    assert!(matches!(respond("\u{2003}exit\u{85}"), Reply::Exit));
    assert!(!matches!(respond("\u{200b}exit"), Reply::Exit));
}

#[test]
fn lexing_joined_statements() {
    let first = "let a = 1;";
    let second = "a==2;  b";
    let mut expected = lex_all_tokens(first);
    expected.pop();
    expected.extend(lex_all_tokens(second));
    assert_eq!(lex_all_tokens(&format!("{}{}", first, second)), expected);
}

#[test]
fn every_operator_pair_groups_by_rank() {
    let ops = [("==", 1), ("!=", 1), ("<", 2), (">", 2), ("+", 3), ("-", 3), ("*", 4), ("/", 4)];
    for (o1, r1) in ops {
        for (o2, r2) in ops {
            let (printed, errors) = parse_source(&format!("a {} b {} c;", o1, o2));
            assert!(errors.is_empty());
            let expected = if r1 >= r2 {
                format!("((a {} b) {} c)", o1, o2)
            } else {
                format!("(a {} (b {} c))", o1, o2)
            };
            assert_eq!(printed, expected);
        }
    }
}

#[test]
fn next_token_makes_the_peek_token_current() {
    let mut lexer = Lexer::new("x");
    let mut parser = Parser::new(&mut lexer);
    parser.next_token();
    parser.next_token();
    let program = parser.parse_program();
    assert_eq!(program.statements.len(), 0);
    assert!(parser.errors().is_empty());
}

#[test]
fn parsing_joined_statement_texts() {
    let first = "let a = 1; if (a) { a };";
    let second = " a + 2 * 3; return a;";
    let (p1, e1) = parse_source(first);
    let (p2, e2) = parse_source(second);
    let (joined, errors) = parse_source(&format!("{}{}", first, second));
    assert!(e1.is_empty() && e2.is_empty() && errors.is_empty());
    assert_eq!(joined, format!("{}{}", p1, p2));
    let count = |s: &str| {
        let mut lexer = Lexer::new(s);
        let mut parser = Parser::new(&mut lexer);
        parser.parse_program().statements.len()
    };
    assert_eq!(count(&format!("{}{}", first, second)), count(first) + count(second));
}

#[test]
fn an_open_block_takes_in_the_statements_after_it() {
    let mut lexer = Lexer::new("if (true) { 1;2;");
    let mut parser = Parser::new(&mut lexer);
    let program = parser.parse_program();
    assert!(parser.errors().is_empty());
    assert_eq!(program.statements.len(), 1);
}
