//! What the interactive loop answers to one line of input.

use vstd::prelude::*;
use vstd::string::StringExecFns;

use crate::evaluator::{checked_eval, program_value, ArithmeticError};
use crate::grammar::parse_tokens;
use crate::lexer::{tokenize, Lexer};
use crate::object::inspect_text;
use crate::parser::{messages_view, Parser};
use crate::text::{str_eq, trim, trim_spec};

verus! {

/// The prompt shown before each line is read.
pub const PROMPT: &'static str = ">> ";

/// The picture shown above parser errors.
pub const MONKEY_FACE: &'static str = r#"            __,__
   .--.  .-"     "-.  .--.
  / .. \/  .-. .-.  \/ .. \
 | |  '|  /   Y   \  |'  | |
 | \   \  \ 0 | 0 /  /   / |
  \ '- ,\.-"""""""-./, -' /
   ''-' /_   ^ ^   _\ '-''
       |  \._   _./  |
       \   \ '~' /   /
        '._ '-=-' _.'
           '-----'
"#;


/// The report of parser errors: the picture, a heading, then each message
/// on a line of its own after a tab.
pub open spec fn errors_report(messages: Seq<Seq<char>>) -> Seq<char> {
    MONKEY_FACE@ + "Woops! We ran into some monkey business here!\n"@ + " parser errors:\n"@
        + message_lines(messages)
}

pub open spec fn message_lines(messages: Seq<Seq<char>>) -> Seq<char>
    decreases messages.len(),
{
    if messages.len() == 0 {
        Seq::empty()
    } else {
        message_lines(messages.drop_last()) + "\t"@ + messages.last() + "\n"@
    }
}

/// The report of `errors` as the interactive loop prints it.
pub fn parser_errors_report(errors: &Vec<String>) -> (res: String)
    ensures
        res@ == errors_report(messages_view(errors@)),
{
    let mut out = String::from_str(MONKEY_FACE);
    out.append("Woops! We ran into some monkey business here!\n");
    out.append(" parser errors:\n");
    let mut i: usize = 0;
    while i < errors.len()
        invariant
            i <= errors@.len(),
            out@ == MONKEY_FACE@ + "Woops! We ran into some monkey business here!\n"@
                + " parser errors:\n"@ + message_lines(messages_view(errors@.take(i as int))),
        decreases errors@.len() - i,
    {
        out.append("\t");
        out.append(errors[i].as_str());
        out.append("\n");
        proof {
            let prev = messages_view(errors@.take(i as int));
            let next = messages_view(errors@.take(i + 1));
            assert(next.drop_last() == prev);
            assert(next.last() == errors@[i as int]@);
        }
        i = i + 1;
    }
    assert(errors@.take(i as int) == errors@);
    out
}

/// What the interactive loop does with a line.
pub enum Reply {
    /// Stop reading.
    Exit,
    /// Print this text.
    Print(String),
    /// Print nothing.
    Quiet,
    /// The evaluation stopped on an arithmetic fault.
    Fault(ArithmeticError),
}

/// The answer to `line`: `exit` (around whitespace) stops; a line that
/// parses with errors gets the error report; otherwise the value of the
/// program is printed on a line of its own, if it has one.
pub open spec fn reply_spec(line: Seq<char>) -> (bool, Option<Seq<char>>, Option<ArithmeticError>) {
    if trim_spec(line) == "exit"@ {
        (true, None, None)
    } else {
        let (program, errors) = parse_tokens(tokenize(line));
        if errors.len() > 0 {
            (false, Some(errors_report(errors)), None)
        } else {
            match program_value(program) {
                Err(e) => (false, None, Some(e)),
                Ok(Some(o)) => (false, Some(inspect_text(o) + "\n"@), None),
                Ok(None) => (false, None, None),
            }
        }
    }
}

/// Answers one line of input.
pub fn respond(line: &str) -> (res: Reply)
    ensures
        reply_spec(line@) == match res {
            Reply::Exit => (true, None, None),
            Reply::Print(s) => (false, Some(s@), None),
            Reply::Quiet => (false, None, None),
            Reply::Fault(e) => (false, None, Some(e)),
        },
{
    let trimmed = trim(line);
    let mut word = String::new();
    let mut i: usize = 0;
    while i < trimmed.len()
        invariant
            i <= trimmed@.len(),
            word@ == trimmed@.take(i as int),
        decreases trimmed@.len() - i,
    {
        word.push(trimmed[i]);
        assert(trimmed@.take(i + 1) == trimmed@.take(i as int).push(trimmed@[i as int]));
        i = i + 1;
    }
    assert(trimmed@.take(i as int) == trimmed@);
    if str_eq(word.as_str(), "exit") {
        return Reply::Exit;
    }
    let mut lex = Lexer::new(line);
    let mut parser = Parser::new(&mut lex);
    let program = parser.parse_program();
    let errors = parser.errors();
    if errors.len() > 0 {
        return Reply::Print(parser_errors_report(&errors));
    }
    match checked_eval(&program) {
        Err(e) => Reply::Fault(e),
        Ok(Some(obj)) => {
            let mut out = obj.inspect();
            out.append("\n");
            Reply::Print(out)
        },
        Ok(None) => Reply::Quiet,
    }
}

} // verus!
