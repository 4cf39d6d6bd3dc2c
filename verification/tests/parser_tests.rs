use mfbc::error::{ErrorCtx, ParseError};
use mfbc::lexer::{lex, Commands};
use mfbc::parser::{CommandAST, LoopAST, Module, Parser, AST};

#[test]
fn parser_test_1() {
    let lex_tokens = lex("><+-.,[]");
    let errctx = ErrorCtx::new("><+-.,[]");
    let mut parser = Parser::new(&lex_tokens, errctx);
    parser.parse().unwrap();

    let result = parser.get_module();
    let expected = Module {
        body: vec![
            AST::Command(CommandAST {
                command_type: Commands::IncDp,
            }),
            AST::Command(CommandAST {
                command_type: Commands::DecDp,
            }),
            AST::Command(CommandAST {
                command_type: Commands::IncVal,
            }),
            AST::Command(CommandAST {
                command_type: Commands::DecVal,
            }),
            AST::Command(CommandAST {
                command_type: Commands::Output,
            }),
            AST::Command(CommandAST {
                command_type: Commands::Input,
            }),
            AST::Loop(LoopAST { body: vec![] }),
        ],
    };
    assert_eq!(result, expected);
}

#[test]
fn test_nested_loops() {
    // "[[]]" yields exactly one top-level Loop whose body is a single Loop
    // with an empty body.
    let lex_tokens = lex("[[]]");
    let errctx = ErrorCtx::new("[[]]");
    let mut parser = Parser::new(&lex_tokens, errctx);
    parser.parse().unwrap();

    let result = parser.get_module();
    let expected = Module {
        body: vec![AST::Loop(LoopAST {
            body: vec![AST::Loop(LoopAST { body: vec![] })],
        })],
    };
    assert_eq!(result, expected);
}

#[test]
fn test_unterminated_loop() {
    // "[+" fails with the unterminated-loop error, reported one past the
    // last consumed token.
    let lex_tokens = lex("[+");
    let errctx = ErrorCtx::new("[+");
    let mut parser = Parser::new(&lex_tokens, errctx);
    let result = parser.parse();
    assert_eq!(result, Err(ParseError::UnterminatedLoop { position: 2 }));
}

#[test]
fn test_unterminated_nested_loop() {
    let lex_tokens = lex("+[[-]");
    let errctx = ErrorCtx::new("+[[-]");
    let mut parser = Parser::new(&lex_tokens, errctx);
    let result = parser.parse();
    assert_eq!(result, Err(ParseError::UnterminatedLoop { position: 5 }));
}

#[test]
fn test_stray_loop_close() {
    // A LoopEnd with no open loop is a fatal syntax error, reported at the
    // source offset the stray token carries.
    let lex_tokens = lex("+ ]");
    let errctx = ErrorCtx::new("+ ]");
    let mut parser = Parser::new(&lex_tokens, errctx);
    let result = parser.parse();
    assert_eq!(result, Err(ParseError::UnexpectedLoopClose { position: 3 }));
}

#[test]
fn test_empty_input_parses_to_empty_module() {
    let lex_tokens = lex("");
    let errctx = ErrorCtx::new("");
    let mut parser = Parser::new(&lex_tokens, errctx);
    parser.parse().unwrap();
    assert_eq!(parser.get_module(), Module { body: vec![] });
}
