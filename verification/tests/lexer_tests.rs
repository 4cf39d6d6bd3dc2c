use mfbc::lexer::{lex, Commands, Token};

#[test]
fn test_incdp() {
    let token = Commands::from('>');
    assert_eq!(Commands::IncDp, token);
}

#[test]
fn test_decdp() {
    let token = Commands::from('<');
    assert_eq!(Commands::DecDp, token);
}

#[test]
fn test_incval() {
    let token = Commands::from('+');
    assert_eq!(Commands::IncVal, token);
}

#[test]
fn test_decval() {
    let token = Commands::from('-');
    assert_eq!(Commands::DecVal, token);
}

#[test]
fn test_output() {
    let token = Commands::from('.');
    assert_eq!(Commands::Output, token);
}

#[test]
fn test_input() {
    let token = Commands::from(',');
    assert_eq!(Commands::Input, token);
}

#[test]
fn test_loopenter() {
    let token = Commands::from('[');
    assert_eq!(Commands::LoopEnter, token);
}

#[test]
fn test_loopend() {
    let token = Commands::from(']');
    assert_eq!(Commands::LoopEnd, token);
}

#[test]
fn test_unknown() {
    let token = Commands::from('\u{1F4A9}');
    assert_eq!(Commands::Unknown, token);
}

#[test]
fn test_lexer() {
    assert_eq!(
        lex(">Hello! This should get ignored :)<+-.,[]\u{1F4A9}"),
        vec![
            Token {
                command: Commands::IncDp,
                pos: 1
            },
            Token {
                command: Commands::DecDp,
                pos: 35
            },
            Token {
                command: Commands::IncVal,
                pos: 36
            },
            Token {
                command: Commands::DecVal,
                pos: 37
            },
            Token {
                command: Commands::Output,
                pos: 38
            },
            Token {
                command: Commands::Input,
                pos: 39
            },
            Token {
                command: Commands::LoopEnter,
                pos: 40
            },
            Token {
                command: Commands::LoopEnd,
                pos: 41
            }
        ]
    )
}

#[test]
fn test_positions_kept_after_filtering() {
    // Filler characters are dropped, but the retained tokens carry their
    // original 1-based offsets in the untouched source.
    assert_eq!(
        lex(">  <"),
        vec![
            Token {
                command: Commands::IncDp,
                pos: 1
            },
            Token {
                command: Commands::DecDp,
                pos: 4
            },
        ]
    );
}

#[test]
fn test_lex_empty_source() {
    assert_eq!(lex(""), vec![]);
}
