//! Tokenization: classify each character of the source text and keep the
//! recognized ones, each tagged with its 1-based character offset.

use vstd::prelude::*;
use vstd::string::StrSliceExecFns;

verus! {

/// The kinds of tokens the language knows. `Unknown` stands for every other
/// character (comment text); the lexer drops it.
#[derive(PartialEq, Eq, Structural, Debug, Clone, Copy)]
pub enum Commands {
    IncDp,     // >
    DecDp,     // <
    IncVal,    // +
    DecVal,    // -
    Output,    // .
    Input,     // ,
    LoopEnter, // [
    LoopEnd,   // ]
    Unknown,   // e.g. comments
}

/// One lexical token: a command kind together with the 1-based offset of the
/// character it came from, counted in the untouched source.
#[derive(PartialEq, Eq, Structural, Debug, Clone, Copy)]
pub struct Token {
    pub command: Commands,
    pub pos: usize,
}

/// The classification table: which command a single character stands for.
pub open spec fn command_of(ch: char) -> Commands {
    if ch == '>' {
        Commands::IncDp
    } else if ch == '<' {
        Commands::DecDp
    } else if ch == '+' {
        Commands::IncVal
    } else if ch == '-' {
        Commands::DecVal
    } else if ch == '.' {
        Commands::Output
    } else if ch == ',' {
        Commands::Input
    } else if ch == '[' {
        Commands::LoopEnter
    } else if ch == ']' {
        Commands::LoopEnd
    } else {
        Commands::Unknown
    }
}

impl From<char> for Commands {
    fn from(ch: char) -> (r: Self) {
        if ch == '>' {
            Self::IncDp
        } else if ch == '<' {
            Self::DecDp
        } else if ch == '+' {
            Self::IncVal
        } else if ch == '-' {
            Self::DecVal
        } else if ch == '.' {
            Self::Output
        } else if ch == ',' {
            Self::Input
        } else if ch == '[' {
            Self::LoopEnter
        } else if ch == ']' {
            Self::LoopEnd
        } else {
            Self::Unknown
        }
    }
}

impl vstd::std_specs::convert::FromSpecImpl<char> for Commands {
    open spec fn obeys_from_spec() -> bool {
        true
    }

    open spec fn from_spec(ch: char) -> Commands {
        command_of(ch)
    }
}

/// The tokens of a character sequence: every character whose command is not
/// `Unknown`, in source order, carrying its 1-based offset.
pub open spec fn lex_spec(s: Seq<char>) -> Seq<Token>
    decreases s.len(),
{
    if s.len() == 0 {
        Seq::empty()
    } else {
        let rest = lex_spec(s.drop_last());
        let c = command_of(s.last());
        if c == Commands::Unknown {
            rest
        } else {
            rest.push(Token { command: c, pos: s.len() as usize })
        }
    }
}

/// No token of the lexer carries the `Unknown` kind: unrecognized
/// characters are dropped, not tagged.
pub proof fn lemma_lex_no_unknown(s: Seq<char>)
    ensures
        forall|i: int|
            0 <= i < lex_spec(s).len() ==> (#[trigger] lex_spec(s)[i]).command
                != Commands::Unknown,
    decreases s,
{
    if s.len() > 0 {
        lemma_lex_no_unknown(s.drop_last());
    }
}

/// Position fidelity: every retained token carries the 1-based offset of
/// its own character in the untouched source — the very character whose
/// classification it holds — and tokens keep source order.
pub proof fn lemma_lex_positions(s: Seq<char>)
    requires
        s.len() <= usize::MAX,
    ensures
        forall|i: int|
            0 <= i < lex_spec(s).len() ==> {
                let t = #[trigger] lex_spec(s)[i];
                &&& 1 <= t.pos <= s.len()
                &&& command_of(s[t.pos - 1]) == t.command
            },
        forall|i: int, j: int|
            0 <= i < j < lex_spec(s).len() ==> (#[trigger] lex_spec(s)[i]).pos < (
            #[trigger] lex_spec(s)[j]).pos,
    decreases s,
{
    if s.len() > 0 {
        lemma_lex_positions(s.drop_last());
        let rest = lex_spec(s.drop_last());
        assert(forall|i: int|
            0 <= i < s.drop_last().len() ==> #[trigger] s.drop_last()[i] == s[i]);
        assert forall|i: int| 0 <= i < lex_spec(s).len() implies {
            let t = #[trigger] lex_spec(s)[i];
            &&& 1 <= t.pos <= s.len()
            &&& command_of(s[t.pos - 1]) == t.command
        } by {
            let t = lex_spec(s)[i];
            if i < rest.len() {
                assert(t == rest[i]);
                assert(t.pos <= s.drop_last().len());
                assert(command_of(s.drop_last()[t.pos - 1]) == t.command);
            } else {
                assert(t == Token {
                    command: command_of(s.last()),
                    pos: s.len() as usize,
                });
                assert(s[t.pos - 1] == s.last());
            }
        }
    }
}

/// Lex source code and return its tokens, dropping every unrecognized
/// character while keeping the original 1-based character offsets.
pub fn lex(source: &str) -> (result: Vec<Token>)
    ensures
        result@ == lex_spec(source@),
{
    let n = source.unicode_len();
    let mut result: Vec<Token> = Vec::new();
    let mut idx: usize = 0;
    while idx < n
        invariant
            idx <= n,
            n == source@.len(),
            result@ == lex_spec(source@.subrange(0, idx as int)),
        decreases n - idx,
    {
        let ch = source.get_char(idx);
        let command = Commands::from(ch);
        idx += 1;
        match command {
            Commands::Unknown => {},
            _ => {
                result.push(Token { command, pos: idx });
            },
        }
        proof {
            let pre = source@.subrange(0, idx as int);
            assert(pre.drop_last() =~= source@.subrange(0, idx - 1));
            assert(pre.last() == source@[idx - 1]);
        }
    }
    proof {
        assert(source@.subrange(0, n as int) =~= source@);
    }
    result
}

} // verus!
