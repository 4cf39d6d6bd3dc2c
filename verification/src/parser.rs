//! The parser: recursive descent over the token stream, building a tree of
//! syntax nodes and reporting unterminated or stray loop brackets.
//!
//! A `LoopEnd` token at top level, with no open loop, is treated as a fatal
//! syntax error (`ParseError::UnexpectedLoopClose`), not silently ignored.

use vstd::prelude::*;
use crate::lexer::{Commands, Token};
use crate::error::{ErrorCtx, ParseError};

verus! {

broadcast use vstd::std_specs::vec::group_vec_axioms, vstd::seq::axiom_seq_index_decreases;

/// One syntax node: either a primitive command or a bracket-delimited loop.
#[derive(Debug, PartialEq)]
pub enum AST {
    Command(CommandAST),
    Loop(LoopAST),
}

/// A primitive command node.
#[derive(Debug, PartialEq)]
pub struct CommandAST {
    pub command_type: Commands,
}

/// A loop node; its body may be empty.
#[derive(Debug, PartialEq)]
pub struct LoopAST {
    pub body: Vec<AST>,
}

/// Root node for the AST: the ordered top-level syntax nodes.
#[derive(Debug, PartialEq)]
pub struct Module {
    pub body: Vec<AST>,
}

/// The mathematical model of a syntax node: the same tree with sequences in
/// place of vectors. Contracts speak of this model.
#[verifier::ext_equal]
pub enum Node {
    Cmd(Commands),
    Loop(Seq<Node>),
}

/// The model of a node: a `Command` maps to `Cmd`, a `Loop` to `Loop` over
/// the models of its body.
pub open spec fn ast_view(a: AST) -> Node
    decreases a,
{
    match a {
        AST::Command(c) => Node::Cmd(c.command_type),
        AST::Loop(l) => Node::Loop(seq_view(l.body@)),
    }
}

/// The models of a node sequence, in order.
pub open spec fn seq_view(s: Seq<AST>) -> Seq<Node>
    decreases s,
{
    if s.len() == 0 {
        Seq::empty()
    } else {
        seq_view(s.drop_last()).push(ast_view(s.last()))
    }
}

impl View for AST {
    type V = Node;

    open spec fn view(&self) -> Node {
        ast_view(*self)
    }
}

impl View for LoopAST {
    type V = Seq<Node>;

    open spec fn view(&self) -> Seq<Node> {
        seq_view(self.body@)
    }
}

impl View for Module {
    type V = Seq<Node>;

    open spec fn view(&self) -> Seq<Node> {
        seq_view(self.body@)
    }
}

/// `seq_view` maps the sequence element by element.
pub proof fn lemma_seq_view_index(s: Seq<AST>)
    ensures
        seq_view(s).len() == s.len(),
        forall|i: int| 0 <= i < s.len() ==> #[trigger] seq_view(s)[i] == ast_view(s[i]),
    decreases s,
{
    if s.len() > 0 {
        lemma_seq_view_index(s.drop_last());
        assert forall|i: int| 0 <= i < s.len() implies #[trigger] seq_view(s)[i] == ast_view(
            s[i],
        ) by {
            if i < s.len() - 1 {
                assert(s.drop_last()[i] == s[i]);
                assert(seq_view(s)[i] == seq_view(s.drop_last())[i]);
            } else {
                assert(s.last() == s[i]);
            }
        }
    }
}

/// Appending one node appends its model.
pub proof fn lemma_seq_view_push(s: Seq<AST>, a: AST)
    ensures
        seq_view(s.push(a)) == seq_view(s).push(ast_view(a)),
{
    assert(s.push(a).drop_last() =~= s);
    assert(s.push(a).last() == a);
}

/// The six command kinds that may stand in a `Command` node; loop brackets
/// and `Unknown` never do.
pub open spec fn is_primitive(c: Commands) -> bool {
    match c {
        Commands::IncDp => true,
        Commands::DecDp => true,
        Commands::IncVal => true,
        Commands::DecVal => true,
        Commands::Output => true,
        Commands::Input => true,
        Commands::LoopEnter => false,
        Commands::LoopEnd => false,
        Commands::Unknown => false,
    }
}

/// Well-formedness of a node model: every `Cmd` kind in it is one of the
/// six primitives.
pub open spec fn node_wf(n: Node) -> bool
    decreases n,
{
    match n {
        Node::Cmd(c) => is_primitive(c),
        Node::Loop(b) => forall|i: int| 0 <= i < b.len() ==> node_wf(#[trigger] b[i]),
    }
}

/// Well-formedness of a model sequence, element by element.
pub open spec fn seq_wf(s: Seq<Node>) -> bool {
    forall|i: int| 0 <= i < s.len() ==> node_wf(#[trigger] s[i])
}

/// The command sequence a node stands for: a single primitive for a `Cmd`
/// node, and the body between `LoopEnter`/`LoopEnd` brackets for a `Loop`
/// node.
pub open spec fn unparse(n: Node) -> Seq<Commands>
    decreases n,
{
    match n {
        Node::Cmd(c) => seq![c],
        Node::Loop(b) => seq![Commands::LoopEnter] + unparse_seq(b) + seq![Commands::LoopEnd],
    }
}

/// The command sequence a model sequence stands for, in order.
pub open spec fn unparse_seq(s: Seq<Node>) -> Seq<Commands>
    decreases s,
{
    if s.len() == 0 {
        Seq::empty()
    } else {
        unparse_seq(s.drop_last()) + unparse(s.last())
    }
}

/// The command sequence carried by a token sequence.
pub open spec fn commands_of(ts: Seq<Token>) -> Seq<Commands> {
    ts.map_values(|t: Token| t.command)
}

/// Whether a command is one of the two loop brackets.
pub open spec fn is_bracket(c: Commands) -> bool {
    c == Commands::LoopEnter || c == Commands::LoopEnd
}

/// The bracket predicate as a function value, shared by `brackets_of` and
/// the lemmas about it.
pub open spec fn bracket_pred() -> spec_fn(Commands) -> bool {
    |c: Commands| is_bracket(c)
}

/// The bracket structure of a command sequence: the brackets alone, in
/// order. It determines the nesting-depth profile of the sequence.
pub open spec fn brackets_of(s: Seq<Commands>) -> Seq<Commands> {
    s.filter(bracket_pred())
}

/// How a command changes the loop-nesting depth.
pub open spec fn depth_delta(c: Commands) -> int {
    match c {
        Commands::LoopEnter => 1,
        Commands::LoopEnd => -1,
        _ => 0,
    }
}

/// The loop-nesting depth after a command sequence: the number of opened
/// minus the number of closed loops.
pub open spec fn depth(s: Seq<Commands>) -> int
    decreases s.len(),
{
    if s.len() == 0 {
        0
    } else {
        depth(s.drop_last()) + depth_delta(s.last())
    }
}

/// No prefix of the sequence closes more loops than it opened.
pub open spec fn prefixes_nonneg(s: Seq<Commands>) -> bool {
    forall|i: int| 0 <= i <= s.len() ==> depth(#[trigger] s.subrange(0, i)) >= 0
}

/// Balanced brackets: no prefix closes more loops than it opened, and at the
/// end every opened loop is closed again.
pub open spec fn balanced(s: Seq<Commands>) -> bool {
    &&& depth(s) == 0
    &&& prefixes_nonneg(s)
}

/// Index `i` holds a stray `LoopEnd`: the first close bracket with no open
/// loop to match it.
pub open spec fn stray_close_at(s: Seq<Commands>, i: int) -> bool {
    &&& 0 <= i < s.len()
    &&& s[i] == Commands::LoopEnd
    &&& depth(s.subrange(0, i)) == 0
    &&& forall|j: int| 0 <= j <= i ==> depth(#[trigger] s.subrange(0, j)) >= 0
}

/// Some close bracket in the sequence has no open loop to match it.
pub open spec fn has_stray_close(s: Seq<Commands>) -> bool {
    exists|i: int| stray_close_at(s, i)
}

/// At most one index holds the stray close bracket: the position a parse
/// error reports is pinned by `stray_close_at`.
pub proof fn lemma_stray_close_unique(s: Seq<Commands>, i: int, j: int)
    requires
        stray_close_at(s, i),
        stray_close_at(s, j),
    ensures
        i == j,
{
    if i < j {
        lemma_depth_step(s, i);
        assert(depth(s.subrange(0, i + 1)) < 0);
    }
    if j < i {
        lemma_depth_step(s, j);
        assert(depth(s.subrange(0, j + 1)) < 0);
    }
}

/// Extending a prefix by one command adds that command's depth change.
pub proof fn lemma_depth_step(s: Seq<Commands>, i: int)
    requires
        0 <= i < s.len(),
    ensures
        depth(s.subrange(0, i + 1)) == depth(s.subrange(0, i)) + depth_delta(s[i]),
{
    assert(s.subrange(0, i + 1).drop_last() =~= s.subrange(0, i));
    assert(s.subrange(0, i + 1).last() == s[i]);
}

/// The depth of a single command is its own depth change.
pub proof fn lemma_depth_single(c: Commands)
    ensures
        depth(seq![c]) == depth_delta(c),
{
    assert(depth(Seq::<Commands>::empty()) == 0);
    assert(seq![c].drop_last() =~= Seq::<Commands>::empty());
    assert(seq![c].last() == c);
}

/// Depth adds up over concatenation.
pub proof fn lemma_depth_additive(a: Seq<Commands>, b: Seq<Commands>)
    ensures
        depth(a + b) == depth(a) + depth(b),
    decreases b.len(),
{
    if b.len() == 0 {
        assert(a + b =~= a);
    } else {
        lemma_depth_additive(a, b.drop_last());
        assert((a + b).drop_last() =~= a + b.drop_last());
        assert((a + b).last() == b.last());
    }
}

/// Two balanced command sequences concatenate to a balanced one.
pub proof fn lemma_balanced_concat(a: Seq<Commands>, b: Seq<Commands>)
    requires
        balanced(a),
        balanced(b),
    ensures
        balanced(a + b),
{
    lemma_depth_additive(a, b);
    assert forall|i: int| 0 <= i <= (a + b).len() implies depth(
        #[trigger] (a + b).subrange(0, i),
    ) >= 0 by {
        if i <= a.len() {
            assert((a + b).subrange(0, i) =~= a.subrange(0, i));
        } else {
            assert((a + b).subrange(0, i) =~= a + b.subrange(0, i - a.len()));
            lemma_depth_additive(a, b.subrange(0, i - a.len()));
        }
    }
}

/// Appending one node to a sequence appends its commands to the unparse.
pub proof fn lemma_unparse_seq_push(s: Seq<Node>, n: Node)
    ensures
        unparse_seq(s.push(n)) == unparse_seq(s) + unparse(n),
{
    assert(s.push(n).drop_last() =~= s);
    assert(s.push(n).last() == n);
}

/// The command sequence of a well-formed node has balanced brackets.
pub proof fn lemma_unparse_balanced(n: Node)
    requires
        node_wf(n),
    ensures
        balanced(unparse(n)),
    decreases n,
{
    match n {
        Node::Cmd(c) => {
            let u = unparse(n);
            lemma_depth_single(c);
            assert(depth(u) == 0);
            assert forall|i: int| 0 <= i <= u.len() implies depth(
                #[trigger] u.subrange(0, i),
            ) >= 0 by {
                if i == 0 {
                    assert(u.subrange(0, 0) =~= Seq::<Commands>::empty());
                    assert(depth(Seq::<Commands>::empty()) == 0);
                } else {
                    assert(u.subrange(0, i) =~= u);
                }
            }
        },
        Node::Loop(b) => {
            lemma_unparse_seq_balanced(b);
            let e = seq![Commands::LoopEnter];
            let inner = unparse_seq(b);
            let c = seq![Commands::LoopEnd];
            lemma_depth_single(Commands::LoopEnter);
            lemma_depth_single(Commands::LoopEnd);
            assert(depth(e) == 1);
            assert(depth(c) == -1);
            lemma_depth_additive(e, inner);
            lemma_depth_additive(e + inner, c);
            assert(unparse(n) == e + inner + c);
            assert(depth(e + inner + c) == 0);
            assert forall|i: int| 0 <= i <= (e + inner + c).len() implies depth(
                #[trigger] (e + inner + c).subrange(0, i),
            ) >= 0 by {
                if i == 0 {
                    assert((e + inner + c).subrange(0, i) =~= Seq::<Commands>::empty());
                    assert(depth(Seq::<Commands>::empty()) == 0);
                } else if i <= 1 + inner.len() {
                    assert((e + inner + c).subrange(0, i) =~= e + inner.subrange(0, i - 1));
                    lemma_depth_additive(e, inner.subrange(0, i - 1));
                    assert(depth(inner.subrange(0, i - 1)) >= 0);
                } else {
                    assert((e + inner + c).subrange(0, i) =~= e + inner + c);
                }
            }
        },
    }
}

/// The command sequence of a well-formed node sequence has balanced
/// brackets.
pub proof fn lemma_unparse_seq_balanced(s: Seq<Node>)
    requires
        seq_wf(s),
    ensures
        balanced(unparse_seq(s)),
    decreases s,
{
    if s.len() == 0 {
        assert forall|i: int| 0 <= i <= unparse_seq(s).len() implies depth(
            #[trigger] unparse_seq(s).subrange(0, i),
        ) >= 0 by {
            assert(unparse_seq(s).subrange(0, i) =~= Seq::<Commands>::empty());
            assert(depth(Seq::<Commands>::empty()) == 0);
        }
    } else {
        assert(seq_wf(s.drop_last())) by {
            assert(forall|i: int| 0 <= i < s.drop_last().len() ==> s.drop_last()[i] == s[i]);
        }
        lemma_unparse_seq_balanced(s.drop_last());
        assert(node_wf(s.last()));
        lemma_unparse_balanced(s.last());
        lemma_balanced_concat(unparse_seq(s.drop_last()), unparse(s.last()));
    }
}

/// A sequence whose prefixes never go negative has no stray close bracket.
pub proof fn lemma_nonneg_no_stray(s: Seq<Commands>)
    requires
        prefixes_nonneg(s),
    ensures
        !has_stray_close(s),
{
    if has_stray_close(s) {
        let i = choose|i: int| stray_close_at(s, i);
        lemma_depth_step(s, i);
        assert(depth(s.subrange(0, i + 1)) < 0);
    }
}

/// Recursive-descent parser over a single forward cursor into the token
/// sequence.
pub struct Parser {
    lexical_tokens: Vec<Token>,
    current_pos: usize,
    error_ctx: ErrorCtx,
    module: Module,
}

impl Parser {
    /// The token sequence the parser consumes.
    pub closed spec fn tokens(&self) -> Seq<Token> {
        self.lexical_tokens@
    }

    /// The cursor: how many tokens have been consumed.
    pub closed spec fn cursor(&self) -> int {
        self.current_pos as int
    }

    /// The models of the top-level syntax nodes built so far.
    pub closed spec fn nodes(&self) -> Seq<Node> {
        self.module@
    }

    /// The source text held for diagnostics.
    pub closed spec fn ctx(&self) -> Seq<char> {
        self.error_ctx@
    }

    pub fn new(lexical_tokens: &Vec<Token>, error_ctx: ErrorCtx) -> (r: Self)
        ensures
            r.tokens() == lexical_tokens@,
            r.cursor() == 0,
            r.nodes() == Seq::<Node>::empty(),
            r.ctx() == error_ctx@,
    {
        let mut toks: Vec<Token> = Vec::new();
        let mut i: usize = 0;
        while i < lexical_tokens.len()
            invariant
                i <= lexical_tokens@.len(),
                toks@ == lexical_tokens@.subrange(0, i as int),
            decreases lexical_tokens@.len() - i,
        {
            toks.push(lexical_tokens[i]);
            i += 1;
            proof {
                assert(toks@ =~= lexical_tokens@.subrange(0, i as int));
            }
        }
        proof {
            assert(toks@ =~= lexical_tokens@);
        }
        Self {
            lexical_tokens: toks,
            current_pos: 0,
            error_ctx,
            module: Module { body: Vec::new() },
        }
    }

    /// Parse the whole token sequence into top-level syntax nodes.
    ///
    /// Succeeds exactly on balanced bracket structure; the module then
    /// unparses back to the commands of the token sequence. An unmatched
    /// `LoopEnter` is the unterminated-loop error, reported one past the
    /// last consumed token; an unmatched `LoopEnd` is the stray-close
    /// error, reported at the source offset that token carries.
    pub fn parse(&mut self) -> (r: Result<(), ParseError>)
        requires
            old(self).cursor() == 0,
            old(self).nodes() == Seq::<Node>::empty(),
            forall|i: int|
                0 <= i < old(self).tokens().len() ==> (#[trigger] old(self).tokens()[i]).command
                    != Commands::Unknown,
        ensures
            final(self).tokens() == old(self).tokens(),
            final(self).ctx() == old(self).ctx(),
            ({
                let cmds = commands_of(old(self).tokens());
                match r {
                    Ok(()) => {
                        &&& balanced(cmds)
                        &&& seq_wf(final(self).nodes())
                        &&& unparse_seq(final(self).nodes()) == cmds
                    },
                    Err(ParseError::UnexpectedLoopClose { position }) => {
                        &&& has_stray_close(cmds)
                        &&& exists|i: int|
                            stray_close_at(cmds, i) && position == old(self).tokens()[i].pos
                    },
                    Err(ParseError::UnterminatedLoop { position }) => {
                        &&& !has_stray_close(cmds)
                        &&& depth(cmds) != 0
                        &&& position == old(self).tokens().len()
                    },
                }
            }),
            r is Ok <==> balanced(commands_of(old(self).tokens())),
    {
        let ghost cmds = commands_of(old(self).tokens());
        while self.current_pos < self.lexical_tokens.len()
            invariant
                self.lexical_tokens@ == old(self).lexical_tokens@,
                self.error_ctx@ == old(self).error_ctx@,
                cmds == commands_of(self.lexical_tokens@),
                forall|i: int|
                    0 <= i < self.lexical_tokens@.len() ==> (
                    #[trigger] self.lexical_tokens@[i]).command != Commands::Unknown,
                self.current_pos <= self.lexical_tokens@.len(),
                seq_wf(self.module@),
                unparse_seq(self.module@) == cmds.subrange(0, self.current_pos as int),
                depth(cmds.subrange(0, self.current_pos as int)) == 0,
                forall|j: int|
                    0 <= j <= self.current_pos ==> depth(#[trigger] cmds.subrange(0, j)) >= 0,
            decreases self.lexical_tokens@.len() - self.current_pos,
        {
            let ghost p = self.current_pos as int;
            let token = self.lexical_tokens[self.current_pos];
            proof {
                assert(cmds[p] == token.command);
            }
            match token.command {
                Commands::LoopEnter => {
                    self.advance();
                    let ghost start = self.current_pos as int;
                    match self.parse_loop() {
                        Ok(loop_ast) => {
                            let ghost q = self.current_pos as int;
                            let ghost body = loop_ast@;
                            proof {
                                lemma_seq_view_push(self.module.body@, AST::Loop(loop_ast));
                                lemma_unparse_seq_push(self.module@, Node::Loop(body));
                            }
                            self.module.body.push(AST::Loop(loop_ast));
                            self.advance();
                            proof {
                                lemma_unparse_seq_balanced(body);
                                let e = seq![Commands::LoopEnter];
                                let inner = unparse_seq(body);
                                let c = seq![Commands::LoopEnd];
                                lemma_depth_single(Commands::LoopEnter);
                                lemma_depth_single(Commands::LoopEnd);
                                lemma_depth_additive(cmds.subrange(0, p), e);
                                lemma_depth_additive(cmds.subrange(0, p) + e, inner);
                                lemma_depth_additive(cmds.subrange(0, p) + e + inner, c);
                                assert(cmds.subrange(0, q + 1) =~= cmds.subrange(0, p) + e
                                    + inner + c) by {
                                    assert(inner =~= cmds.subrange(start, q));
                                    assert(cmds[p] == Commands::LoopEnter);
                                    assert(cmds[q] == Commands::LoopEnd);
                                }
                                assert(unparse_seq(self.module@) == cmds.subrange(
                                    0,
                                    self.current_pos as int,
                                ));
                                assert(depth(cmds.subrange(0, q + 1)) == 0);
                                assert forall|j: int| 0 <= j <= self.current_pos implies depth(
                                    #[trigger] cmds.subrange(0, j),
                                ) >= 0 by {
                                    if j > p {
                                        lemma_depth_additive(
                                            cmds.subrange(0, p) + e,
                                            cmds.subrange(p + 1, j),
                                        );
                                        assert(cmds.subrange(0, j) =~= cmds.subrange(0, p) + e
                                            + cmds.subrange(p + 1, j));
                                        if j <= q {
                                            assert(cmds.subrange(p + 1, j) =~= inner.subrange(
                                                0,
                                                j - (p + 1),
                                            ));
                                            assert(depth(inner.subrange(0, j - (p + 1))) >= 0);
                                        } else {
                                            assert(cmds.subrange(0, j) =~= cmds.subrange(
                                                0,
                                                q + 1,
                                            ));
                                        }
                                    }
                                }
                            }
                        },
                        Err(e) => {
                            proof {
                                let len = cmds.len() as int;
                                assert forall|j: int| 0 <= j <= len implies depth(
                                    #[trigger] cmds.subrange(0, j),
                                ) >= 0 by {
                                    if j > p {
                                        let e1 = seq![Commands::LoopEnter];
                                        lemma_depth_single(Commands::LoopEnter);
                                        lemma_depth_additive(cmds.subrange(0, p), e1);
                                        lemma_depth_additive(
                                            cmds.subrange(0, p) + e1,
                                            cmds.subrange(p + 1, j),
                                        );
                                        assert(cmds.subrange(0, j) =~= cmds.subrange(0, p) + e1
                                            + cmds.subrange(p + 1, j));
                                    }
                                }
                                lemma_nonneg_no_stray(cmds);
                                assert(cmds.subrange(0, len) =~= cmds);
                                let e1 = seq![Commands::LoopEnter];
                                lemma_depth_single(Commands::LoopEnter);
                                lemma_depth_additive(cmds.subrange(0, p), e1);
                                lemma_depth_additive(
                                    cmds.subrange(0, p) + e1,
                                    cmds.subrange(p + 1, len),
                                );
                                assert(cmds =~= cmds.subrange(0, p) + e1 + cmds.subrange(
                                    p + 1,
                                    len,
                                ));
                                assert(depth(cmds) >= 1);
                            }
                            return Err(e);
                        },
                    }
                },
                Commands::LoopEnd => {
                    proof {
                        assert(stray_close_at(cmds, p));
                        lemma_depth_step(cmds, p);
                        assert(depth(cmds.subrange(0, p + 1)) < 0);
                        assert(!balanced(cmds));
                    }
                    return Err(ParseError::UnexpectedLoopClose { position: token.pos });
                },
                _ => {
                    proof {
                        lemma_seq_view_push(
                            self.module.body@,
                            AST::Command(CommandAST { command_type: token.command }),
                        );
                        lemma_unparse_seq_push(self.module@, Node::Cmd(token.command));
                        lemma_depth_single(token.command);
                        lemma_depth_additive(cmds.subrange(0, p), seq![token.command]);
                        assert(cmds.subrange(0, p + 1) =~= cmds.subrange(0, p) + seq![
                            token.command,
                        ]);
                    }
                    self.module.body.push(
                        AST::Command(CommandAST { command_type: token.command }),
                    );
                    self.advance();
                },
            }
        }
        proof {
            assert(cmds.subrange(0, self.current_pos as int) =~= cmds);
        }
        Ok(())
    }

    /// Recursively parse one loop body; the cursor stands just past the
    /// opening bracket on entry and on the matching `LoopEnd` on success.
    fn parse_loop(&mut self) -> (r: Result<LoopAST, ParseError>)
        requires
            old(self).cursor() <= old(self).tokens().len(),
            forall|i: int|
                0 <= i < old(self).tokens().len() ==> (#[trigger] old(self).tokens()[i]).command
                    != Commands::Unknown,
        ensures
            final(self).tokens() == old(self).tokens(),
            final(self).ctx() == old(self).ctx(),
            final(self).nodes() == old(self).nodes(),
            old(self).cursor() <= final(self).cursor() <= final(self).tokens().len(),
            ({
                let cmds = commands_of(old(self).tokens());
                let start = old(self).cursor();
                match r {
                    Ok(l) => {
                        &&& seq_wf(l@)
                        &&& final(self).cursor() < old(self).tokens().len()
                        &&& cmds[final(self).cursor()] == Commands::LoopEnd
                        &&& unparse_seq(l@) == cmds.subrange(start, final(self).cursor())
                    },
                    Err(ParseError::UnterminatedLoop { position }) => {
                        &&& position == old(self).tokens().len()
                        &&& final(self).cursor() == old(self).tokens().len()
                        &&& forall|j: int|
                            start <= j <= cmds.len() ==> depth(
                                #[trigger] cmds.subrange(start, j),
                            ) >= 0
                    },
                    Err(ParseError::UnexpectedLoopClose { .. }) => false,
                }
            }),
        decreases self.tokens().len() - self.cursor(),
    {
        let ghost cmds = commands_of(old(self).tokens());
        let ghost start = self.current_pos as int;
        let mut loop_ast = LoopAST { body: Vec::new() };
        while self.current_pos < self.lexical_tokens.len()
            invariant
                self.lexical_tokens@ == old(self).lexical_tokens@,
                self.error_ctx@ == old(self).error_ctx@,
                self.module@ == old(self).module@,
                cmds == commands_of(self.lexical_tokens@),
                forall|i: int|
                    0 <= i < self.lexical_tokens@.len() ==> (
                    #[trigger] self.lexical_tokens@[i]).command != Commands::Unknown,
                start == old(self).cursor(),
                start <= self.current_pos <= self.lexical_tokens@.len(),
                seq_wf(loop_ast@),
                unparse_seq(loop_ast@) == cmds.subrange(start, self.current_pos as int),
            decreases self.lexical_tokens@.len() - self.current_pos,
        {
            let ghost p = self.current_pos as int;
            let token = self.lexical_tokens[self.current_pos];
            proof {
                assert(cmds[p] == token.command);
            }
            match token.command {
                Commands::LoopEnter => {
                    self.advance();
                    let ghost inner_start = self.current_pos as int;
                    match self.parse_loop() {
                        Ok(inner) => {
                            let ghost q = self.current_pos as int;
                            let ghost ibody = inner@;
                            proof {
                                lemma_seq_view_push(loop_ast.body@, AST::Loop(inner));
                                lemma_unparse_seq_push(loop_ast@, Node::Loop(ibody));
                            }
                            loop_ast.body.push(AST::Loop(inner));
                            self.advance();
                            proof {
                                let e = seq![Commands::LoopEnter];
                                let c = seq![Commands::LoopEnd];
                                let inner_cmds = unparse_seq(ibody);
                                assert(cmds.subrange(start, q + 1) =~= cmds.subrange(start, p)
                                    + e + inner_cmds + c) by {
                                    assert(inner_cmds =~= cmds.subrange(inner_start, q));
                                    assert(cmds[p] == Commands::LoopEnter);
                                    assert(cmds[q] == Commands::LoopEnd);
                                }
                                assert(unparse_seq(loop_ast@) == cmds.subrange(
                                    start,
                                    self.current_pos as int,
                                ));
                            }
                        },
                        Err(e) => {
                            proof {
                                let len = cmds.len() as int;
                                lemma_unparse_seq_balanced(loop_ast@);
                                assert forall|j: int| start <= j <= len implies depth(
                                    #[trigger] cmds.subrange(start, j),
                                ) >= 0 by {
                                    let pre = cmds.subrange(start, p);
                                    if j <= p {
                                        assert(cmds.subrange(start, j) =~= pre.subrange(
                                            0,
                                            j - start,
                                        ));
                                        assert(depth(pre.subrange(0, j - start)) >= 0);
                                    } else {
                                        let e1 = seq![Commands::LoopEnter];
                                        lemma_depth_single(Commands::LoopEnter);
                                        lemma_depth_additive(pre, e1);
                                        lemma_depth_additive(pre + e1, cmds.subrange(p + 1, j));
                                        assert(cmds.subrange(start, j) =~= pre + e1
                                            + cmds.subrange(p + 1, j));
                                        assert(depth(cmds.subrange(p + 1, j)) >= 0);
                                    }
                                }
                            }
                            return Err(e);
                        },
                    }
                },
                Commands::LoopEnd => {
                    return Ok(loop_ast);
                },
                _ => {
                    proof {
                        lemma_seq_view_push(
                            loop_ast.body@,
                            AST::Command(CommandAST { command_type: token.command }),
                        );
                        lemma_unparse_seq_push(loop_ast@, Node::Cmd(token.command));
                        assert(cmds.subrange(start, p + 1) =~= cmds.subrange(start, p) + seq![
                            token.command,
                        ]);
                    }
                    loop_ast.body.push(AST::Command(CommandAST { command_type: token.command }));
                    self.advance();
                },
            }
        }
        proof {
            let len = cmds.len() as int;
            lemma_unparse_seq_balanced(loop_ast@);
            assert forall|j: int| start <= j <= len implies depth(
                #[trigger] cmds.subrange(start, j),
            ) >= 0 by {
                let whole = cmds.subrange(start, len);
                assert(cmds.subrange(start, j) =~= whole.subrange(0, j - start));
                assert(depth(whole.subrange(0, j - start)) >= 0);
            }
        }
        Err(ParseError::UnterminatedLoop { position: self.current_pos })
    }

    fn advance(&mut self)
        requires
            old(self).current_pos < old(self).lexical_tokens@.len(),
        ensures
            final(self).lexical_tokens == old(self).lexical_tokens,
            final(self).error_ctx == old(self).error_ctx,
            final(self).module == old(self).module,
            final(self).current_pos == old(self).current_pos + 1,
    {
        // the cursor is below this length, so the increment cannot overflow
        let _len = self.lexical_tokens.len();
        self.current_pos += 1;
    }

    /// Hand out the parsed module as a fresh deep copy.
    pub fn get_module(&self) -> (m: Module)
        ensures
            m@ == self.nodes(),
    {
        let mut body: Vec<AST> = Vec::new();
        let mut i: usize = 0;
        while i < self.module.body.len()
            invariant
                i <= self.module.body@.len(),
                body@.len() == i,
                forall|j: int| 0 <= j < i ==> (#[trigger] body@[j])@ == self.module.body@[j]@,
            decreases self.module.body@.len() - i,
        {
            body.push(clone_ast(&self.module.body[i]));
            i += 1;
        }
        proof {
            lemma_seq_view_index(body@);
            lemma_seq_view_index(self.module.body@);
            assert(seq_view(body@) =~= seq_view(self.module.body@));
        }
        Module { body }
    }
}

/// A deep copy of a syntax node: the copy has the same model.
fn clone_ast(a: &AST) -> (r: AST)
    ensures
        r@ == a@,
    decreases a,
{
    match a {
        AST::Command(c) => AST::Command(CommandAST { command_type: c.command_type }),
        AST::Loop(l) => {
            let mut body: Vec<AST> = Vec::new();
            let mut i: usize = 0;
            while i < l.body.len()
                invariant
                    *a == AST::Loop(*l),
                    i <= l.body@.len(),
                    body@.len() == i,
                    forall|j: int| 0 <= j < i ==> (#[trigger] body@[j])@ == l.body@[j]@,
                decreases l.body@.len() - i,
            {
                proof {
                    assert(a->Loop_0 == *l);
                    assert(decreases_to!(*a => a->Loop_0.body@[i as int]));
                }
                body.push(clone_ast(&l.body[i]));
                i += 1;
            }
            proof {
                lemma_seq_view_index(body@);
                lemma_seq_view_index(l.body@);
                assert(seq_view(body@) =~= seq_view(l.body@));
            }
            AST::Loop(LoopAST { body })
        },
    }
}

} // verus!
