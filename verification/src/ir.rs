//! The intermediate representation: a flat instruction algebra of six
//! primitive kinds, a loop, and a single root wrapper (`Module`), together
//! with the lowering model from syntax nodes to instructions.

use vstd::prelude::*;
use crate::error::InternalError;
use crate::lexer::Commands;
use crate::parser::{ast_view, is_primitive, lemma_seq_view_index, node_wf, seq_wf, AST, Node};

verus! {

broadcast use vstd::std_specs::vec::group_vec_axioms, vstd::seq::axiom_seq_index_decreases;

/// One IR instruction. The `Module` variant may appear only once, at the
/// structural root of an IR value; any other occurrence is an
/// internal-consistency violation, never a user-input error.
#[derive(Debug, PartialEq)]
pub enum Instruction {
    DpInc,
    DpDec,
    ValInc,
    ValDec,
    Output,
    Input,
    LoopBody(Vec<Instruction>),
    /// The actual module: the root wrapper around the instructions.
    Module(Vec<Instruction>),
}

/// The mathematical model of an instruction: the same tree with sequences
/// in place of vectors. Contracts speak of this model.
#[verifier::ext_equal]
pub enum Instr {
    DpInc,
    DpDec,
    ValInc,
    ValDec,
    Output,
    Input,
    LoopBody(Seq<Instr>),
    Module(Seq<Instr>),
}

/// The model of an instruction.
pub open spec fn instr_view(ins: Instruction) -> Instr
    decreases ins,
{
    match ins {
        Instruction::DpInc => Instr::DpInc,
        Instruction::DpDec => Instr::DpDec,
        Instruction::ValInc => Instr::ValInc,
        Instruction::ValDec => Instr::ValDec,
        Instruction::Output => Instr::Output,
        Instruction::Input => Instr::Input,
        Instruction::LoopBody(body) => Instr::LoopBody(iseq_view(body@)),
        Instruction::Module(body) => Instr::Module(iseq_view(body@)),
    }
}

/// The models of an instruction sequence, in order.
pub open spec fn iseq_view(s: Seq<Instruction>) -> Seq<Instr>
    decreases s,
{
    if s.len() == 0 {
        Seq::empty()
    } else {
        iseq_view(s.drop_last()).push(instr_view(s.last()))
    }
}

impl View for Instruction {
    type V = Instr;

    open spec fn view(&self) -> Instr {
        instr_view(*self)
    }
}

/// `iseq_view` maps the sequence element by element.
pub proof fn lemma_iseq_view_index(s: Seq<Instruction>)
    ensures
        iseq_view(s).len() == s.len(),
        forall|i: int| 0 <= i < s.len() ==> #[trigger] iseq_view(s)[i] == instr_view(s[i]),
    decreases s,
{
    if s.len() > 0 {
        lemma_iseq_view_index(s.drop_last());
        assert forall|i: int| 0 <= i < s.len() implies #[trigger] iseq_view(s)[i] == instr_view(
            s[i],
        ) by {
            if i < s.len() - 1 {
                assert(s.drop_last()[i] == s[i]);
                assert(iseq_view(s)[i] == iseq_view(s.drop_last())[i]);
            } else {
                assert(s.last() == s[i]);
            }
        }
    }
}

/// Appending one instruction appends its model.
pub proof fn lemma_iseq_view_push(s: Seq<Instruction>, ins: Instruction)
    ensures
        iseq_view(s.push(ins)) == iseq_view(s).push(instr_view(ins)),
{
    assert(s.push(ins).drop_last() =~= s);
    assert(s.push(ins).last() == ins);
}

/// The one-to-one lowering table for the six primitive command kinds. Only
/// primitive kinds reach it in a well-formed tree.
pub open spec fn lower_cmd(c: Commands) -> Instr {
    match c {
        Commands::IncDp => Instr::DpInc,
        Commands::DecDp => Instr::DpDec,
        Commands::IncVal => Instr::ValInc,
        Commands::DecVal => Instr::ValDec,
        Commands::Output => Instr::Output,
        Commands::Input => Instr::Input,
        _ => vstd::pervasive::arbitrary(),
    }
}

/// The instruction a syntax node lowers to: the table entry for a command,
/// and a `LoopBody` over the lowered body for a loop.
pub open spec fn lower_node(n: Node) -> Instr
    decreases n,
{
    match n {
        Node::Cmd(c) => lower_cmd(c),
        Node::Loop(b) => Instr::LoopBody(lower_seq(b)),
    }
}

/// Element-wise lowering of a node sequence, in order.
pub open spec fn lower_seq(s: Seq<Node>) -> Seq<Instr>
    decreases s,
{
    if s.len() == 0 {
        Seq::empty()
    } else {
        lower_seq(s.drop_last()).push(lower_node(s.last()))
    }
}

/// `lower_seq` maps the sequence element by element.
pub proof fn lemma_lower_seq_index(s: Seq<Node>)
    ensures
        lower_seq(s).len() == s.len(),
        forall|i: int| 0 <= i < s.len() ==> #[trigger] lower_seq(s)[i] == lower_node(s[i]),
    decreases s,
{
    if s.len() > 0 {
        lemma_lower_seq_index(s.drop_last());
        assert forall|i: int| 0 <= i < s.len() implies #[trigger] lower_seq(s)[i] == lower_node(
            s[i],
        ) by {
            if i < s.len() - 1 {
                assert(s.drop_last()[i] == s[i]);
                assert(lower_seq(s)[i] == lower_seq(s.drop_last())[i]);
            } else {
                assert(s.last() == s[i]);
            }
        }
    }
}

/// Extending a prefix by one node extends the lowered prefix by its
/// instruction.
pub proof fn lemma_lower_seq_step(s: Seq<Node>, i: int)
    requires
        0 <= i < s.len(),
    ensures
        lower_seq(s.subrange(0, i + 1)) == lower_seq(s.subrange(0, i)).push(lower_node(s[i])),
{
    assert(s.subrange(0, i + 1).drop_last() =~= s.subrange(0, i));
    assert(s.subrange(0, i + 1).last() == s[i]);
}

/// The bracket structure of an instruction tree: one `LoopEnter`/`LoopEnd`
/// pair around each `LoopBody`, in traversal order. The root `Module`
/// wrapper adds no brackets.
pub open spec fn instr_brackets(ins: Instr) -> Seq<Commands>
    decreases ins,
{
    match ins {
        Instr::LoopBody(b) => seq![Commands::LoopEnter] + instr_brackets_seq(b)
            + seq![Commands::LoopEnd],
        Instr::Module(b) => instr_brackets_seq(b),
        _ => Seq::empty(),
    }
}

/// The bracket structure of an instruction sequence, in order.
pub open spec fn instr_brackets_seq(s: Seq<Instr>) -> Seq<Commands>
    decreases s,
{
    if s.len() == 0 {
        Seq::empty()
    } else {
        instr_brackets_seq(s.drop_last()) + instr_brackets(s.last())
    }
}

/// The bracket structure of a single command: kept if it is a bracket,
/// dropped otherwise.
pub proof fn lemma_brackets_single(c: Commands)
    ensures
        crate::parser::brackets_of(seq![c]) == if crate::parser::is_bracket(c) {
            seq![c]
        } else {
            Seq::<Commands>::empty()
        },
{
    reveal_with_fuel(Seq::<Commands>::filter, 2);
    assert(seq![c].drop_last() =~= Seq::<Commands>::empty());
    assert(seq![c].last() == c);
    if crate::parser::is_bracket(c) {
        assert(crate::parser::brackets_of(seq![c]) =~= seq![c]);
    } else {
        assert(crate::parser::brackets_of(seq![c]) =~= Seq::<Commands>::empty());
    }
}

/// Appending one instruction appends its brackets.
pub proof fn lemma_instr_brackets_seq_push(s: Seq<Instr>, ins: Instr)
    ensures
        instr_brackets_seq(s.push(ins)) == instr_brackets_seq(s) + instr_brackets(ins),
{
    assert(s.push(ins).drop_last() =~= s);
    assert(s.push(ins).last() == ins);
}

/// Lowering preserves the bracket structure of one well-formed node: the
/// instruction it lowers to brackets exactly the brackets of its commands.
pub proof fn lemma_lower_node_brackets(n: Node)
    requires
        node_wf(n),
    ensures
        instr_brackets(lower_node(n)) == crate::parser::brackets_of(crate::parser::unparse(n)),
    decreases n,
{
    match n {
        Node::Cmd(c) => {
            lemma_brackets_single(c);
            assert(instr_brackets(lower_cmd(c)) =~= Seq::<Commands>::empty());
        },
        Node::Loop(b) => {
            lemma_lower_seq_brackets(b);
            let e = seq![Commands::LoopEnter];
            let inner = crate::parser::unparse_seq(b);
            let c = seq![Commands::LoopEnd];
            Seq::<Commands>::filter_distributes_over_add(
                e + inner,
                c,
                crate::parser::bracket_pred(),
            );
            Seq::<Commands>::filter_distributes_over_add(
                e,
                inner,
                crate::parser::bracket_pred(),
            );
            lemma_brackets_single(Commands::LoopEnter);
            lemma_brackets_single(Commands::LoopEnd);
            assert(crate::parser::brackets_of(crate::parser::unparse(n)) == e
                + crate::parser::brackets_of(inner) + c);
        },
    }
}

/// Lowering preserves the bracket structure of a well-formed node
/// sequence — hence the lowered instruction tree has the same
/// nesting-depth profile as the bracket structure of the commands the
/// nodes were parsed from.
pub proof fn lemma_lower_seq_brackets(s: Seq<Node>)
    requires
        seq_wf(s),
    ensures
        instr_brackets_seq(lower_seq(s)) == crate::parser::brackets_of(
            crate::parser::unparse_seq(s),
        ),
    decreases s,
{
    if s.len() == 0 {
        reveal_with_fuel(Seq::<Commands>::filter, 1);
        assert(instr_brackets_seq(lower_seq(s)) =~= Seq::<Commands>::empty());
        assert(crate::parser::brackets_of(crate::parser::unparse_seq(s))
            =~= Seq::<Commands>::empty());
    } else {
        assert(seq_wf(s.drop_last())) by {
            assert(forall|i: int| 0 <= i < s.drop_last().len() ==> s.drop_last()[i] == s[i]);
        }
        lemma_lower_seq_brackets(s.drop_last());
        assert(node_wf(s.last()));
        lemma_lower_node_brackets(s.last());
        lemma_instr_brackets_seq_push(lower_seq(s.drop_last()), lower_node(s.last()));
        Seq::<Commands>::filter_distributes_over_add(
            crate::parser::unparse_seq(s.drop_last()),
            crate::parser::unparse(s.last()),
            crate::parser::bracket_pred(),
        );
    }
}

/// For every token sequence a module was parsed from, the lowered
/// instruction tree has the same bracket structure — hence the same
/// nesting-depth profile — as the token sequence itself. The premises are
/// exactly what `Parser::parse` ensures on success, and the conclusion
/// speaks of the IR that `codegen` builds from the parsed module.
pub proof fn lemma_pipeline_brackets(tokens: Seq<crate::lexer::Token>, nodes: Seq<Node>)
    requires
        seq_wf(nodes),
        crate::parser::unparse_seq(nodes) == crate::parser::commands_of(tokens),
    ensures
        instr_brackets(Instr::Module(lower_seq(nodes))) == crate::parser::brackets_of(
            crate::parser::commands_of(tokens),
        ),
{
    lemma_lower_seq_brackets(nodes);
}

/// This trait allows any arbitrary instruction-like node to get converted
/// to an IR instruction.
pub trait ToIRInstruction {
    /// Whether the node is well-formed, so that the conversion is defined.
    spec fn ir_wf(&self) -> bool;

    /// The instruction model the node converts to, when well-formed.
    spec fn ir_model(&self) -> Instr;

    /// Converts the node to an IR instruction; a command kind outside the
    /// six primitives is an internal-consistency violation.
    fn to_ir_instruction(&self) -> (r: Result<Instruction, InternalError>)
        ensures
            self.ir_wf() ==> (r matches Ok(ins) && ins@ == self.ir_model()),
            !self.ir_wf() ==> (r matches Err(e) && e == InternalError::InvalidCommandKind),
    ;
}

/// Convert one syntax node, recursively descending into loop bodies.
pub fn ast_to_instruction(a: &AST) -> (r: Result<Instruction, InternalError>)
    ensures
        node_wf(a@) ==> (r matches Ok(ins) && ins@ == lower_node(a@)),
        !node_wf(a@) ==> (r matches Err(e) && e == InternalError::InvalidCommandKind),
    decreases a,
{
    match a {
        AST::Command(c) => {
            match c.command_type {
                Commands::IncDp => Ok(Instruction::DpInc),
                Commands::DecDp => Ok(Instruction::DpDec),
                Commands::IncVal => Ok(Instruction::ValInc),
                Commands::DecVal => Ok(Instruction::ValDec),
                Commands::Output => Ok(Instruction::Output),
                Commands::Input => Ok(Instruction::Input),
                _ => Err(InternalError::InvalidCommandKind),
            }
        },
        AST::Loop(l) => {
            let mut body: Vec<Instruction> = Vec::new();
            let mut i: usize = 0;
            while i < l.body.len()
                invariant
                    *a == AST::Loop(*l),
                    i <= l.body@.len(),
                    body@.len() == i,
                    forall|j: int| 0 <= j < i ==> node_wf(ast_view(#[trigger] l.body@[j])),
                    forall|j: int|
                        0 <= j < i ==> (#[trigger] body@[j])@ == lower_node(
                            ast_view(l.body@[j]),
                        ),
                decreases l.body@.len() - i,
            {
                proof {
                    assert(a->Loop_0 == *l);
                    assert(decreases_to!(*a => a->Loop_0.body@[i as int]));
                }
                match ast_to_instruction(&l.body[i]) {
                    Ok(ins) => {
                        body.push(ins);
                    },
                    Err(e) => {
                        proof {
                            lemma_seq_view_index(l.body@);
                            assert(a@->Loop_0[i as int] == ast_view(l.body@[i as int]));
                            assert(!node_wf(a@));
                        }
                        return Err(e);
                    },
                }
                i += 1;
            }
            proof {
                lemma_seq_view_index(l.body@);
                lemma_lower_seq_index(a@->Loop_0);
                lemma_iseq_view_index(body@);
                assert(iseq_view(body@) =~= lower_seq(a@->Loop_0));
                assert(node_wf(a@));
            }
            Ok(Instruction::LoopBody(body))
        },
    }
}

impl ToIRInstruction for crate::parser::CommandAST {
    open spec fn ir_wf(&self) -> bool {
        is_primitive(self.command_type)
    }

    open spec fn ir_model(&self) -> Instr {
        lower_cmd(self.command_type)
    }

    fn to_ir_instruction(&self) -> (r: Result<Instruction, InternalError>) {
        match self.command_type {
            Commands::IncDp => Ok(Instruction::DpInc),
            Commands::DecDp => Ok(Instruction::DpDec),
            Commands::IncVal => Ok(Instruction::ValInc),
            Commands::DecVal => Ok(Instruction::ValDec),
            Commands::Output => Ok(Instruction::Output),
            Commands::Input => Ok(Instruction::Input),
            _ => Err(InternalError::InvalidCommandKind),
        }
    }
}

impl ToIRInstruction for crate::parser::LoopAST {
    open spec fn ir_wf(&self) -> bool {
        seq_wf(self@)
    }

    open spec fn ir_model(&self) -> Instr {
        Instr::LoopBody(lower_seq(self@))
    }

    fn to_ir_instruction(&self) -> (r: Result<Instruction, InternalError>) {
        let ghost models = self@;
        let mut loop_body: Vec<Instruction> = Vec::new();
        let mut i: usize = 0;
        proof {
            lemma_seq_view_index(self.body@);
        }
        while i < self.body.len()
            invariant
                models == crate::parser::seq_view(self.body@),
                models.len() == self.body@.len(),
                forall|j: int|
                    0 <= j < self.body@.len() ==> #[trigger] models[j] == ast_view(
                        self.body@[j],
                    ),
                i <= self.body@.len(),
                loop_body@.len() == i,
                forall|j: int| 0 <= j < i ==> node_wf(#[trigger] models[j]),
                forall|j: int|
                    0 <= j < i ==> (#[trigger] loop_body@[j])@ == lower_node(models[j]),
            decreases self.body@.len() - i,
        {
            match ast_to_instruction(&self.body[i]) {
                Ok(ins) => {
                    loop_body.push(ins);
                },
                Err(e) => {
                    proof {
                        assert(!node_wf(models[i as int]));
                    }
                    return Err(e);
                },
            }
            i += 1;
        }
        proof {
            lemma_lower_seq_index(models);
            lemma_iseq_view_index(loop_body@);
            assert(iseq_view(loop_body@) =~= lower_seq(models));
        }
        Ok(Instruction::LoopBody(loop_body))
    }
}

impl ToIRInstruction for AST {
    open spec fn ir_wf(&self) -> bool {
        node_wf(ast_view(*self))
    }

    open spec fn ir_model(&self) -> Instr {
        lower_node(ast_view(*self))
    }

    fn to_ir_instruction(&self) -> (r: Result<Instruction, InternalError>) {
        ast_to_instruction(self)
    }
}

/// Intermediate representation for the compiled program.
///
/// This struct is handed from the lowering pass to the code generator; its
/// root instruction must be the `Module` variant.
#[derive(Debug, PartialEq)]
pub struct IR {
    pub module: Instruction,
}

impl View for IR {
    type V = Instr;

    open spec fn view(&self) -> Instr {
        instr_view(self.module)
    }
}

impl IR {
    /// Creates an IR with an empty root module and returns it.
    pub fn new() -> (r: Self)
        ensures
            r@ == Instr::Module(Seq::<Instr>::empty()),
    {
        IR { module: Instruction::Module(Vec::new()) }
    }

    /// Append one instruction to the root module's body; an IR whose root
    /// is not a `Module` is an internal-consistency violation.
    pub fn insert_instruction(&mut self, instruction: Instruction) -> (r: Result<
        (),
        InternalError,
    >)
        ensures
            old(self)@ matches Instr::Module(b) ==> (r matches Ok(())
                && final(self)@ == Instr::Module(b.push(instruction@))),
            !(old(self)@ matches Instr::Module(..)) ==> (r matches Err(e)
                && e == InternalError::NoModuleAtRoot && final(self)@ == old(self)@),
    {
        let mut taken = Instruction::DpInc;
        core::mem::swap(&mut self.module, &mut taken);
        match taken {
            Instruction::Module(mut body) => {
                proof {
                    lemma_iseq_view_push(body@, instruction);
                }
                body.push(instruction);
                self.module = Instruction::Module(body);
                Ok(())
            },
            other => {
                self.module = other;
                Err(InternalError::NoModuleAtRoot)
            },
        }
    }
}

} // verus!
