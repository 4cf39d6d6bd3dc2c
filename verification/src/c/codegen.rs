//! The code generator: walk the IR depth-first and emit C source text
//! implementing the same semantics, by a fixed translation table.

use vstd::prelude::*;
use vstd::string::{StringExecFns, StrSliceExecFns};
use crate::error::InternalError;
use crate::ir::{iseq_view, Instr, Instruction, IR};

verus! {

broadcast use vstd::std_specs::vec::group_vec_axioms, vstd::seq::axiom_seq_index_decreases;

/// An instruction tree the generator accepts below the root: no `Module`
/// variant anywhere.
pub open spec fn instr_wf(ins: Instr) -> bool
    decreases ins,
{
    match ins {
        Instr::Module(_) => false,
        Instr::LoopBody(b) => forall|i: int| 0 <= i < b.len() ==> instr_wf(#[trigger] b[i]),
        _ => true,
    }
}

/// Well-formedness of an instruction sequence, element by element.
pub open spec fn iseq_wf(s: Seq<Instr>) -> bool {
    forall|i: int| 0 <= i < s.len() ==> instr_wf(#[trigger] s[i])
}

/// The translation table: the C text emitted for one instruction. Applied
/// to the emitted program's implicit byte array `array` and index `ptr`.
pub open spec fn gen_instr(ins: Instr) -> Seq<char>
    decreases ins,
{
    match ins {
        Instr::DpInc => "++ptr;"@,
        Instr::DpDec => "--ptr;"@,
        Instr::ValInc => "++array[ptr];"@,
        Instr::ValDec => "--array[ptr];"@,
        Instr::Output => "putchar(array[ptr]);"@,
        Instr::Input => "array[ptr] = getchar();"@,
        Instr::LoopBody(b) => "while (array[ptr]) {"@ + gen_seq(b) + "};"@,
        Instr::Module(_) => Seq::empty(),
    }
}

/// The text emitted for an instruction sequence, in order.
pub open spec fn gen_seq(s: Seq<Instr>) -> Seq<char>
    decreases s,
{
    if s.len() == 0 {
        Seq::empty()
    } else {
        gen_seq(s.drop_last()) + gen_instr(s.last())
    }
}

/// The whole program: preamble, the emission of the root module's body in
/// order, and the closing brace.
pub open spec fn gen_module(s: Seq<Instr>) -> Seq<char> {
    "// This code was generated using the BFVM brainfuck compiler toolchain\n#include <stdio.h>\nvoid main(){char array[30000] = {0};int ptr = 0;"@
        + gen_seq(s) + "}"@
}

/// A loop whose body holds one ill-formed instruction is ill-formed.
pub proof fn lemma_loop_not_wf(b: Seq<Instr>, i: int)
    requires
        0 <= i < b.len(),
        !instr_wf(b[i]),
    ensures
        !instr_wf(Instr::LoopBody(b)),
{
    let x = Instr::LoopBody(b);
    assert(x->LoopBody_0 == b);
    if instr_wf(x) {
        assert(instr_wf(x->LoopBody_0[i]));
    }
}

/// Extending a prefix by one instruction appends that instruction's text.
pub proof fn lemma_gen_seq_step(s: Seq<Instr>, i: int)
    requires
        0 <= i < s.len(),
    ensures
        gen_seq(s.subrange(0, i + 1)) == gen_seq(s.subrange(0, i)) + gen_instr(s[i]),
{
    assert(s.subrange(0, i + 1).drop_last() =~= s.subrange(0, i));
    assert(s.subrange(0, i + 1).last() == s[i]);
}

/// Lowering a well-formed node yields a generator-accepted instruction:
/// no `Module` variant stands anywhere in it.
pub proof fn lemma_lower_node_wf(n: crate::parser::Node)
    requires
        crate::parser::node_wf(n),
    ensures
        instr_wf(crate::ir::lower_node(n)),
    decreases n,
{
    match n {
        crate::parser::Node::Cmd(_) => {},
        crate::parser::Node::Loop(b) => {
            lemma_lower_seq_wf(b);
            let t = crate::ir::lower_seq(b);
            let x = Instr::LoopBody(t);
            assert(x->LoopBody_0 == t);
            assert forall|k: int| 0 <= k < x->LoopBody_0.len() implies instr_wf(
                #[trigger] x->LoopBody_0[k],
            ) by {
                assert(instr_wf(t[k]));
            }
            assert(instr_wf(x));
        },
    }
}

/// Lowering a well-formed node sequence yields a generator-accepted
/// instruction sequence: together with the contracts of `Parser::parse`
/// and the lowering pass, success of the whole pipeline is owed on every
/// balanced token sequence.
pub proof fn lemma_lower_seq_wf(s: Seq<crate::parser::Node>)
    requires
        crate::parser::seq_wf(s),
    ensures
        iseq_wf(crate::ir::lower_seq(s)),
    decreases s,
{
    crate::ir::lemma_lower_seq_index(s);
    assert forall|i: int| 0 <= i < crate::ir::lower_seq(s).len() implies instr_wf(
        #[trigger] crate::ir::lower_seq(s)[i],
    ) by {
        assert(crate::parser::node_wf(s[i]));
        lemma_lower_node_wf(s[i]);
    }
}

/// Idempotence of generation: the emitted text is a pure function of the
/// IR, so generating code from the same IR value twice yields identical
/// text. The ensures of `codegen` pins each result to `gen_module`, and
/// two results so pinned are equal.
pub proof fn lemma_codegen_deterministic(ir: Instr, a: Seq<char>, b: Seq<char>)
    requires
        ir is Module,
        a == gen_module(ir->Module_0),
        b == gen_module(ir->Module_0),
    ensures
        a == b,
{
}

/// Emit the text of one instruction onto the buffer, depth-first. A
/// `Module` below the root is an internal-consistency violation.
fn internal_codegen(instruction: &Instruction, code: &mut String) -> (r: Result<
    (),
    InternalError,
>)
    ensures
        instr_wf(instruction@) ==> (r matches Ok(()) && final(code)@ == old(code)@ + gen_instr(
            instruction@,
        )),
        !instr_wf(instruction@) ==> (r matches Err(e) && e == InternalError::MultipleModules),
    decreases instruction,
{
    match instruction {
        Instruction::DpInc => {
            code.append("++ptr;");
            Ok(())
        },
        Instruction::DpDec => {
            code.append("--ptr;");
            Ok(())
        },
        Instruction::ValInc => {
            code.append("++array[ptr];");
            Ok(())
        },
        Instruction::ValDec => {
            code.append("--array[ptr];");
            Ok(())
        },
        Instruction::Output => {
            code.append("putchar(array[ptr]);");
            Ok(())
        },
        Instruction::Input => {
            code.append("array[ptr] = getchar();");
            Ok(())
        },
        Instruction::LoopBody(body) => {
            let ghost entry = code@;
            let ghost models = iseq_view(body@);
            code.append("while (array[ptr]) {");
            let mut i: usize = 0;
            proof {
                crate::ir::lemma_iseq_view_index(body@);
                assert(gen_seq(models.subrange(0, 0)) =~= Seq::<char>::empty()) by {
                    assert(models.subrange(0, 0) =~= Seq::<Instr>::empty());
                }
                assert(code@ =~= entry + "while (array[ptr]) {"@ + gen_seq(
                    models.subrange(0, 0),
                ));
            }
            while i < body.len()
                invariant
                    *instruction == Instruction::LoopBody(*body),
                    models == iseq_view(body@),
                    models.len() == body@.len(),
                    forall|j: int|
                        0 <= j < body@.len() ==> #[trigger] models[j] == crate::ir::instr_view(
                            body@[j],
                        ),
                    i <= body@.len(),
                    forall|j: int| 0 <= j < i ==> instr_wf(#[trigger] models[j]),
                    code@ == entry + "while (array[ptr]) {"@ + gen_seq(
                        models.subrange(0, i as int),
                    ),
                decreases body@.len() - i,
            {
                proof {
                    assert(instruction->LoopBody_0 == *body);
                    assert(decreases_to!(*instruction => instruction->LoopBody_0@[i as int]));
                }
                match internal_codegen(&body[i], code) {
                    Ok(()) => {},
                    Err(e) => {
                        proof {
                            assert(!instr_wf(models[i as int]));
                            lemma_loop_not_wf(models, i as int);
                            assert(instruction@ == Instr::LoopBody(models));
                        }
                        return Err(e);
                    },
                }
                proof {
                    lemma_gen_seq_step(models, i as int);
                    assert(code@ =~= entry + "while (array[ptr]) {"@ + gen_seq(
                        models.subrange(0, i + 1),
                    ));
                }
                i += 1;
            }
            code.append("};");
            proof {
                assert(models.subrange(0, i as int) =~= models);
                assert(code@ =~= entry + gen_instr(instruction@));
            }
            Ok(())
        },
        Instruction::Module(_) => Err(InternalError::MultipleModules),
    }
}

/// Generate the whole C program for an IR.
///
/// The root must be the `Module` variant, else the no-module internal
/// error; a `Module` anywhere below the root is the multiple-modules
/// internal error. The output is a pure function of the IR.
pub fn codegen(ir: &IR) -> (r: Result<String, InternalError>)
    ensures
        ir@ is Module && iseq_wf(ir@->Module_0) ==> (r matches Ok(s) && s@ == gen_module(
            ir@->Module_0,
        )),
        !(ir@ is Module) ==> (r matches Err(e) && e == InternalError::NoModuleAtRoot),
        ir@ is Module && !iseq_wf(ir@->Module_0) ==> (r matches Err(e)
            && e == InternalError::MultipleModules),
{
    match &ir.module {
        Instruction::Module(body) => {
            let mut result = String::from_str(
                "// This code was generated using the BFVM brainfuck compiler toolchain\n#include <stdio.h>\nvoid main(){char array[30000] = {0};int ptr = 0;",
            );
            let ghost pre = result@;
            let ghost models = iseq_view(body@);
            let mut i: usize = 0;
            proof {
                crate::ir::lemma_iseq_view_index(body@);
                assert(gen_seq(models.subrange(0, 0)) =~= Seq::<char>::empty()) by {
                    assert(models.subrange(0, 0) =~= Seq::<Instr>::empty());
                }
                assert(result@ =~= pre + gen_seq(models.subrange(0, 0)));
            }
            while i < body.len()
                invariant
                    ir.module == Instruction::Module(*body),
                    models == iseq_view(body@),
                    models.len() == body@.len(),
                    forall|j: int|
                        0 <= j < body@.len() ==> #[trigger] models[j] == crate::ir::instr_view(
                            body@[j],
                        ),
                    i <= body@.len(),
                    forall|j: int| 0 <= j < i ==> instr_wf(#[trigger] models[j]),
                    result@ == pre + gen_seq(models.subrange(0, i as int)),
                decreases body@.len() - i,
            {
                match internal_codegen(&body[i], &mut result) {
                    Ok(()) => {},
                    Err(e) => {
                        return Err(e);
                    },
                }
                proof {
                    lemma_gen_seq_step(models, i as int);
                    assert(result@ =~= pre + gen_seq(models.subrange(0, i + 1)));
                }
                i += 1;
            }
            result.append("}");
            proof {
                assert(models.subrange(0, i as int) =~= models);
                assert(result@ =~= gen_module(ir@->Module_0));
            }
            Ok(result)
        },
        _ => Err(InternalError::NoModuleAtRoot),
    }
}

} // verus!
