//! The lowering pass: convert a parsed module into the IR, one top-level
//! node at a time, in source order.

use vstd::prelude::*;
use crate::error::InternalError;
use crate::ir::{
    lemma_lower_seq_step, lower_node, lower_seq, Instr, ToIRInstruction, IR,
};
use crate::parser::{lemma_seq_view_index, node_wf, seq_wf, Module};

verus! {

broadcast use vstd::std_specs::vec::group_vec_axioms;

/// Lower a module into an IR whose root `Module` holds the lowered
/// top-level nodes in source order. A command kind outside the six
/// primitives is an internal-consistency violation, never user input.
pub fn codegen(module: &Module) -> (r: Result<IR, InternalError>)
    ensures
        seq_wf(module@) ==> (r matches Ok(ir) && ir@ == Instr::Module(lower_seq(module@))),
        !seq_wf(module@) ==> (r matches Err(e) && e == InternalError::InvalidCommandKind),
{
    let mut ir = IR::new();
    let mut i: usize = 0;
    proof {
        lemma_seq_view_index(module.body@);
        assert(lower_seq(module@.subrange(0, 0)) =~= Seq::<Instr>::empty()) by {
            assert(module@.subrange(0, 0) =~= Seq::<crate::parser::Node>::empty());
        }
        assert(ir@ == Instr::Module(lower_seq(module@.subrange(0, 0))));
    }
    while i < module.body.len()
        invariant
            i <= module.body@.len(),
            module@.len() == module.body@.len(),
            forall|j: int| 0 <= j < module.body@.len() ==> #[trigger] module@[j] == crate::parser::ast_view(module.body@[j]),
            forall|j: int| 0 <= j < i ==> node_wf(#[trigger] module@[j]),
            ir@ == Instr::Module(lower_seq(module@.subrange(0, i as int))),
        decreases module.body@.len() - i,
    {
        match (&module.body[i]).to_ir_instruction() {
            Ok(ins) => {
                proof {
                    lemma_lower_seq_step(module@, i as int);
                }
                let res = ir.insert_instruction(ins);
                match res {
                    Ok(()) => {},
                    Err(e) => {
                        return Err(e);
                    },
                }
            },
            Err(e) => {
                return Err(e);
            },
        }
        i += 1;
    }
    proof {
        assert(module@.subrange(0, i as int) =~= module@);
    }
    Ok(ir)
}

} // verus!
