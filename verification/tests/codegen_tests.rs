use mfbc::c;
use mfbc::codegen::codegen;
use mfbc::error::{ErrorCtx, InternalError};
use mfbc::ir::{Instruction, IR};
use mfbc::lexer::{lex, Commands};
use mfbc::parser::{CommandAST, Module, Parser, AST};

const PREAMBLE: &str = "// This code was generated using the BFVM brainfuck compiler toolchain\n#include <stdio.h>\nvoid main(){char array[30000] = {0};int ptr = 0;";

fn compile(source: &str) -> String {
    let lex_tokens = lex(source);
    let errctx = ErrorCtx::new(source);
    let mut parser = Parser::new(&lex_tokens, errctx);
    parser.parse().unwrap();
    let ir = codegen(&parser.get_module()).unwrap();
    c::codegen::codegen(&ir).unwrap()
}

#[test]
fn test_lowering_shape() {
    let lex_tokens = lex("><+-.,[]");
    let errctx = ErrorCtx::new("><+-.,[]");
    let mut parser = Parser::new(&lex_tokens, errctx);
    parser.parse().unwrap();
    let ir = codegen(&parser.get_module()).unwrap();
    let expected = IR {
        module: Instruction::Module(vec![
            Instruction::DpInc,
            Instruction::DpDec,
            Instruction::ValInc,
            Instruction::ValDec,
            Instruction::Output,
            Instruction::Input,
            Instruction::LoopBody(vec![]),
        ]),
    };
    assert_eq!(ir, expected);
}

#[test]
fn test_translation_table() {
    // Each primitive instruction emits exactly its table entry.
    assert_eq!(compile(">"), format!("{}++ptr;{}", PREAMBLE, "}"));
    assert_eq!(compile("<"), format!("{}--ptr;{}", PREAMBLE, "}"));
    assert_eq!(compile("+"), format!("{}++array[ptr];{}", PREAMBLE, "}"));
    assert_eq!(compile("-"), format!("{}--array[ptr];{}", PREAMBLE, "}"));
    assert_eq!(compile("."), format!("{}putchar(array[ptr]);{}", PREAMBLE, "}"));
    assert_eq!(compile(","), format!("{}array[ptr] = getchar();{}", PREAMBLE, "}"));
}

#[test]
fn test_loop_translation() {
    // Loop([ValInc]) emits a conditional loop whose body is exactly the
    // ValInc effect.
    assert_eq!(
        compile("[+]"),
        format!("{}while (array[ptr]) {{++array[ptr];}};{}", PREAMBLE, "}")
    );
}

#[test]
fn test_whole_program() {
    assert_eq!(
        compile("><+-.,[]"),
        format!(
            "{}++ptr;--ptr;++array[ptr];--array[ptr];putchar(array[ptr]);array[ptr] = getchar();while (array[ptr]) {{}};{}",
            PREAMBLE, "}"
        )
    );
}

#[test]
fn test_codegen_idempotent() {
    // Generating code from the same IR value twice yields identical text.
    let mut ir = IR::new();
    ir.insert_instruction(Instruction::ValInc).unwrap();
    ir.insert_instruction(Instruction::LoopBody(vec![Instruction::DpInc]))
        .unwrap();
    let first = c::codegen::codegen(&ir).unwrap();
    let second = c::codegen::codegen(&ir).unwrap();
    assert_eq!(first, second);
}

#[test]
fn test_insert_without_module_root() {
    let mut ir = IR {
        module: Instruction::DpInc,
    };
    let result = ir.insert_instruction(Instruction::ValInc);
    assert_eq!(result, Err(InternalError::NoModuleAtRoot));
}

#[test]
fn test_codegen_without_module_root() {
    let ir = IR {
        module: Instruction::ValDec,
    };
    assert_eq!(
        c::codegen::codegen(&ir),
        Err(InternalError::NoModuleAtRoot)
    );
}

#[test]
fn test_codegen_nested_module() {
    let mut ir = IR::new();
    ir.insert_instruction(Instruction::Module(vec![])).unwrap();
    assert_eq!(
        c::codegen::codegen(&ir),
        Err(InternalError::MultipleModules)
    );
}

#[test]
fn test_lowering_invalid_command() {
    // A Command kind outside the six primitives reaching lowering is an
    // internal-consistency violation.
    let module = Module {
        body: vec![AST::Command(CommandAST {
            command_type: Commands::LoopEnd,
        })],
    };
    assert_eq!(codegen(&module), Err(InternalError::InvalidCommandKind));
}
