use yjit::block::{encode_exit, BlockId, CompileError, JitState};
use yjit::codebuf::encode_jmp;
use yjit::codegen::{BlockGen, CodegenStatus};
use yjit::context::{Context, Type};
use yjit::options::Options;

fn state() -> JitState {
    JitState::new(Options::default(), 0x1000, 4096, 0x10_0000, 4096, 0x20_0000, 0x30_0000)
}

const ID: BlockId = BlockId { iseq: 4, idx: 2 };

#[test]
fn walk_to_a_terminator() {
    let mut st = state();
    let mut g = BlockGen::new(ID, Context::new());
    let mut after = Context::new();
    after.stack_push(Type::Fixnum);
    assert!(!g.step(CodegenStatus::KeepCompiling, &vec![0x6A, 0x03], after.duplicate(), 2));
    assert_eq!(g.insn_idx, 4);
    assert_eq!(g.ctx.get_temp(0), Type::Fixnum);
    assert!(g.step(CodegenStatus::EndBlock, &vec![0xC3], Context::new(), 1));
    let b = st.gen_finish(g).unwrap();
    assert_eq!(st.blocks[b].end_idx, 5);
    assert_eq!(st.cb.mem[0..5].to_vec(), vec![0x6A, 0x03, 0xC3, 0x90, 0x90]);
    assert_eq!(st.find_version(ID, &Context::new()), Some(b));
}

#[test]
fn entry_that_cannot_compile_gives_no_block() {
    let mut st = state();
    let mut g = BlockGen::new(ID, Context::new());
    assert!(g.step(CodegenStatus::CantCompile, &vec![], Context::new(), 1));
    assert_eq!(g.exit_at, Some(2));
    assert_eq!(st.gen_finish(g), Err(CompileError::EntryNotCompilable));
    assert_eq!(st.find_version(ID, &Context::new()), None);
    assert_eq!(st.cb.get_write_pos(), 0);
}

#[test]
fn instruction_that_cannot_compile_becomes_a_side_exit() {
    let mut st = state();
    let mut g = BlockGen::new(ID, Context::new());
    assert!(!g.step(CodegenStatus::KeepCompiling, &vec![0x50, 0x51, 0x52], Context::new(), 3));
    assert!(g.step(CodegenStatus::CantCompile, &vec![0xFF], Context::new(), 1));
    let b = st.gen_finish(g).unwrap();
    assert_eq!(st.blocks[b].end_idx, 5);
    assert_eq!(st.cb.mem[0..3].to_vec(), vec![0x50, 0x51, 0x52]);
    assert_eq!(st.cb.mem[3..8].to_vec(), encode_jmp(0x1003, 0x10_0000));
    assert_eq!(st.ocb.mem[0..10].to_vec(), encode_exit(0x10_0000, 5, 0x20_0000));
}

#[test]
fn side_exit_needs_room() {
    let mut st = JitState::new(Options::default(), 0x1000, 64, 0x2000, 8, 0x3000, 0x4000);
    assert_eq!(st.gen_side_exit(1), None);
    let mut g = BlockGen::new(ID, Context::new());
    g.step(CodegenStatus::KeepCompiling, &vec![1, 2, 3], Context::new(), 1);
    g.step(CodegenStatus::CantCompile, &vec![], Context::new(), 1);
    assert_eq!(st.gen_finish(g), Err(CompileError::OutOfMemory));
    assert_eq!(st.find_version(ID, &Context::new()), None);
    assert_eq!(st.cb.get_write_pos(), 0);
}
