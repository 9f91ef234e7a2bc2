use yjit::block::{BlockId, JitState};
use yjit::codebuf::encode_jmp;
use yjit::context::{Context, Type};
use yjit::cruby::{BOP_MINUS, BOP_PLUS, INTEGER_REDEFINED_OP_FLAG, STRING_REDEFINED_OP_FLAG};
use yjit::invariants::{
    assume_bop_not_redefined, assume_method_lookup_stable, assume_single_ractor_mode,
    assume_stable_global_constant_state, rb_yjit_before_ractor_spawn, rb_yjit_bop_redefined,
    rb_yjit_cme_invalidate, rb_yjit_constant_state_changed, rb_yjit_method_lookup_change,
    rb_yjit_tracing_invalidate_all, DepKey, Fact,
};
use yjit::options::Options;

fn state() -> JitState {
    JitState::new(Options::default(), 0x1000, 4096, 0x10_0000, 4096, 0x20_0000, 0x30_0000)
}

fn one(t: Type) -> Context {
    Context::from_types(Type::Unknown, vec![t])
}

fn entry_bytes(st: &JitState, b: usize) -> Vec<u8> {
    let s = st.blocks[b].start_pos;
    st.cb.mem[s..s + 5].to_vec()
}

fn expected_patch(st: &JitState, b: usize) -> Vec<u8> {
    let s = st.blocks[b].start_pos;
    encode_jmp(st.cb.base + s, st.ocb.base + st.blocks[b].entry_exit.unwrap())
}

#[test]
fn test_get_bop_assumptions() {
    let mut st = state();
    let block = st.add_block(BlockId { iseq: 0, idx: 0 }, Context::new(), 1, &vec![0; 5]).unwrap();

    // One block assuming Integer#+ is not redefined and one assuming
    // String#+ is not redefined.
    assert!(assume_bop_not_redefined(&mut st, block, INTEGER_REDEFINED_OP_FLAG, BOP_PLUS, false));
    assert!(assume_bop_not_redefined(&mut st, block, STRING_REDEFINED_OP_FLAG, BOP_PLUS, false));

    assert_eq!(st.invariants.get_bop_assumptions(INTEGER_REDEFINED_OP_FLAG, BOP_PLUS).len(), 1);
}

#[test]
fn scenario_a_operator_redefinition() {
    let mut st = state();
    let id = BlockId { iseq: 9, idx: 0 };
    let ctx = one(Type::Unknown);
    let b = st.add_block(id, ctx.duplicate(), 4, &vec![0x48, 0x01, 0xC0, 0x90, 0x90, 0xC3]).unwrap();
    assert!(assume_bop_not_redefined(&mut st, b, INTEGER_REDEFINED_OP_FLAG, BOP_PLUS, false));
    assert_eq!(st.find_version(id, &ctx), Some(b));
    rb_yjit_bop_redefined(&mut st, INTEGER_REDEFINED_OP_FLAG, BOP_PLUS);
    assert_eq!(st.find_version(id, &ctx), None);
    assert!(!st.is_live(b));
    assert_eq!(entry_bytes(&st, b), expected_patch(&st, b));
    assert_eq!(st.cb.mem[st.blocks[b].start_pos + 5], 0xC3);
    assert!(st.invariants.get_bop_assumptions(INTEGER_REDEFINED_OP_FLAG, BOP_PLUS).is_empty());
    assert!(!st.invariants.has_dependents(Fact::BasicOperator, DepKey { a: 1, b: 0 }));
    assert_eq!(st.counters.invalidate_bop_redefined, 1);
    assert_eq!(st.counters.invalidation_count, 1);
}

#[test]
fn redefinition_reported_refuses_assumption() {
    let mut st = state();
    let b = st.add_block(BlockId { iseq: 9, idx: 0 }, Context::new(), 1, &vec![0; 5]).unwrap();
    assert!(!assume_bop_not_redefined(&mut st, b, INTEGER_REDEFINED_OP_FLAG, BOP_MINUS, true));
    assert!(st.invariants.basic_operators.deps.is_empty());
    assert_eq!(st.blocks[b].entry_exit, None);
}

#[test]
fn invalidation_removes_block_from_every_map() {
    let mut st = state();
    let b = st.add_block(BlockId { iseq: 2, idx: 0 }, Context::new(), 1, &vec![0; 5]).unwrap();
    let other = st.add_block(BlockId { iseq: 2, idx: 4 }, Context::new(), 6, &vec![0; 5]).unwrap();
    assert!(assume_bop_not_redefined(&mut st, b, INTEGER_REDEFINED_OP_FLAG, BOP_PLUS, false));
    assert!(assume_method_lookup_stable(&mut st, b, 0xABC, 0xDEF, 42));
    assert!(assume_method_lookup_stable(&mut st, other, 0xABC, 0x123, 43));
    rb_yjit_method_lookup_change(&mut st, 0xABC, 42);
    assert!(!st.is_live(b));
    assert!(st.is_live(other));
    assert!(st.invariants.basic_operators.deps.is_empty());
    assert!(!st.invariants.has_dependents(Fact::CmeValidity, DepKey { a: 0xDEF, b: 0 }));
    assert!(st.invariants.has_dependents(Fact::CmeValidity, DepKey { a: 0x123, b: 0 }));
    assert_eq!(entry_bytes(&st, b), expected_patch(&st, b));
    assert_eq!(st.counters.invalidate_method_lookup, 1);
    rb_yjit_cme_invalidate(&mut st, 0x123);
    assert!(!st.is_live(other));
    assert!(st.invariants.method_lookup.deps.is_empty());
    assert_eq!(entry_bytes(&st, other), expected_patch(&st, other));
}

#[test]
fn redundant_invalidation_is_a_no_op() {
    let mut st = state();
    let b = st.add_block(BlockId { iseq: 2, idx: 0 }, Context::new(), 1, &vec![7; 5]).unwrap();
    assert!(assume_bop_not_redefined(&mut st, b, STRING_REDEFINED_OP_FLAG, BOP_PLUS, false));
    let mem = st.cb.mem.clone();
    let counters = st.counters;
    rb_yjit_bop_redefined(&mut st, INTEGER_REDEFINED_OP_FLAG, BOP_PLUS);
    rb_yjit_method_lookup_change(&mut st, 1, 2);
    rb_yjit_cme_invalidate(&mut st, 3);
    rb_yjit_before_ractor_spawn(&mut st);
    rb_yjit_constant_state_changed(&mut st);
    assert!(st.is_live(b));
    assert_eq!(st.cb.mem, mem);
    assert_eq!(st.counters, counters);
    assert_eq!(st.invariants.basic_operators.deps.len(), 1);
    rb_yjit_bop_redefined(&mut st, STRING_REDEFINED_OP_FLAG, BOP_PLUS);
    assert!(!st.is_live(b));
    let mem = st.cb.mem.clone();
    rb_yjit_bop_redefined(&mut st, STRING_REDEFINED_OP_FLAG, BOP_PLUS);
    assert_eq!(st.cb.mem, mem);
}

#[test]
fn ractor_and_constant_assumptions() {
    let mut st = state();
    let a = st.add_block(BlockId { iseq: 5, idx: 0 }, Context::new(), 1, &vec![0; 5]).unwrap();
    let c = st.add_block(BlockId { iseq: 5, idx: 2 }, Context::new(), 3, &vec![0; 5]).unwrap();
    assert!(!assume_single_ractor_mode(&mut st, a, true));
    assert!(assume_single_ractor_mode(&mut st, a, false));
    assert!(assume_stable_global_constant_state(&mut st, c));
    rb_yjit_before_ractor_spawn(&mut st);
    assert!(!st.is_live(a));
    assert!(st.is_live(c));
    assert_eq!(st.counters.invalidate_ractor_spawn, 1);
    rb_yjit_constant_state_changed(&mut st);
    assert!(!st.is_live(c));
    assert_eq!(st.counters.constant_state_bumps, 1);
    assert_eq!(st.counters.invalidate_constant_state_bump, 1);
}

#[test]
fn tracing_invalidates_everything() {
    let mut st = state();
    let a = st.add_block(BlockId { iseq: 5, idx: 0 }, one(Type::Fixnum), 1, &vec![0; 5]).unwrap();
    let b = st.add_block(BlockId { iseq: 6, idx: 0 }, one(Type::Str), 1, &vec![0; 5]).unwrap();
    assert!(assume_stable_global_constant_state(&mut st, b));
    rb_yjit_tracing_invalidate_all(&mut st);
    assert!(!st.is_live(a) && !st.is_live(b));
    assert!(st.invariants.constant_state.deps.is_empty());
    assert_eq!(entry_bytes(&st, b), expected_patch(&st, b));
    assert_eq!(entry_bytes(&st, a), expected_patch(&st, a));
    assert_eq!(st.find_version(BlockId { iseq: 5, idx: 0 }, &one(Type::Fixnum)), None);
}

#[test]
fn entry_exit_code_is_emitted_once() {
    let mut st = state();
    let b = st.add_block(BlockId { iseq: 5, idx: 3 }, Context::new(), 4, &vec![0; 5]).unwrap();
    assert!(st.ensure_entry_exit(b));
    let pos = st.ocb.get_write_pos();
    assert!(st.ensure_entry_exit(b));
    assert_eq!(st.ocb.get_write_pos(), pos);
    assert_eq!(st.blocks[b].entry_exit, Some(0));
    assert_eq!(st.ocb.mem[0..5].to_vec(), vec![0xB8, 3, 0, 0, 0]);
}

#[test]
fn full_outlined_buffer_refuses_assumption() {
    let mut st = JitState::new(Options::default(), 0x1000, 64, 0x2000, 4, 0x3000, 0x4000);
    let b = st.add_block(BlockId { iseq: 5, idx: 0 }, Context::new(), 1, &vec![0; 5]).unwrap();
    assert!(!assume_bop_not_redefined(&mut st, b, INTEGER_REDEFINED_OP_FLAG, BOP_PLUS, false));
    assert!(st.invariants.basic_operators.deps.is_empty());
    st.invalidate_block(b);
    assert!(!st.is_live(b));
}

#[test]
fn repeated_assumption_is_recorded_once() {
    let mut st = state();
    let b = st.add_block(BlockId { iseq: 8, idx: 0 }, Context::new(), 1, &vec![0; 5]).unwrap();
    assert!(assume_bop_not_redefined(&mut st, b, INTEGER_REDEFINED_OP_FLAG, BOP_PLUS, false));
    assert!(assume_bop_not_redefined(&mut st, b, INTEGER_REDEFINED_OP_FLAG, BOP_PLUS, false));
    assert_eq!(st.invariants.get_bop_assumptions(INTEGER_REDEFINED_OP_FLAG, BOP_PLUS), vec![b]);
    let exit = st.blocks[b].entry_exit.unwrap();
    assert_eq!(st.ocb.mem[exit..exit + 10].to_vec(), yjit::block::encode_exit(0x10_0000 + exit, 0, 0x20_0000));
    let ocb_pos = st.ocb.get_write_pos();
    assert!(assume_stable_global_constant_state(&mut st, b));
    assert_eq!(st.ocb.get_write_pos(), ocb_pos);
    assert_eq!(st.invariants.basic_operators.deps.len(), 1);
}
