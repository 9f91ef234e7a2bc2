use yjit::block::{BlockId, CompileError, JitState, VersionPlan};
use yjit::context::{Context, Type};
use yjit::options::Options;

fn state(max_versions: usize, cb_size: usize) -> JitState {
    let mut o = Options::default();
    o.max_versions = max_versions;
    JitState::new(o, 0x1000, cb_size, 0x10_0000, 4096, 0x20_0000, 0x30_0000)
}

fn one(t: Type) -> Context {
    Context::from_types(Type::Unknown, vec![t])
}

const SEQ: BlockId = BlockId { iseq: 7, idx: 0 };

#[test]
fn scenario_b_two_versions_coexist() {
    let mut st = state(4, 4096);
    let bi = st.add_block(SEQ, one(Type::Fixnum), 2, &vec![0x90; 8]).unwrap();
    let bu = st.add_block(SEQ, one(Type::Unknown), 2, &vec![0x90; 8]).unwrap();
    assert_eq!(st.version_count(SEQ), 2);
    assert_eq!(st.find_version(SEQ, &one(Type::Fixnum)), Some(bi));
    assert_eq!(st.find_version(SEQ, &one(Type::Str)), Some(bu));
    assert_eq!(st.versions_for(SEQ), vec![bi, bu]);
    assert_eq!(st.lookup_entry(SEQ, &one(Type::Fixnum)), Some(0x1000 + st.blocks[bi].start_pos));
    assert_eq!(st.lookup_entry(SEQ, &one(Type::Str)), Some(0x1008));
    assert_eq!(st.lookup_entry(SEQ, &Context::new()), None);
}

#[test]
fn closest_version_wins_regardless_of_order() {
    let mut st = state(4, 4096);
    let bu = st.add_block(SEQ, one(Type::Unknown), 2, &vec![1; 5]).unwrap();
    let bh = st.add_block(SEQ, one(Type::UnknownHeap), 2, &vec![1; 5]).unwrap();
    let bs = st.add_block(SEQ, one(Type::Str), 2, &vec![1; 5]).unwrap();
    assert_eq!(st.find_version(SEQ, &one(Type::Str)), Some(bs));
    assert_eq!(st.find_version(SEQ, &one(Type::Array)), Some(bu));
    assert_eq!(st.find_version(SEQ, &one(Type::UnknownHeap)), Some(bh));
    assert_eq!(st.find_version(SEQ, &one(Type::Nil)), Some(bu));
    assert_eq!(st.find_version(BlockId { iseq: 7, idx: 1 }, &one(Type::Nil)), None);
}

#[test]
fn recompiling_and_requerying_returns_the_block() {
    let mut st = state(4, 4096);
    let c = Context::from_types(Type::UnknownHeap, vec![Type::Fixnum, Type::Nil]);
    let b = st.add_block(SEQ, c.duplicate(), 3, &vec![1, 2]).unwrap();
    assert_eq!(st.find_version(SEQ, &c), Some(b));
    assert_eq!(st.add_block(SEQ, c.duplicate(), 3, &vec![1, 2]), Err(CompileError::DuplicateVersion));
    // short code is padded to the length of a jump
    assert_eq!(st.blocks[b].end_pos - st.blocks[b].start_pos, 5);
    assert_eq!(st.cb.mem[0..5].to_vec(), vec![1, 2, 0x90, 0x90, 0x90]);
}

#[test]
fn scenario_c_buffer_exhausted() {
    let mut st = state(4, 8);
    let first = BlockId { iseq: 1, idx: 0 };
    assert!(st.add_block(first, one(Type::Unknown), 1, &vec![1; 6]).is_ok());
    let ctx = one(Type::Fixnum);
    let r = st.add_block(SEQ, ctx.duplicate(), 4, &vec![2; 6]);
    assert_eq!(r, Err(CompileError::OutOfMemory));
    assert_eq!(st.find_version(SEQ, &ctx), None);
    assert_eq!(st.version_count(SEQ), 0);
    assert_eq!(st.cb.get_write_pos(), 6);
    assert_eq!(st.blocks.len(), 1);
    assert_eq!(st.counters.compilation_failure, 1);
}

#[test]
fn version_cap_falls_back_to_generic() {
    let mut st = state(2, 4096);
    st.add_block(SEQ, one(Type::Fixnum), 1, &vec![1; 5]).unwrap();
    match st.plan_version(SEQ, &one(Type::Str)) {
        VersionPlan::Compile(c) => {
            assert!(c.same_as(&one(Type::Unknown)));
            st.add_block(SEQ, c, 1, &vec![1; 5]).unwrap();
        }
        _ => panic!("expected a compile"),
    }
    assert_eq!(st.version_count(SEQ), 2);
    assert!(matches!(st.plan_version(SEQ, &one(Type::Array)), VersionPlan::Existing(1)));
    assert!(matches!(st.plan_version(SEQ, &one(Type::Fixnum)), VersionPlan::Existing(0)));
    let wide = Context::from_types(Type::Unknown, vec![Type::Nil, Type::Nil]);
    assert!(matches!(st.plan_version(SEQ, &wide), VersionPlan::Interpret));
    assert_eq!(st.add_block(SEQ, wide, 1, &vec![1; 5]), Err(CompileError::VersionLimit));
    assert_eq!(st.version_count(SEQ), 2);
}

#[test]
fn plan_below_cap_keeps_context() {
    let st = state(4, 4096);
    match st.plan_version(SEQ, &one(Type::Fixnum)) {
        VersionPlan::Compile(c) => assert!(c.same_as(&one(Type::Fixnum))),
        _ => panic!("expected a compile"),
    }
    assert!(st.limit_block_versions(SEQ, &one(Type::Hash)).same_as(&one(Type::Hash)));
}

#[test]
fn block_list_by_address() {
    let mut st = state(4, 4096);
    let a = st.add_block(BlockId { iseq: 3, idx: 0 }, Context::new(), 1, &vec![1; 7]).unwrap();
    let _ = st.add_block(BlockId { iseq: 4, idx: 0 }, Context::new(), 1, &vec![1; 7]).unwrap();
    let c = st.add_block(BlockId { iseq: 3, idx: 5 }, Context::new(), 9, &vec![1; 7]).unwrap();
    assert_eq!(st.iseq_block_list(3), vec![a, c]);
    st.invalidate_block(a);
    assert_eq!(st.iseq_block_list(3), vec![c]);
}
