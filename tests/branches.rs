use yjit::block::{encode_exit, BlockId, JitState, VersionPlan};
use yjit::branch::BranchError;
use yjit::codebuf::encode_jmp;
use yjit::context::{Context, Type};
use yjit::cruby::{BOP_PLUS, INTEGER_REDEFINED_OP_FLAG};
use yjit::invariants::{assume_bop_not_redefined, rb_yjit_bop_redefined};
use yjit::options::Options;

fn state() -> JitState {
    JitState::new(Options::default(), 0x1000, 4096, 0x10_0000, 4096, 0x20_0000, 0x30_0000)
}

fn one(t: Type) -> Context {
    Context::from_types(Type::Unknown, vec![t])
}

fn site_bytes(st: &JitState, j: usize) -> Vec<u8> {
    let p = st.branches[j].patch_pos;
    st.cb.mem[p..p + 5].to_vec()
}

const A: BlockId = BlockId { iseq: 1, idx: 0 };
const B: BlockId = BlockId { iseq: 1, idx: 6 };

#[test]
fn branch_to_existing_version_is_linked() {
    let mut st = state();
    let tgt = st.add_block(B, one(Type::Unknown), 9, &vec![0x90; 6]).unwrap();
    let src = st.add_block(A, Context::new(), 6, &vec![0x90; 12]).unwrap();
    let j = st.add_branch(src, 7, B, one(Type::Fixnum)).unwrap();
    assert_eq!(st.branches[j].target, Some(tgt));
    assert_eq!(st.branches[j].patch_pos, st.blocks[src].start_pos + 7);
    let expect = encode_jmp(0x1000 + st.branches[j].patch_pos, 0x1000 + st.blocks[tgt].start_pos);
    assert_eq!(site_bytes(&st, j), expect);
}

#[test]
fn missing_target_gets_a_stub_then_links() {
    let mut st = state();
    let src = st.add_block(A, Context::new(), 6, &vec![0x90; 12]).unwrap();
    let j = st.add_branch(src, 5, B, one(Type::Str)).unwrap();
    assert_eq!(st.branches[j].target, None);
    let stub = st.branches[j].stub_pos.unwrap();
    let stub_addr = 0x10_0000 + stub;
    assert_eq!(st.ocb.mem[stub..stub + 10].to_vec(), encode_exit(stub_addr, j as u32, 0x30_0000));
    assert_eq!(site_bytes(&st, j), encode_jmp(0x1000 + st.branches[j].patch_pos, stub_addr));

    // the stub was hit: compile the target and link the branch
    let t = match st.plan_version(B, &one(Type::Str)) {
        VersionPlan::Compile(c) => st.add_block(B, c, 9, &vec![0x90; 6]).unwrap(),
        _ => panic!("expected a compile"),
    };
    assert!(st.link_branch(j, t));
    assert_eq!(st.branches[j].target, Some(t));
    assert_eq!(
        site_bytes(&st, j),
        encode_jmp(0x1000 + st.branches[j].patch_pos, 0x1000 + st.blocks[t].start_pos)
    );
}

#[test]
fn link_refuses_a_block_that_cannot_serve() {
    let mut st = state();
    let src = st.add_block(A, Context::new(), 6, &vec![0x90; 12]).unwrap();
    let j = st.add_branch(src, 5, B, one(Type::Unknown)).unwrap();
    let narrow = st.add_block(B, one(Type::Fixnum), 9, &vec![0x90; 6]).unwrap();
    let elsewhere = st.add_block(BlockId { iseq: 2, idx: 0 }, one(Type::Unknown), 9, &vec![0; 6]).unwrap();
    let before = site_bytes(&st, j);
    assert!(!st.link_branch(j, narrow));
    assert!(!st.link_branch(j, elsewhere));
    assert_eq!(site_bytes(&st, j), before);
    assert_eq!(st.branches[j].target, None);
}

#[test]
fn bad_and_taken_sites() {
    let mut st = state();
    let src = st.add_block(A, Context::new(), 6, &vec![0x90; 12]).unwrap();
    assert_eq!(st.add_branch(src, 2, B, Context::new()), Err(BranchError::BadSite));
    assert_eq!(st.add_branch(src, 8, B, Context::new()), Err(BranchError::BadSite));
    assert!(st.add_branch(src, 5, B, Context::new()).is_ok());
    assert_eq!(st.add_branch(src, 7, B, Context::new()), Err(BranchError::SiteTaken));
    assert_eq!(st.branches.len(), 1);
}

#[test]
fn invalidated_target_unlinks_incoming_branches() {
    let mut st = state();
    let tgt = st.add_block(B, one(Type::Fixnum), 9, &vec![0x90; 6]).unwrap();
    let src = st.add_block(A, Context::new(), 6, &vec![0x90; 12]).unwrap();
    let j = st.add_branch(src, 5, B, one(Type::Fixnum)).unwrap();
    assert_eq!(st.branches[j].target, Some(tgt));
    assert!(assume_bop_not_redefined(&mut st, tgt, INTEGER_REDEFINED_OP_FLAG, BOP_PLUS, false));
    rb_yjit_bop_redefined(&mut st, INTEGER_REDEFINED_OP_FLAG, BOP_PLUS);
    assert!(!st.is_live(tgt));
    assert!(st.is_live(src));
    assert_eq!(st.branches[j].target, None);
    let exit_addr = 0x10_0000 + st.blocks[tgt].entry_exit.unwrap();
    assert_eq!(site_bytes(&st, j), encode_jmp(0x1000 + st.branches[j].patch_pos, exit_addr));
    let s = st.blocks[tgt].start_pos;
    assert_eq!(st.cb.mem[s..s + 5].to_vec(), encode_jmp(0x1000 + s, exit_addr));
}

#[test]
fn code_high_in_the_address_space() {
    let base: usize = 0x7f12_3456_0000;
    let mut st = JitState::new(Options::default(), base, 4096, base + 0x10_0000, 4096, base + 0x20_0000, base + 0x30_0000);
    let tgt = st.add_block(B, one(Type::Unknown), 9, &vec![0x90; 6]).unwrap();
    let src = st.add_block(A, Context::new(), 6, &vec![0x90; 12]).unwrap();
    let j = st.add_branch(src, 5, B, one(Type::Unknown)).unwrap();
    assert_eq!(
        site_bytes(&st, j),
        encode_jmp(base + st.branches[j].patch_pos, base + st.blocks[tgt].start_pos)
    );
    assert_eq!(site_bytes(&st, j), vec![0xE9, 0xF0, 0xFF, 0xFF, 0xFF]);
    assert!(assume_bop_not_redefined(&mut st, tgt, INTEGER_REDEFINED_OP_FLAG, BOP_PLUS, false));
    rb_yjit_bop_redefined(&mut st, INTEGER_REDEFINED_OP_FLAG, BOP_PLUS);
    assert_eq!(st.cb.mem[0], 0xE9);
    assert_eq!(st.branches[j].target, None);
}
