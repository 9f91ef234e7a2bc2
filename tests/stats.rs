use yjit::block::{BlockId, JitState};
use yjit::context::Context;
use yjit::options::{parse_option, Options};
use yjit::stats::{
    rb_yjit_collect_binding_alloc, rb_yjit_collect_binding_set, rb_yjit_collect_vm_usage_insn,
    rb_yjit_gen_stats_dict, rb_yjit_reset_stats_bang, rb_yjit_stats_enabled_p, Counter, Counters,
};

#[test]
fn counters_increment_and_reset() {
    let mut c = Counters::new();
    c.incr(Counter::CompiledBlockCount);
    c.incr(Counter::CompiledBlockCount);
    c.add(Counter::InvalidationCount, 3);
    assert_eq!(c.get(Counter::CompiledBlockCount), 2);
    assert_eq!(c.get(Counter::InvalidationCount), 3);
    assert_eq!(c.get(Counter::BindingSet), 0);
    c.invalidation_count = u64::MAX;
    c.incr(Counter::InvalidationCount);
    assert_eq!(c.get(Counter::InvalidationCount), u64::MAX);
    c.reset();
    assert_eq!(c, Counters::new());
}

#[test]
fn stats_export_follows_the_option() {
    let mut off = JitState::new(Options::default(), 0x1000, 256, 0x2000, 256, 0x3000, 0x4000);
    assert!(!rb_yjit_stats_enabled_p(&off.options));
    assert_eq!(rb_yjit_gen_stats_dict(&off), None);
    rb_yjit_collect_vm_usage_insn(&mut off.counters);
    assert_eq!(off.counters.vm_insns_count, 1);

    let mut o = Options::default();
    assert!(parse_option(&mut o, "stats"));
    let mut st = JitState::new(o, 0x1000, 256, 0x2000, 256, 0x3000, 0x4000);
    assert!(rb_yjit_stats_enabled_p(&st.options));
    st.add_block(BlockId { iseq: 1, idx: 0 }, Context::new(), 1, &vec![1; 9]).unwrap();
    st.ensure_entry_exit(0);
    rb_yjit_collect_binding_alloc(&mut st.counters);
    rb_yjit_collect_binding_set(&mut st.counters);
    let d = rb_yjit_gen_stats_dict(&st).unwrap();
    assert_eq!(d.inline_code_size, 9);
    assert_eq!(d.outlined_code_size, 10);
    assert!(d.all_stats);
    assert_eq!(d.counters.compiled_block_count, 1);
    assert_eq!(d.counters.binding_allocations, 1);
    assert_eq!(d.counters.binding_set, 1);
    rb_yjit_reset_stats_bang(&mut st);
    assert_eq!(st.counters, Counters::new());
    assert_eq!(rb_yjit_gen_stats_dict(&st).unwrap().inline_code_size, 9);
}
