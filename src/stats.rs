//! Runtime counters of the compiler, kept in one explicitly passed struct.
use vstd::prelude::*;
use crate::block::JitState;
use crate::options::Options;

verus! {

/// Names of the tracked counters.
#[derive(Clone, Copy, PartialEq, Eq, Structural, Debug)]
pub enum Counter {
    VmInsnsCount,
    CompiledBlockCount,
    CompilationFailure,
    ExitFromBranchStub,
    InvalidationCount,
    InvalidateMethodLookup,
    InvalidateBopRedefined,
    InvalidateRactorSpawn,
    InvalidateConstantStateBump,
    ConstantStateBumps,
    BindingAllocations,
    BindingSet,
}

/// Counter values.
#[derive(Clone, Copy, PartialEq, Eq, Structural, Debug)]
pub struct Counters {
    pub vm_insns_count: u64,
    pub compiled_block_count: u64,
    pub compilation_failure: u64,
    pub exit_from_branch_stub: u64,
    pub invalidation_count: u64,
    pub invalidate_method_lookup: u64,
    pub invalidate_bop_redefined: u64,
    pub invalidate_ractor_spawn: u64,
    pub invalidate_constant_state_bump: u64,
    pub constant_state_bumps: u64,
    pub binding_allocations: u64,
    pub binding_set: u64,
}

/// One more, saturating at the largest value.
pub open spec fn bumped(v: u64) -> u64 {
    if v < u64::MAX {
        (v + 1) as u64
    } else {
        v
    }
}

impl Counters {
    pub open spec fn value(&self, c: Counter) -> u64 {
        match c {
            Counter::VmInsnsCount => self.vm_insns_count,
            Counter::CompiledBlockCount => self.compiled_block_count,
            Counter::CompilationFailure => self.compilation_failure,
            Counter::ExitFromBranchStub => self.exit_from_branch_stub,
            Counter::InvalidationCount => self.invalidation_count,
            Counter::InvalidateMethodLookup => self.invalidate_method_lookup,
            Counter::InvalidateBopRedefined => self.invalidate_bop_redefined,
            Counter::InvalidateRactorSpawn => self.invalidate_ractor_spawn,
            Counter::InvalidateConstantStateBump => self.invalidate_constant_state_bump,
            Counter::ConstantStateBumps => self.constant_state_bumps,
            Counter::BindingAllocations => self.binding_allocations,
            Counter::BindingSet => self.binding_set,
        }
    }

    /// All counters at zero.
    pub fn new() -> (r: Counters)
        ensures
            forall|c: Counter| r.value(c) == 0,
    {
        Counters {
            vm_insns_count: 0,
            compiled_block_count: 0,
            compilation_failure: 0,
            exit_from_branch_stub: 0,
            invalidation_count: 0,
            invalidate_method_lookup: 0,
            invalidate_bop_redefined: 0,
            invalidate_ractor_spawn: 0,
            invalidate_constant_state_bump: 0,
            constant_state_bumps: 0,
            binding_allocations: 0,
            binding_set: 0,
        }
    }

    /// Zero out all the counters.
    pub fn reset(&mut self)
        ensures
            forall|c: Counter| final(self).value(c) == 0,
    {
        *self = Counters::new();
    }

    pub fn get(&self, c: Counter) -> (r: u64)
        ensures
            r == self.value(c),
    {
        match c {
            Counter::VmInsnsCount => self.vm_insns_count,
            Counter::CompiledBlockCount => self.compiled_block_count,
            Counter::CompilationFailure => self.compilation_failure,
            Counter::ExitFromBranchStub => self.exit_from_branch_stub,
            Counter::InvalidationCount => self.invalidation_count,
            Counter::InvalidateMethodLookup => self.invalidate_method_lookup,
            Counter::InvalidateBopRedefined => self.invalidate_bop_redefined,
            Counter::InvalidateRactorSpawn => self.invalidate_ractor_spawn,
            Counter::InvalidateConstantStateBump => self.invalidate_constant_state_bump,
            Counter::ConstantStateBumps => self.constant_state_bumps,
            Counter::BindingAllocations => self.binding_allocations,
            Counter::BindingSet => self.binding_set,
        }
    }

    /// Add one to counter `c`; a counter at its largest value stays there.
    pub fn incr(&mut self, c: Counter)
        ensures
            final(self).value(c) == bumped(old(self).value(c)),
            forall|d: Counter| d != c ==> final(self).value(d) == old(self).value(d),
    {
        let v = self.get(c);
        let n: u64 = if v < u64::MAX {
            v + 1
        } else {
            v
        };
        match c {
            Counter::VmInsnsCount => self.vm_insns_count = n,
            Counter::CompiledBlockCount => self.compiled_block_count = n,
            Counter::CompilationFailure => self.compilation_failure = n,
            Counter::ExitFromBranchStub => self.exit_from_branch_stub = n,
            Counter::InvalidationCount => self.invalidation_count = n,
            Counter::InvalidateMethodLookup => self.invalidate_method_lookup = n,
            Counter::InvalidateBopRedefined => self.invalidate_bop_redefined = n,
            Counter::InvalidateRactorSpawn => self.invalidate_ractor_spawn = n,
            Counter::InvalidateConstantStateBump => self.invalidate_constant_state_bump = n,
            Counter::ConstantStateBumps => self.constant_state_bumps = n,
            Counter::BindingAllocations => self.binding_allocations = n,
            Counter::BindingSet => self.binding_set = n,
        }
    }

    /// Add `n` to counter `c`, saturating at the largest value.
    pub fn add(&mut self, c: Counter, n: usize)
        ensures
            final(self).value(c) as int == if old(self).value(c) as int + n <= u64::MAX {
                old(self).value(c) as int + n
            } else {
                u64::MAX as int
            },
            forall|d: Counter| d != c ==> final(self).value(d) == old(self).value(d),
    {
        let mut k: usize = 0;
        while k < n
            invariant
                k <= n,
                self.value(c) as int == if old(self).value(c) as int + k <= u64::MAX {
                    old(self).value(c) as int + k
                } else {
                    u64::MAX as int
                },
                forall|d: Counter| d != c ==> self.value(d) == old(self).value(d),
            decreases n - k,
        {
            self.incr(c);
            k = k + 1;
        }
    }
}

/// The statistics exported to the host when they are being collected.
#[derive(Clone, Copy, PartialEq, Eq, Structural, Debug)]
pub struct StatsDict {
    /// Bytes of code in the inline buffer.
    pub inline_code_size: usize,
    /// Bytes of code in the outlined buffer.
    pub outlined_code_size: usize,
    /// Whether the complete set of counters is available.
    pub all_stats: bool,
    pub counters: Counters,
}

/// Whether statistics are being collected.
pub fn rb_yjit_stats_enabled_p(options: &Options) -> (r: bool)
    ensures
        r == options.gen_stats,
{
    options.gen_stats
}

/// All statistics, or `None` when they are not being collected.
pub fn rb_yjit_gen_stats_dict(st: &JitState) -> (r: Option<StatsDict>)
    ensures
        r is None <==> !st.options.gen_stats,
        r matches Some(d) ==> d == (StatsDict {
            inline_code_size: st.cb.write_pos,
            outlined_code_size: st.ocb.write_pos,
            all_stats: true,
            counters: st.counters,
        }),
{
    if !st.options.gen_stats {
        return None;
    }
    Some(
        StatsDict {
            inline_code_size: st.cb.get_write_pos(),
            outlined_code_size: st.ocb.get_write_pos(),
            all_stats: true,
            counters: st.counters,
        },
    )
}

/// Zero out all the counters.
pub fn rb_yjit_reset_stats_bang(st: &mut JitState)
    requires
        old(st).wf(),
    ensures
        final(st).wf(),
        forall|c: Counter| final(st).counters.value(c) == 0,
        final(st).blocks == old(st).blocks,
        final(st).branches == old(st).branches,
        final(st).invariants == old(st).invariants,
        final(st).cb == old(st).cb,
        final(st).ocb == old(st).ocb,
        final(st).options == old(st).options,
{
    st.counters.reset();
}

/// Count an instruction executed by the interpreter.
pub fn rb_yjit_collect_vm_usage_insn(c: &mut Counters)
    ensures
        final(c).value(Counter::VmInsnsCount) == bumped(old(c).value(Counter::VmInsnsCount)),
        forall|d: Counter| d != Counter::VmInsnsCount ==> final(c).value(d) == old(c).value(d),
{
    c.incr(Counter::VmInsnsCount);
}

/// Count the allocation of a binding.
pub fn rb_yjit_collect_binding_alloc(c: &mut Counters)
    ensures
        final(c).value(Counter::BindingAllocations) == bumped(
            old(c).value(Counter::BindingAllocations),
        ),
        forall|d: Counter| d != Counter::BindingAllocations ==> final(c).value(d) == old(c).value(d),
{
    c.incr(Counter::BindingAllocations);
}

/// Count a local variable set through a binding.
pub fn rb_yjit_collect_binding_set(c: &mut Counters)
    ensures
        final(c).value(Counter::BindingSet) == bumped(old(c).value(Counter::BindingSet)),
        forall|d: Counter| d != Counter::BindingSet ==> final(c).value(d) == old(c).value(d),
{
    c.incr(Counter::BindingSet);
}

} // verus!
