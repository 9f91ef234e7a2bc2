//! The walk of the code generator over a bytecode region: it accumulates
//! the code of each instruction, tracks the context, and ends the block at a
//! terminator or at the first instruction that cannot be specialized, which
//! then leaves for the interpreter.
use vstd::prelude::*;
use crate::block::{BlockId, CompileError, JitState, EXIT_LEN, encode_exit, exit_bytes, padded_code, version_count};
use crate::codebuf::{JMP_LEN, encode_jmp, jmp_bytes, splice};
use crate::context::Context;

verus! {

/// Outcome of generating code for one instruction.
#[derive(Clone, Copy, PartialEq, Eq, Structural, Debug)]
pub enum CodegenStatus {
    /// Code was emitted; go on with the next instruction.
    KeepCompiling,
    /// The instruction cannot be specialized under the current context.
    CantCompile,
    /// Code was emitted and it ends the block (a jump, a branch, a return).
    EndBlock,
}

/// A block being generated.
#[derive(Debug)]
pub struct BlockGen {
    pub blockid: BlockId,
    /// Context at the block's entry.
    pub entry_ctx: Context,
    /// Context before the next instruction.
    pub ctx: Context,
    /// Index of the next instruction.
    pub insn_idx: u32,
    /// Code of the instructions generated so far.
    pub code: Vec<u8>,
    /// Instruction at which the block leaves for the interpreter, if one
    /// could not be compiled.
    pub exit_at: Option<u32>,
    /// Set once the block has ended.
    pub done: bool,
}

impl BlockGen {
    /// Start generating region `blockid` under `ctx`.
    pub fn new(blockid: BlockId, ctx: Context) -> (r: BlockGen)
        ensures
            r.blockid == blockid,
            r.entry_ctx@ == ctx@,
            r.ctx@ == ctx@,
            r.insn_idx == blockid.idx,
            r.code@.len() == 0,
            r.exit_at is None,
            !r.done,
    {
        let entry_ctx = ctx.duplicate();
        BlockGen { blockid, entry_ctx, ctx, insn_idx: blockid.idx, code: Vec::new(), exit_at: None, done: false }
    }

    /// Record what the generator did for the instruction at `insn_idx`,
    /// which is `insn_len` entries long: emitted `code`, after which the
    /// context is `ctx_after`; or could not compile it. Returns whether the
    /// block has ended.
    pub fn step(&mut self, status: CodegenStatus, code: &Vec<u8>, ctx_after: Context, insn_len: u32) -> (r: bool)
        requires
            !old(self).done,
            old(self).exit_at is None,
            old(self).insn_idx + insn_len <= u32::MAX,
        ensures
            r == final(self).done,
            final(self).blockid == old(self).blockid,
            final(self).entry_ctx@ == old(self).entry_ctx@,
            status == CodegenStatus::CantCompile ==> {
                &&& final(self).done
                &&& final(self).exit_at == Some(old(self).insn_idx)
                &&& final(self).code@ == old(self).code@
                &&& final(self).insn_idx == old(self).insn_idx
                &&& final(self).ctx@ == old(self).ctx@
            },
            status != CodegenStatus::CantCompile ==> {
                &&& final(self).done == (status == CodegenStatus::EndBlock)
                &&& final(self).exit_at is None
                &&& final(self).code@ == old(self).code@ + code@
                &&& final(self).insn_idx == old(self).insn_idx + insn_len
                &&& final(self).ctx@ == ctx_after@
            },
    {
        match status {
            CodegenStatus::CantCompile => {
                self.exit_at = Some(self.insn_idx);
                self.done = true;
            },
            _ => {
                let mut i: usize = 0;
                let ghost c0 = self.code@;
                while i < code.len()
                    invariant
                        i <= code@.len(),
                        self.code@ == c0 + code@.subrange(0, i as int),
                        self.blockid == old(self).blockid,
                        self.entry_ctx == old(self).entry_ctx,
                        self.ctx == old(self).ctx,
                        self.insn_idx == old(self).insn_idx,
                        self.exit_at == old(self).exit_at,
                        old(self).insn_idx + insn_len <= u32::MAX,
                    decreases code@.len() - i,
                {
                    self.code.push(code[i]);
                    i = i + 1;
                    assert(self.code@ =~= c0 + code@.subrange(0, i as int));
                }
                assert(code@.subrange(0, i as int) =~= code@);
                self.insn_idx = self.insn_idx + insn_len;
                self.ctx = ctx_after;
                self.done = status == CodegenStatus::EndBlock;
            },
        }
        self.done
    }
}

impl JitState {
    /// Emit code into the outlined buffer that resumes the interpreter at
    /// instruction `idx`; returns its position, or `None` if it does not
    /// fit.
    pub fn gen_side_exit(&mut self, idx: u32) -> (r: Option<usize>)
        requires
            old(self).wf(),
        ensures
            final(self).wf(),
            r is Some <==> old(self).ocb.write_pos + EXIT_LEN <= old(self).ocb.mem@.len(),
            r is None ==> *final(self) == *old(self),
            r matches Some(p) ==> {
                &&& p == old(self).ocb.write_pos
                &&& final(self).ocb.mem@ == splice(
                    old(self).ocb.mem@,
                    p as int,
                    exit_bytes(old(self).ocb.addr_of(p as int), idx, old(self).exit_addr as int),
                )
                &&& final(self).ocb.write_pos == p + EXIT_LEN
            },
            final(self).blocks == old(self).blocks,
            final(self).branches == old(self).branches,
            final(self).invariants == old(self).invariants,
            final(self).cb == old(self).cb,
            final(self).ocb.base == old(self).ocb.base,
            final(self).options == old(self).options,
            final(self).exit_addr == old(self).exit_addr,
    {
        if !self.ocb.has_capacity(EXIT_LEN) {
            return None;
        }
        let ghost s0 = *self;
        let p: usize = self.ocb.get_write_pos();
        let at: usize = self.ocb.get_write_addr();
        let code = encode_exit(at, idx, self.exit_addr);
        self.ocb.write_bytes(&code);
        proof {
            crate::block::lemma_append_keeps(s0.ocb.mem@, p as int, code@);
            assert forall|i: int| 0 <= i < self.blocks@.len() implies self.block_wf(
                #[trigger] self.blocks@[i],
            ) by {
                assert(s0.block_wf(s0.blocks@[i]));
                if let Some(q) = self.blocks@[i].entry_exit {
                    crate::block::lemma_slot_kept(s0.ocb.mem@, self.ocb.mem@, p as int, q as int);
                }
            }
            assert forall|m: int| 0 <= m < self.branches@.len() implies self.branch_wf(
                #[trigger] self.branches@[m],
            ) by {
                assert(s0.branch_wf(s0.branches@[m]));
            }
        }
        Some(p)
    }

    /// Add the block that generator `g` has ended. When an instruction could
    /// not be compiled, the block's code ends with a jump to a side exit at
    /// that instruction; when that was the first instruction there is no
    /// block. Otherwise as `add_block`.
    pub fn gen_finish(&mut self, g: BlockGen) -> (r: Result<usize, CompileError>)
        requires
            old(self).wf(),
            g.done,
            g.entry_ctx@.temps.len() < usize::MAX,
        ensures
            final(self).wf(),
            final(self).options == old(self).options,
            final(self).branches == old(self).branches,
            final(self).invariants == old(self).invariants,
            (r == Err::<usize, CompileError>(CompileError::EntryNotCompilable)) == (g.exit_at is Some
                && g.code@.len() == 0),
            r is Err ==> final(self).blocks@ == old(self).blocks@ && final(self).cb == old(self).cb,
            r is Ok <==> ({
                &&& !(g.exit_at is Some && g.code@.len() == 0)
                &&& version_count(old(self).blocks@, g.blockid) < old(self).options.max_versions
                &&& !(exists|i: int|
                    0 <= i < old(self).blocks@.len() && #[trigger] old(self).blocks@[i].live
                        && old(self).blocks@[i].blockid == g.blockid && old(self).blocks@[i].ctx@
                        == g.entry_ctx@)
                &&& g.exit_at is None ==> old(self).cb.write_pos + padded_code(g.code@).len()
                    <= old(self).cb.mem@.len()
                &&& g.exit_at is Some ==> old(self).cb.write_pos + g.code@.len() + JMP_LEN
                    <= old(self).cb.mem@.len() && old(self).ocb.write_pos + EXIT_LEN
                    <= old(self).ocb.mem@.len()
            }),
            r matches Ok(b) ==> {
                &&& b == old(self).blocks@.len()
                &&& final(self).blocks@.len() == b + 1
                &&& final(self).blocks@.subrange(0, b as int) == old(self).blocks@
                &&& final(self).blocks@[b as int].blockid == g.blockid
                &&& final(self).blocks@[b as int].ctx@ == g.entry_ctx@
                &&& final(self).blocks@[b as int].live
                &&& final(self).blocks@[b as int].start_pos == old(self).cb.write_pos
            },
            r matches Ok(b) ==> g.exit_at is None ==> {
                &&& final(self).blocks@[b as int].end_idx == g.insn_idx
                &&& final(self).cb.mem@ == splice(
                    old(self).cb.mem@,
                    old(self).cb.write_pos as int,
                    padded_code(g.code@),
                )
            },
            r matches Ok(b) ==> g.exit_at matches Some(i) ==> {
                &&& final(self).blocks@[b as int].end_idx == i
                &&& final(self).cb.mem@.subrange(
                    old(self).cb.write_pos as int,
                    old(self).cb.write_pos + g.code@.len(),
                ) == g.code@
                &&& final(self).cb.mem@.subrange(
                    old(self).cb.write_pos + g.code@.len(),
                    old(self).cb.write_pos + g.code@.len() + JMP_LEN,
                ) == jmp_bytes(
                    old(self).cb.addr_of(old(self).cb.write_pos + g.code@.len()),
                    final(self).ocb.addr_of(old(self).ocb.write_pos as int),
                )
                &&& final(self).ocb.mem@.subrange(
                    old(self).ocb.write_pos as int,
                    old(self).ocb.write_pos + EXIT_LEN,
                ) == exit_bytes(
                    old(self).ocb.addr_of(old(self).ocb.write_pos as int),
                    i,
                    old(self).exit_addr as int,
                )
            },
    {
        match g.exit_at {
            None => {
                let r = self.add_block(g.blockid, g.entry_ctx, g.insn_idx, &g.code);
                r
            },
            Some(i) => {
                if g.code.len() == 0 {
                    return Err(CompileError::EntryNotCompilable);
                }
                if !self.cb.has_capacity(g.code.len()) || self.cb.mem.len() - self.cb.write_pos - g.code.len() < JMP_LEN {
                    self.counters.incr(crate::stats::Counter::CompilationFailure);
                    return Err(CompileError::OutOfMemory);
                }
                let ghost s0 = *self;
                let exit = match self.gen_side_exit(i) {
                    Some(p) => p,
                    None => {
                        self.counters.incr(crate::stats::Counter::CompilationFailure);
                        return Err(CompileError::OutOfMemory);
                    },
                };
                let src: usize = self.cb.base + self.cb.write_pos + g.code.len();
                let dst: usize = self.ocb.base + exit;
                let jmp = encode_jmp(src, dst);
                let mut code = g.code;
                let ghost c0 = code@;
                let mut k: usize = 0;
                while k < jmp.len()
                    invariant
                        k <= jmp@.len(),
                        code@ == c0 + jmp@.subrange(0, k as int),
                    decreases jmp@.len() - k,
                {
                    code.push(jmp[k]);
                    k = k + 1;
                    assert(code@ =~= c0 + jmp@.subrange(0, k as int));
                }
                assert(jmp@.subrange(0, k as int) =~= jmp@);
                assert(padded_code(code@) == code@);
                let r = self.add_block(g.blockid, g.entry_ctx, i, &code);
                proof {
                    if r is Ok {
                        let w = s0.cb.write_pos as int;
                        let n = c0.len() as int;
                        assert(self.cb.mem@.subrange(w, w + n) =~= c0);
                        assert(self.cb.mem@.subrange(w + n, w + n + JMP_LEN) =~= jmp@);
                    }
                }
                r
            },
        }
    }
}

} // verus!
