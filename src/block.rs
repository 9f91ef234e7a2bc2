//! Compiled blocks, the version table and the compiler state that owns them.
use vstd::prelude::*;
use crate::codebuf::{CodeBlock, CODE_SPAN, JMP_LEN, jmp_bytes, splice, encode_jmp, byte_of};
use crate::context::{Context, CtxModel, ctx_generalizes, ctx_diff, ctx_generic, lemma_ctx_diff_zero, lemma_ctx_diff_self};
use crate::invariants::Invariants;
use crate::options::Options;
use crate::stats::{Counter, Counters};

verus! {

/// A bytecode region: the instruction sequence and the index of its first
/// instruction.
#[derive(Clone, Copy, PartialEq, Eq, Structural, Debug)]
pub struct BlockId {
    pub iseq: u64,
    pub idx: u32,
}

/// Opcode that loads a 32-bit immediate, used to hand an operand to a
/// routine of the host.
pub const MOV_IMM32: u8 = 0xB8;

/// Length of the code that leaves generated code for the interpreter.
pub const EXIT_LEN: usize = 10;

/// Little-endian bytes of a 32-bit value.
pub open spec fn le32(u: int) -> Seq<u8> {
    seq![byte_of(u, 0), byte_of(u, 1), byte_of(u, 2), byte_of(u, 3)]
}

/// Code placed at address `at` that resumes the interpreter at instruction
/// `idx`: it loads the instruction index and jumps to the host's routine at
/// `exit_addr`.
pub open spec fn exit_bytes(at: int, idx: u32, exit_addr: int) -> Seq<u8> {
    seq![MOV_IMM32] + le32(idx as int) + jmp_bytes(at + 5, exit_addr)
}

/// All code lies within one span: both buffers and the host's two routines
/// that generated code jumps to.
pub open spec fn code_window(
    cb_base: int,
    cb_size: int,
    ocb_base: int,
    ocb_size: int,
    exit_addr: int,
    stub_hit_addr: int,
) -> bool {
    let lo = min_int(min_int(cb_base, ocb_base), min_int(exit_addr, stub_hit_addr));
    let hi = max_int(max_int(cb_base + cb_size, ocb_base + ocb_size), max_int(exit_addr, stub_hit_addr));
    hi - lo <= CODE_SPAN
}

pub open spec fn min_int(a: int, b: int) -> int {
    if a <= b {
        a
    } else {
        b
    }
}

pub open spec fn max_int(a: int, b: int) -> int {
    if a >= b {
        a
    } else {
        b
    }
}

/// A compiled version of a bytecode region.
#[derive(Debug)]
pub struct Block {
    pub blockid: BlockId,
    /// The context the block was specialized for.
    pub ctx: Context,
    /// Index just past the last instruction the block covers.
    pub end_idx: u32,
    /// Range of its code in the inline buffer; the first jump-length bytes
    /// are its entry, which invalidation overwrites.
    pub start_pos: usize,
    pub end_pos: usize,
    /// Position in the outlined buffer of the code that leaves to the
    /// interpreter at the block's first instruction.
    pub entry_exit: Option<usize>,
    /// Cleared when the block is invalidated; the block itself stays in the
    /// arena so that stale references remain harmless.
    pub live: bool,
}

impl Block {
    /// A copy of the block with a different liveness and entry exit.
    fn with_state(&self, live: bool, entry_exit: Option<usize>) -> (r: Block)
        ensures
            r.blockid == self.blockid,
            r.ctx@ == self.ctx@,
            r.end_idx == self.end_idx,
            r.start_pos == self.start_pos,
            r.end_pos == self.end_pos,
            r.entry_exit == entry_exit,
            r.live == live,
    {
        Block {
            blockid: self.blockid,
            ctx: self.ctx.duplicate(),
            end_idx: self.end_idx,
            start_pos: self.start_pos,
            end_pos: self.end_pos,
            entry_exit,
            live,
        }
    }
}

/// An outgoing edge of a block: a jump in the block's code to the entry of
/// another block, or, until that block exists, to a stub that asks the host
/// to compile it.
#[derive(Debug)]
pub struct Branch {
    /// The block whose code holds the jump.
    pub src: usize,
    /// Position of the jump in the inline buffer.
    pub patch_pos: usize,
    /// Region and context of the target.
    pub target_id: BlockId,
    pub target_ctx: Context,
    /// The block the jump goes to once linked.
    pub target: Option<usize>,
    /// Position of the branch's stub in the outlined buffer, if one was
    /// emitted.
    pub stub_pos: Option<usize>,
}

impl Branch {
    /// A copy of the branch with a different target.
    pub fn with_target(&self, target: Option<usize>) -> (r: Branch)
        ensures
            r.src == self.src,
            r.patch_pos == self.patch_pos,
            r.target_id == self.target_id,
            r.target_ctx@ == self.target_ctx@,
            r.target == target,
            r.stub_pos == self.stub_pos,
    {
        Branch {
            src: self.src,
            patch_pos: self.patch_pos,
            target_id: self.target_id,
            target_ctx: self.target_ctx.duplicate(),
            target,
            stub_pos: self.stub_pos,
        }
    }
}

/// The jumps of two branches do not overlap.
pub open spec fn sites_disjoint(a: Branch, b: Branch) -> bool {
    a.patch_pos + JMP_LEN <= b.patch_pos || b.patch_pos + JMP_LEN <= a.patch_pos
}

/// Position `k` lies in the jump of branch `br`.
pub open spec fn in_site(br: Branch, k: int) -> bool {
    br.patch_pos <= k < br.patch_pos + JMP_LEN
}

/// Why a block could not be added.
#[derive(Clone, Copy, PartialEq, Eq, Structural, Debug)]
pub enum CompileError {
    /// The region already has the configured number of versions.
    VersionLimit,
    /// A live version with an equal context exists.
    DuplicateVersion,
    /// The code did not fit in a buffer.
    OutOfMemory,
    /// The first instruction of the region cannot be compiled.
    EntryNotCompilable,
}

/// Block `b` may serve a request for region `id` under context `c`.
pub open spec fn serves(b: Block, id: BlockId, c: CtxModel) -> bool {
    b.live && b.blockid == id && ctx_generalizes(b.ctx@, c)
}

/// Among the first `n` blocks, the first of those serving the request that
/// is closest to the requested context.
pub open spec fn best_version(bs: Seq<Block>, id: BlockId, c: CtxModel, n: int) -> Option<int>
    decreases n,
{
    if n <= 0 {
        None
    } else {
        let prev = best_version(bs, id, c, n - 1);
        let i = n - 1;
        if serves(bs[i], id, c) && (prev.is_none() || ctx_diff(bs[i].ctx@, c) < ctx_diff(
            bs[prev.unwrap()].ctx@,
            c,
        )) {
            Some(i)
        } else {
            prev
        }
    }
}

/// Indices of the live versions of `id` among the first `n` blocks.
pub open spec fn versions_upto(bs: Seq<Block>, id: BlockId, n: int) -> Seq<int>
    decreases n,
{
    if n <= 0 {
        Seq::empty()
    } else {
        let prev = versions_upto(bs, id, n - 1);
        if bs[n - 1].live && bs[n - 1].blockid == id {
            prev.push(n - 1)
        } else {
            prev
        }
    }
}

/// Indices of the live versions of `id`, in order of compilation.
pub open spec fn versions(bs: Seq<Block>, id: BlockId) -> Seq<int> {
    versions_upto(bs, id, bs.len() as int)
}

/// The number of live versions of `id`.
pub open spec fn version_count(bs: Seq<Block>, id: BlockId) -> nat {
    versions(bs, id).len()
}

/// The chosen version serves the request and no serving version is closer;
/// nothing is chosen only when nothing serves.
pub proof fn lemma_best_version(bs: Seq<Block>, id: BlockId, c: CtxModel, n: int)
    requires
        0 <= n <= bs.len(),
    ensures
        match best_version(bs, id, c, n) {
            Some(i) => 0 <= i < n && serves(bs[i], id, c) && forall|j: int|
                0 <= j < n && serves(#[trigger] bs[j], id, c) ==> ctx_diff(bs[i].ctx@, c)
                    <= ctx_diff(bs[j].ctx@, c),
            None => forall|j: int| 0 <= j < n ==> !serves(#[trigger] bs[j], id, c),
        },
    decreases n,
{
    if n > 0 {
        lemma_best_version(bs, id, c, n - 1);
    }
}

/// Blocks that are live versions in `b2` were live versions of the same
/// region in `b1`: the count of versions does not grow.
pub proof fn lemma_versions_shrink(b1: Seq<Block>, b2: Seq<Block>, id: BlockId, n: int)
    requires
        0 <= n <= b1.len(),
        b1.len() == b2.len(),
        forall|i: int|
            0 <= i < b1.len() && #[trigger] b2[i].live && b2[i].blockid == id ==> b1[i].live
                && b1[i].blockid == id,
    ensures
        versions_upto(b2, id, n).len() <= versions_upto(b1, id, n).len(),
    decreases n,
{
    if n > 0 {
        lemma_versions_shrink(b1, b2, id, n - 1);
    }
}

/// The versions are unchanged where liveness and regions are unchanged.
pub proof fn lemma_versions_same(b1: Seq<Block>, b2: Seq<Block>, id: BlockId, n: int)
    requires
        0 <= n <= b1.len(),
        0 <= n <= b2.len(),
        forall|i: int|
            0 <= i < n ==> (#[trigger] b2[i].live && b2[i].blockid == id) == (b1[i].live
                && b1[i].blockid == id),
    ensures
        versions_upto(b2, id, n) == versions_upto(b1, id, n),
    decreases n,
{
    if n > 0 {
        lemma_versions_same(b1, b2, id, n - 1);
    }
}

/// Encode the code that resumes the interpreter at instruction `idx`, to be
/// placed at address `at`.
pub fn encode_exit(at: usize, idx: u32, exit_addr: usize) -> (r: Vec<u8>)
    requires
        at + EXIT_LEN <= usize::MAX,
        crate::codebuf::near(at + 5, exit_addr as int),
    ensures
        r@ == exit_bytes(at as int, idx, exit_addr as int),
{
    assert(crate::codebuf::pow256(1) == 256 && crate::codebuf::pow256(2) == 65536
        && crate::codebuf::pow256(3) == 16777216) by {
        reveal_with_fuel(crate::codebuf::pow256, 4);
    }
    assert(crate::codebuf::pow256(0) == 1);
    let mut r: Vec<u8> = Vec::new();
    r.push(MOV_IMM32);
    r.push((idx % 256) as u8);
    r.push(((idx / 256) % 256) as u8);
    r.push(((idx / 65536) % 256) as u8);
    r.push(((idx / 16777216) % 256) as u8);
    let j = encode_jmp(at + 5, exit_addr);
    let mut k: usize = 0;
    while k < j.len()
        invariant
            k <= j@.len(),
            r@ == seq![MOV_IMM32] + le32(idx as int) + j@.subrange(0, k as int),
        decreases j@.len() - k,
    {
        r.push(j[k]);
        k = k + 1;
        assert(r@ =~= seq![MOV_IMM32] + le32(idx as int) + j@.subrange(0, k as int));
    }
    assert(j@.subrange(0, k as int) =~= j@);
    r
}

/// The state of the compiler: the arena of blocks (a block is named by its
/// index), the assumptions they rely on and the code buffers.
#[derive(Debug)]
pub struct JitState {
    pub blocks: Vec<Block>,
    pub invariants: Invariants,
    /// Buffer for the code of blocks.
    pub cb: CodeBlock,
    /// Buffer for cold code: exits to the interpreter and branch stubs.
    pub ocb: CodeBlock,
    pub options: Options,
    pub counters: Counters,
    /// Address of the host's routine that resumes the interpreter.
    pub exit_addr: usize,
    /// Outgoing edges of all blocks.
    pub branches: Vec<Branch>,
    /// Address of the host's routine that compiles the target of a stub.
    pub stub_hit_addr: usize,
}

impl JitState {
    pub open spec fn block_wf(&self, b: Block) -> bool {
        &&& b.start_pos + JMP_LEN <= b.end_pos
        &&& b.end_pos <= self.cb.write_pos
        &&& b.ctx@.temps.len() < usize::MAX
        &&& b.entry_exit matches Some(p) ==> p + EXIT_LEN <= self.ocb.write_pos
        &&& b.entry_exit matches Some(p) ==> self.ocb.mem@.subrange(p as int, p + EXIT_LEN)
            == exit_bytes(self.ocb.addr_of(p as int), b.blockid.idx, self.exit_addr as int)
    }

    pub open spec fn wf(&self) -> bool {
        &&& self.cb.wf()
        &&& self.ocb.wf()
        &&& code_window(
            self.cb.base as int,
            self.cb.mem@.len() as int,
            self.ocb.base as int,
            self.ocb.mem@.len() as int,
            self.exit_addr as int,
            self.stub_hit_addr as int,
        )
        &&& forall|i: int| 0 <= i < self.blocks@.len() ==> self.block_wf(#[trigger] self.blocks@[i])
        &&& forall|i: int, j: int|
            0 <= i < j < self.blocks@.len() ==> #[trigger] self.blocks@[i].end_pos
                <= #[trigger] self.blocks@[j].start_pos
        &&& forall|id: BlockId| #[trigger]
            version_count(self.blocks@, id) <= self.options.max_versions
        &&& forall|i: int, j: int|
            0 <= i < self.blocks@.len() && 0 <= j < self.blocks@.len() && i != j
                && #[trigger] self.blocks@[i].live && #[trigger] self.blocks@[j].live
                && self.blocks@[i].blockid == self.blocks@[j].blockid ==> self.blocks@[i].ctx@
                != self.blocks@[j].ctx@
        &&& self.invariants.refs_ok(self.blocks@)
        &&& self.branches_wf()
    }

    pub open spec fn branch_wf(&self, br: Branch) -> bool {
        &&& br.src < self.blocks@.len()
        &&& self.blocks@[br.src as int].start_pos + JMP_LEN <= br.patch_pos
        &&& br.patch_pos + JMP_LEN <= self.blocks@[br.src as int].end_pos
        &&& br.target matches Some(t) ==> {
            &&& t < self.blocks@.len()
            &&& self.blocks@[t as int].live
            &&& self.blocks@[t as int].entry_exit is Some
        }
        &&& br.stub_pos matches Some(p) ==> p + EXIT_LEN <= self.ocb.write_pos
    }

    pub open spec fn branches_wf(&self) -> bool {
        &&& forall|j: int| 0 <= j < self.branches@.len() ==> self.branch_wf(#[trigger] self.branches@[j])
        &&& forall|j: int, k: int|
            0 <= j < self.branches@.len() && 0 <= k < self.branches@.len() && j != k
                ==> sites_disjoint(#[trigger] self.branches@[j], #[trigger] self.branches@[k])
    }

    /// Block `b` has the code that leaves for the interpreter written over
    /// its entry.
    pub open spec fn entry_patched(&self, b: int) -> bool {
        let blk = self.blocks@[b];
        &&& blk.entry_exit is Some
        &&& self.cb.mem@.subrange(blk.start_pos as int, blk.start_pos + JMP_LEN) == jmp_bytes(
            self.cb.addr_of(blk.start_pos as int),
            self.ocb.addr_of(blk.entry_exit.unwrap() as int),
        )
    }

    /// Branch `j` no longer links to block `b`: its jump goes to the code
    /// that leaves for the interpreter at `b`'s entry.
    pub open spec fn link_redirected(&self, j: int, b: int) -> bool {
        let br = self.branches@[j];
        &&& br.target is None
        &&& self.blocks@[b].entry_exit is Some
        &&& self.cb.mem@.subrange(br.patch_pos as int, br.patch_pos + JMP_LEN) == jmp_bytes(
            self.cb.addr_of(br.patch_pos as int),
            self.ocb.addr_of(self.blocks@[b].entry_exit.unwrap() as int),
        )
    }

    /// Position `k` lies in the jump of a branch linked to block `b`.
    pub open spec fn in_incoming_site(&self, b: int, k: int) -> bool {
        exists|j: int|
            0 <= j < self.branches@.len() && (#[trigger] self.branches@[j]).target == Some(b as usize)
                && in_site(self.branches@[j], k)
    }

    /// A compiler with empty buffers of the given sizes at the given
    /// addresses, resuming the interpreter through `exit_addr` and compiling
    /// the targets of stubs through `stub_hit_addr`.
    pub fn new(
        options: Options,
        cb_base: usize,
        cb_size: usize,
        ocb_base: usize,
        ocb_size: usize,
        exit_addr: usize,
        stub_hit_addr: usize,
    ) -> (r: JitState)
        requires
            cb_base + cb_size + JMP_LEN <= usize::MAX,
            ocb_base + ocb_size + JMP_LEN <= usize::MAX,
            code_window(
                cb_base as int,
                cb_size as int,
                ocb_base as int,
                ocb_size as int,
                exit_addr as int,
                stub_hit_addr as int,
            ),
        ensures
            r.wf(),
            r.blocks@.len() == 0,
            r.branches@.len() == 0,
            r.options == options,
            r.cb.mem@.len() == cb_size,
            r.cb.base == cb_base,
            r.cb.write_pos == 0,
            r.ocb.mem@.len() == ocb_size,
            r.ocb.base == ocb_base,
            r.ocb.write_pos == 0,
            r.exit_addr == exit_addr,
            r.stub_hit_addr == stub_hit_addr,
            forall|c: Counter| r.counters.value(c) == 0,
            r.invariants.basic_operators.deps@.len() == 0,
            r.invariants.cme_validity.deps@.len() == 0,
            r.invariants.method_lookup.deps@.len() == 0,
            r.invariants.single_ractor.deps@.len() == 0,
            r.invariants.constant_state.deps@.len() == 0,
    {
        let r = JitState {
            blocks: Vec::new(),
            invariants: Invariants::init(),
            cb: CodeBlock::new(cb_base, cb_size),
            ocb: CodeBlock::new(ocb_base, ocb_size),
            options,
            counters: Counters::new(),
            exit_addr,
            branches: Vec::new(),
            stub_hit_addr,
        };
        assert forall|id: BlockId| #[trigger] version_count(r.blocks@, id) <= r.options.max_versions by {
            assert(versions(r.blocks@, id) =~= Seq::<int>::empty());
        }
        r
    }

    /// Whether block `b` is a live version.
    pub fn is_live(&self, b: usize) -> (r: bool)
        requires
            b < self.blocks@.len(),
        ensures
            r == self.blocks@[b as int].live,
    {
        self.blocks[b].live
    }

    /// The version to run for region `id` under context `ctx`: among the
    /// live versions whose context generalizes `ctx`, the closest one, the
    /// earliest compiled on a tie. `None` when no version serves.
    pub fn find_version(&self, id: BlockId, ctx: &Context) -> (r: Option<usize>)
        requires
            self.wf(),
        ensures
            r.is_some() == best_version(self.blocks@, id, ctx@, self.blocks@.len() as int).is_some(),
            r matches Some(i) ==> best_version(self.blocks@, id, ctx@, self.blocks@.len() as int)
                == Some(i as int),
    {
        let mut best: Option<usize> = None;
        let mut best_diff: usize = 0;
        let mut i: usize = 0;
        while i < self.blocks.len()
            invariant
                self.wf(),
                i <= self.blocks@.len(),
                best.is_some() == best_version(self.blocks@, id, ctx@, i as int).is_some(),
                best matches Some(k) ==> {
                    &&& best_version(self.blocks@, id, ctx@, i as int) == Some(k as int)
                    &&& best_diff == ctx_diff(self.blocks@[k as int].ctx@, ctx@)
                },
            decreases self.blocks@.len() - i,
        {
            proof {
                lemma_best_version(self.blocks@, id, ctx@, i as int);
            }
            let blk = &self.blocks[i];
            assert(self.block_wf(self.blocks@[i as int]));
            if blk.live && blk.blockid == id && blk.ctx.generalizes(ctx) {
                let d = blk.ctx.diff(ctx);
                match best {
                    None => {
                        best = Some(i);
                        best_diff = d;
                    },
                    Some(_) => {
                        if d < best_diff {
                            best = Some(i);
                            best_diff = d;
                        }
                    },
                }
            }
            i = i + 1;
        }
        best
    }

    /// Address of the entry of block `b`.
    pub fn entry_addr(&self, b: usize) -> (r: usize)
        requires
            self.wf(),
            b < self.blocks@.len(),
        ensures
            r == self.cb.addr_of(self.blocks@[b as int].start_pos as int),
    {
        assert(self.block_wf(self.blocks@[b as int]));
        self.cb.base + self.blocks[b].start_pos
    }

    /// Where to enter generated code for region `id` under `ctx`: the entry
    /// address of the version `find_version` picks, or `None` to interpret.
    pub fn lookup_entry(&self, id: BlockId, ctx: &Context) -> (r: Option<usize>)
        requires
            self.wf(),
        ensures
            r is Some == best_version(self.blocks@, id, ctx@, self.blocks@.len() as int) is Some,
            r matches Some(a) ==> a == self.cb.addr_of(
                self.blocks@[best_version(self.blocks@, id, ctx@, self.blocks@.len() as int).unwrap()].start_pos as int,
            ),
    {
        match self.find_version(id, ctx) {
            Some(b) => {
                proof {
                    lemma_best_version(self.blocks@, id, ctx@, self.blocks@.len() as int);
                }
                Some(self.entry_addr(b))
            },
            None => None,
        }
    }

    /// The live versions of region `id`, in order of compilation.
    pub fn versions_for(&self, id: BlockId) -> (r: Vec<usize>)
        ensures
            r@.len() == versions(self.blocks@, id).len(),
            forall|k: int| 0 <= k < r@.len() ==> r@[k] as int == versions(self.blocks@, id)[k],
    {
        let mut out: Vec<usize> = Vec::new();
        let mut i: usize = 0;
        while i < self.blocks.len()
            invariant
                i <= self.blocks@.len(),
                out@.len() == versions_upto(self.blocks@, id, i as int).len(),
                forall|k: int|
                    0 <= k < out@.len() ==> out@[k] as int == versions_upto(self.blocks@, id, i as int)[k],
            decreases self.blocks@.len() - i,
        {
            if self.blocks[i].live && self.blocks[i].blockid == id {
                out.push(i);
            }
            i = i + 1;
        }
        out
    }

    /// The number of live versions of region `id`.
    pub fn version_count(&self, id: BlockId) -> (r: usize)
        ensures
            r == version_count(self.blocks@, id),
    {
        let v = self.versions_for(id);
        v.len()
    }

    /// Whether a live version of region `id` has exactly context `ctx`.
    pub fn has_exact_version(&self, id: BlockId, ctx: &Context) -> (r: bool)
        ensures
            r == exists|i: int|
                0 <= i < self.blocks@.len() && #[trigger] self.blocks@[i].live
                    && self.blocks@[i].blockid == id && self.blocks@[i].ctx@ == ctx@,
    {
        let mut i: usize = 0;
        while i < self.blocks.len()
            invariant
                i <= self.blocks@.len(),
                forall|j: int|
                    0 <= j < i ==> !(#[trigger] self.blocks@[j].live && self.blocks@[j].blockid == id
                        && self.blocks@[j].ctx@ == ctx@),
            decreases self.blocks@.len() - i,
        {
            let blk = &self.blocks[i];
            if blk.live && blk.blockid == id && blk.ctx.same_as(ctx) {
                return true;
            }
            i = i + 1;
        }
        false
    }

    /// Add a block compiled for region `id` under `ctx`, covering the
    /// instructions up to `end_idx`, whose code is `code`; code shorter than
    /// a jump is padded so that its entry can later be patched. Fails when
    /// the region has its maximum number of versions, when a version with
    /// the same context is live, or when the code does not fit; a failed
    /// compilation leaves no trace in the buffers or the table.
    pub fn add_block(&mut self, id: BlockId, ctx: Context, end_idx: u32, code: &Vec<u8>) -> (r:
        Result<usize, CompileError>)
        requires
            old(self).wf(),
            ctx@.temps.len() < usize::MAX,
        ensures
            final(self).wf(),
            final(self).options == old(self).options,
            final(self).exit_addr == old(self).exit_addr,
            final(self).ocb == old(self).ocb,
            final(self).invariants == old(self).invariants,
            final(self).cb.base == old(self).cb.base,
            final(self).branches == old(self).branches,
            final(self).stub_hit_addr == old(self).stub_hit_addr,
            (r == Err::<usize, CompileError>(CompileError::VersionLimit)) == (version_count(
                old(self).blocks@,
                id,
            ) >= old(self).options.max_versions),
            (r == Err::<usize, CompileError>(CompileError::DuplicateVersion)) == (version_count(
                old(self).blocks@,
                id,
            ) < old(self).options.max_versions && exists|i: int|
                0 <= i < old(self).blocks@.len() && #[trigger] old(self).blocks@[i].live
                    && old(self).blocks@[i].blockid == id && old(self).blocks@[i].ctx@ == ctx@),
            r is Err ==> final(self).blocks@ == old(self).blocks@ && final(self).cb == old(self).cb,
            r != Err::<usize, CompileError>(CompileError::EntryNotCompilable),
            r == Err::<usize, CompileError>(CompileError::OutOfMemory) ==> old(self).cb.write_pos
                + padded_code(code@).len() > old(self).cb.mem@.len(),
            r matches Ok(b) ==> {
                &&& b == old(self).blocks@.len()
                &&& final(self).blocks@.len() == b + 1
                &&& final(self).blocks@.subrange(0, b as int) == old(self).blocks@
                &&& final(self).blocks@[b as int].blockid == id
                &&& final(self).blocks@[b as int].ctx@ == ctx@
                &&& final(self).blocks@[b as int].end_idx == end_idx
                &&& final(self).blocks@[b as int].live
                &&& final(self).blocks@[b as int].entry_exit is None
                &&& final(self).blocks@[b as int].start_pos == old(self).cb.write_pos
                &&& final(self).cb.mem@ == splice(
                    old(self).cb.mem@,
                    old(self).cb.write_pos as int,
                    padded_code(code@),
                )
                &&& final(self).cb.write_pos == old(self).cb.write_pos + padded_code(code@).len()
            },
            r is Ok <==> (version_count(old(self).blocks@, id) < old(self).options.max_versions
                && !(exists|i: int|
                0 <= i < old(self).blocks@.len() && #[trigger] old(self).blocks@[i].live
                    && old(self).blocks@[i].blockid == id && old(self).blocks@[i].ctx@ == ctx@)
                && old(self).cb.write_pos + padded_code(code@).len() <= old(self).cb.mem@.len()),
    {
        if self.version_count(id) >= self.options.max_versions {
            return Err(CompileError::VersionLimit);
        }
        if self.has_exact_version(id, &ctx) {
            return Err(CompileError::DuplicateVersion);
        }
        let bytes = pad_code(code);
        if !self.cb.has_capacity(bytes.len()) {
            self.counters.incr(Counter::CompilationFailure);
            return Err(CompileError::OutOfMemory);
        }
        let ghost old_blocks = self.blocks@;
        let start: usize = self.cb.get_write_pos();
        self.cb.write_bytes(&bytes);
        let end: usize = self.cb.get_write_pos();
        let b: usize = self.blocks.len();
        self.blocks.push(
            Block {
                blockid: id,
                ctx,
                end_idx,
                start_pos: start,
                end_pos: end,
                entry_exit: None,
                live: true,
            },
        );
        self.counters.incr(Counter::CompiledBlockCount);
        proof {
            let bs = self.blocks@;
            assert(bs.subrange(0, b as int) =~= old_blocks);
            assert forall|i: int| 0 <= i < bs.len() implies self.block_wf(#[trigger] bs[i]) by {
                if i < b {
                    assert(bs[i] == old_blocks[i]);
                    assert(old(self).block_wf(old_blocks[i]));
                }
            }
            assert forall|x: BlockId| #[trigger] version_count(bs, x) <= self.options.max_versions by {
                lemma_versions_same(old_blocks, bs, x, b as int);
                assert(version_count(old_blocks, x) <= self.options.max_versions);
            }
            assert forall|i: int, j: int|
                0 <= i < bs.len() && 0 <= j < bs.len() && i != j && #[trigger] bs[i].live
                    && #[trigger] bs[j].live && bs[i].blockid == bs[j].blockid implies bs[i].ctx@
                != bs[j].ctx@ by {
                if i < b && j < b {
                    assert(old_blocks[i] == bs[i] && old_blocks[j] == bs[j]);
                } else if i == b {
                    assert(old_blocks[j] == bs[j]);
                } else {
                    assert(old_blocks[i] == bs[i]);
                }
            }
            assert forall|i: int, j: int| 0 <= i < j < bs.len() implies #[trigger] bs[i].end_pos
                <= #[trigger] bs[j].start_pos by {
                if j < b {
                    assert(old_blocks[i] == bs[i] && old_blocks[j] == bs[j]);
                } else {
                    assert(old_blocks[i] == bs[i]);
                    assert(old(self).block_wf(old_blocks[i]));
                }
            }
            let inv = self.invariants;
            crate::invariants::lemma_deps_ok_kept(inv.basic_operators.deps@, old_blocks, bs);
            crate::invariants::lemma_deps_ok_kept(inv.cme_validity.deps@, old_blocks, bs);
            crate::invariants::lemma_deps_ok_kept(inv.method_lookup.deps@, old_blocks, bs);
            crate::invariants::lemma_deps_ok_kept(inv.single_ractor.deps@, old_blocks, bs);
            crate::invariants::lemma_deps_ok_kept(inv.constant_state.deps@, old_blocks, bs);
        }
        Ok(b)
    }

    /// Make sure block `b` has code that leaves for the interpreter at its
    /// first instruction, emitting it into the outlined buffer if needed.
    /// Returns whether the block has it; false only when the outlined buffer
    /// is full.
    pub fn ensure_entry_exit(&mut self, b: usize) -> (r: bool)
        requires
            old(self).wf(),
            b < old(self).blocks@.len(),
        ensures
            final(self).wf(),
            r == final(self).blocks@[b as int].entry_exit is Some,
            r == (old(self).blocks@[b as int].entry_exit is Some || old(self).ocb.write_pos + EXIT_LEN
                <= old(self).ocb.mem@.len()),
            !r ==> *final(self) == *old(self),
            old(self).blocks@[b as int].entry_exit is Some ==> *final(self) == *old(self),
            final(self).blocks@.len() == old(self).blocks@.len(),
            forall|i: int|
                0 <= i < old(self).blocks@.len() && i != b ==> #[trigger] final(self).blocks@[i]
                    == old(self).blocks@[i],
            final(self).blocks@[b as int].blockid == old(self).blocks@[b as int].blockid,
            final(self).blocks@[b as int].ctx@ == old(self).blocks@[b as int].ctx@,
            final(self).blocks@[b as int].start_pos == old(self).blocks@[b as int].start_pos,
            final(self).blocks@[b as int].end_pos == old(self).blocks@[b as int].end_pos,
            final(self).blocks@[b as int].end_idx == old(self).blocks@[b as int].end_idx,
            final(self).blocks@[b as int].live == old(self).blocks@[b as int].live,
            final(self).cb == old(self).cb,
            final(self).ocb.base == old(self).ocb.base,
            final(self).invariants == old(self).invariants,
            final(self).options == old(self).options,
            final(self).exit_addr == old(self).exit_addr,
            final(self).branches == old(self).branches,
            final(self).stub_hit_addr == old(self).stub_hit_addr,
            only_exit_added(*old(self), *final(self), b as int),
            old(self).blocks@[b as int].entry_exit is None && r ==> {
                &&& final(self).blocks@[b as int].entry_exit == Some(old(self).ocb.write_pos)
                &&& final(self).ocb.mem@ == splice(
                    old(self).ocb.mem@,
                    old(self).ocb.write_pos as int,
                    exit_bytes(
                        old(self).ocb.addr_of(old(self).ocb.write_pos as int),
                        old(self).blocks@[b as int].blockid.idx,
                        old(self).exit_addr as int,
                    ),
                )
            },
    {
        if self.blocks[b].entry_exit.is_some() {
            return true;
        }
        if !self.ocb.has_capacity(EXIT_LEN) {
            return false;
        }
        let ghost old_blocks = self.blocks@;
        let pos: usize = self.ocb.get_write_pos();
        let at: usize = self.ocb.get_write_addr();
        let code = encode_exit(at, self.blocks[b].blockid.idx, self.exit_addr);
        self.ocb.write_bytes(&code);
        let nb = self.blocks[b].with_state(self.blocks[b].live, Some(pos));
        self.blocks.set(b, nb);
        proof {
            let bs = self.blocks@;
            lemma_append_keeps(old(self).ocb.mem@, pos as int, code@);
            assert(self.ocb.mem@.subrange(pos as int, pos + EXIT_LEN) =~= code@);
            assert forall|i: int| 0 <= i < bs.len() implies self.block_wf(#[trigger] bs[i]) by {
                assert(old(self).block_wf(old_blocks[i]));
                if i != b {
                    if let Some(q) = bs[i].entry_exit {
                        lemma_slot_kept(old(self).ocb.mem@, self.ocb.mem@, pos as int, q as int);
                    }
                }
            }
            assert forall|x: BlockId| #[trigger] version_count(bs, x) <= self.options.max_versions by {
                lemma_versions_same(old_blocks, bs, x, bs.len() as int);
                assert(version_count(old_blocks, x) <= self.options.max_versions);
            }
            assert forall|i: int, j: int|
                0 <= i < bs.len() && 0 <= j < bs.len() && i != j && #[trigger] bs[i].live
                    && #[trigger] bs[j].live && bs[i].blockid == bs[j].blockid implies bs[i].ctx@
                != bs[j].ctx@ by {
                assert(old_blocks[i].live && old_blocks[j].live);
            }
            assert forall|i: int, j: int| 0 <= i < j < bs.len() implies #[trigger] bs[i].end_pos
                <= #[trigger] bs[j].start_pos by {
                assert(old_blocks[i].end_pos <= old_blocks[j].start_pos);
            }
            let inv = self.invariants;
            crate::invariants::lemma_deps_ok_kept(inv.basic_operators.deps@, old_blocks, bs);
            crate::invariants::lemma_deps_ok_kept(inv.cme_validity.deps@, old_blocks, bs);
            crate::invariants::lemma_deps_ok_kept(inv.method_lookup.deps@, old_blocks, bs);
            crate::invariants::lemma_deps_ok_kept(inv.single_ractor.deps@, old_blocks, bs);
            crate::invariants::lemma_deps_ok_kept(inv.constant_state.deps@, old_blocks, bs);
        }
        true
    }

    /// Mark live block `b` dead, once no dependency record and no branch
    /// refers to it.
    fn mark_dead(&mut self, b: usize)
        requires
            old(self).wf(),
            b < old(self).blocks@.len(),
            old(self).invariants.no_record_of(b),
            forall|j: int|
                0 <= j < old(self).branches@.len() ==> (#[trigger] old(self).branches@[j]).target
                    != Some(b),
        ensures
            final(self).wf(),
            final(self).blocks@.len() == old(self).blocks@.len(),
            forall|i: int|
                0 <= i < old(self).blocks@.len() && i != b ==> #[trigger] final(self).blocks@[i]
                    == old(self).blocks@[i],
            !final(self).blocks@[b as int].live,
            final(self).blocks@[b as int].blockid == old(self).blocks@[b as int].blockid,
            final(self).blocks@[b as int].ctx@ == old(self).blocks@[b as int].ctx@,
            final(self).blocks@[b as int].start_pos == old(self).blocks@[b as int].start_pos,
            final(self).blocks@[b as int].end_pos == old(self).blocks@[b as int].end_pos,
            final(self).blocks@[b as int].entry_exit == old(self).blocks@[b as int].entry_exit,
            final(self).invariants == old(self).invariants,
            final(self).branches == old(self).branches,
            final(self).cb == old(self).cb,
            final(self).ocb == old(self).ocb,
            final(self).options == old(self).options,
            final(self).exit_addr == old(self).exit_addr,
            final(self).stub_hit_addr == old(self).stub_hit_addr,
            final(self).counters == old(self).counters,
    {
        let ghost old_blocks = self.blocks@;
        let exit = self.blocks[b].entry_exit;
        let nb = self.blocks[b].with_state(false, exit);
        self.blocks.set(b, nb);
        proof {
            let bs = self.blocks@;
            assert forall|i: int| 0 <= i < bs.len() implies self.block_wf(#[trigger] bs[i]) by {
                assert(old(self).block_wf(old_blocks[i]));
            }
            assert forall|x: BlockId| #[trigger] version_count(bs, x) <= self.options.max_versions by {
                lemma_versions_shrink(old_blocks, bs, x, bs.len() as int);
                assert(version_count(old_blocks, x) <= self.options.max_versions);
            }
            assert forall|i: int, j: int|
                0 <= i < bs.len() && 0 <= j < bs.len() && i != j && #[trigger] bs[i].live
                    && #[trigger] bs[j].live && bs[i].blockid == bs[j].blockid implies bs[i].ctx@
                != bs[j].ctx@ by {
                assert(old_blocks[i].live && old_blocks[j].live);
            }
            assert forall|i: int, j: int| 0 <= i < j < bs.len() implies #[trigger] bs[i].end_pos
                <= #[trigger] bs[j].start_pos by {
                assert(old_blocks[i].end_pos <= old_blocks[j].start_pos);
            }
            assert forall|m: int| 0 <= m < self.branches@.len() implies self.branch_wf(
                #[trigger] self.branches@[m],
            ) by {
                assert(old(self).branch_wf(self.branches@[m]));
            }
            crate::invariants::lemma_refs_ok_without(self.invariants, old_blocks, bs, b);
        }
    }

    /// Write over the entry of block `b` a jump to its exit at `p`.
    fn patch_entry(&mut self, b: usize, p: usize)
        requires
            old(self).wf(),
            b < old(self).blocks@.len(),
            old(self).blocks@[b as int].entry_exit == Some(p),
        ensures
            final(self).wf(),
            final(self).entry_patched(b as int),
            final(self).cb.mem@ == splice(
                old(self).cb.mem@,
                old(self).blocks@[b as int].start_pos as int,
                jmp_bytes(
                    old(self).cb.addr_of(old(self).blocks@[b as int].start_pos as int),
                    old(self).ocb.addr_of(p as int),
                ),
            ),
            final(self).cb.write_pos == old(self).cb.write_pos,
            final(self).cb.base == old(self).cb.base,
            final(self).cb.dropped_bytes == old(self).cb.dropped_bytes,
            final(self).blocks == old(self).blocks,
            final(self).invariants == old(self).invariants,
            final(self).branches == old(self).branches,
            final(self).ocb == old(self).ocb,
            final(self).options == old(self).options,
            final(self).exit_addr == old(self).exit_addr,
            final(self).stub_hit_addr == old(self).stub_hit_addr,
            final(self).counters == old(self).counters,
    {
        let start: usize = self.blocks[b].start_pos;
        assert(self.block_wf(self.blocks@[b as int]));
        let dst: usize = self.ocb.base + p;
        self.cb.patch_jmp(start, dst);
        proof {
            assert(self.cb.mem@.subrange(start as int, start + JMP_LEN) =~= jmp_bytes(
                self.cb.addr_of(start as int),
                dst as int,
            ));
            assert forall|i: int| 0 <= i < self.blocks@.len() implies self.block_wf(
                #[trigger] self.blocks@[i],
            ) by {
                assert(old(self).block_wf(old(self).blocks@[i]));
            }
            assert forall|m: int| 0 <= m < self.branches@.len() implies self.branch_wf(
                #[trigger] self.branches@[m],
            ) by {
                assert(old(self).branch_wf(self.branches@[m]));
            }
        }
    }

    /// Redirect every branch linked to block `b` to the code that leaves for
    /// the interpreter at `b`'s entry, and mark it unlinked.
    pub fn unlink_incoming(&mut self, b: usize)
        requires
            old(self).wf(),
            b < old(self).blocks@.len(),
            old(self).blocks@[b as int].entry_exit is Some,
        ensures
            final(self).wf(),
            final(self).blocks == old(self).blocks,
            final(self).invariants == old(self).invariants,
            final(self).ocb == old(self).ocb,
            final(self).options == old(self).options,
            final(self).exit_addr == old(self).exit_addr,
            final(self).stub_hit_addr == old(self).stub_hit_addr,
            final(self).counters == old(self).counters,
            final(self).cb.base == old(self).cb.base,
            final(self).cb.write_pos == old(self).cb.write_pos,
            final(self).cb.mem@.len() == old(self).cb.mem@.len(),
            final(self).branches@.len() == old(self).branches@.len(),
            forall|j: int|
                0 <= j < final(self).branches@.len() ==> (#[trigger] final(self).branches@[j]).target
                    != Some(b),
            forall|j: int|
                0 <= j < old(self).branches@.len() ==> (#[trigger] final(self).branches@[j]).patch_pos
                    == old(self).branches@[j].patch_pos,
            forall|j: int|
                0 <= j < old(self).branches@.len() && (#[trigger] old(self).branches@[j]).target
                    == Some(b) ==> final(self).link_redirected(j, b as int),
            forall|j: int|
                0 <= j < old(self).branches@.len() && (#[trigger] old(self).branches@[j]).target
                    != Some(b) ==> final(self).branches@[j] == old(self).branches@[j],
            forall|k: int|
                0 <= k < old(self).cb.mem@.len() && !old(self).in_incoming_site(b as int, k)
                    ==> #[trigger] final(self).cb.mem@[k] == old(self).cb.mem@[k],
    {
        let p: usize = self.blocks[b].entry_exit.unwrap();
        assert(self.block_wf(self.blocks@[b as int]));
        let dst: usize = self.ocb.base + p;
        let mut j: usize = 0;
        while j < self.branches.len()
            invariant
                self.wf(),
                j <= self.branches@.len(),
                b < self.blocks@.len(),
                self.blocks == old(self).blocks,
                self.invariants == old(self).invariants,
                self.ocb == old(self).ocb,
                self.options == old(self).options,
                self.exit_addr == old(self).exit_addr,
                self.stub_hit_addr == old(self).stub_hit_addr,
                self.counters == old(self).counters,
                self.cb.base == old(self).cb.base,
                self.cb.write_pos == old(self).cb.write_pos,
                self.cb.mem@.len() == old(self).cb.mem@.len(),
                self.branches@.len() == old(self).branches@.len(),
                dst == self.ocb.addr_of(p as int),
                self.blocks@[b as int].entry_exit == Some(p),
                forall|m: int|
                    0 <= m < self.branches@.len() ==> #[trigger] self.branches@[m].patch_pos
                        == old(self).branches@[m].patch_pos,
                forall|m: int|
                    0 <= m < j && (#[trigger] old(self).branches@[m]).target == Some(b)
                        ==> self.link_redirected(m, b as int),
                forall|m: int|
                    0 <= m < self.branches@.len() && (j <= m || (#[trigger] old(self).branches@[m]).target
                        != Some(b)) ==> self.branches@[m] == old(self).branches@[m],
                forall|k: int|
                    0 <= k < old(self).cb.mem@.len() && !old(self).in_incoming_site(b as int, k)
                        ==> #[trigger] self.cb.mem@[k] == old(self).cb.mem@[k],
            decreases self.branches@.len() - j,
        {
            let linked: bool = match self.branches[j].target {
                Some(t) => t == b,
                None => false,
            };
            if linked {
                let site: usize = self.branches[j].patch_pos;
                assert(self.branch_wf(self.branches@[j as int]));
                let ghost src = self.branches@[j as int].src;
                assert(self.block_wf(self.blocks@[src as int]));
                let ghost before = *self;
                self.cb.patch_jmp(site, dst);
                let nb = self.branches[j].with_target(None);
                self.branches.set(j, nb);
                proof {
                    assert(self.cb.mem@.subrange(site as int, site + JMP_LEN) =~= jmp_bytes(
                        self.cb.addr_of(site as int),
                        dst as int,
                    ));
                    assert forall|m: int|
                        0 <= m < j + 1 && (#[trigger] old(self).branches@[m]).target == Some(b)
                            implies self.link_redirected(m, b as int) by {
                        if m < j {
                            assert(before.link_redirected(m, b as int));
                            assert(sites_disjoint(before.branches@[m], before.branches@[j as int]));
                            let pm = before.branches@[m].patch_pos as int;
                            assert(self.cb.mem@.subrange(pm, pm + JMP_LEN) =~= before.cb.mem@.subrange(
                                pm,
                                pm + JMP_LEN,
                            ));
                        }
                    }
                    assert forall|k: int|
                        0 <= k < old(self).cb.mem@.len() && !old(self).in_incoming_site(b as int, k)
                            implies #[trigger] self.cb.mem@[k] == old(self).cb.mem@[k] by {
                        if site <= k < site + JMP_LEN {
                            assert(old(self).branches@[j as int].target == Some(b));
                            assert(crate::block::in_site(old(self).branches@[j as int], k));
                        }
                    }
                    assert forall|m: int| 0 <= m < self.branches@.len() implies self.branch_wf(
                        #[trigger] self.branches@[m],
                    ) by {
                        assert(before.branch_wf(before.branches@[m]));
                    }
                    assert forall|m: int, n: int|
                        0 <= m < self.branches@.len() && 0 <= n < self.branches@.len() && m != n
                            implies sites_disjoint(
                            #[trigger] self.branches@[m],
                            #[trigger] self.branches@[n],
                        ) by {
                        assert(sites_disjoint(before.branches@[m], before.branches@[n]));
                    }
                    assert forall|i: int| 0 <= i < self.blocks@.len() implies self.block_wf(
                        #[trigger] self.blocks@[i],
                    ) by {
                        assert(before.block_wf(before.blocks@[i]));
                    }
                }
            }
            j = j + 1;
        }
        proof {
            assert forall|m: int| 0 <= m < self.branches@.len() implies (
            #[trigger] self.branches@[m]).target != Some(b) by {
                if old(self).branches@[m].target == Some(b) {
                    assert(self.link_redirected(m, b as int));
                }
            }
        }
    }

    /// Invalidate block `b`: take it out of the version table and out of
    /// every dependency map, and write over its entry a jump to the code that
    /// leaves for the interpreter. Its code is not reclaimed, since execution
    /// may still be inside it. Invalidating a dead block changes nothing.
    pub fn invalidate_block(&mut self, b: usize)
        requires
            old(self).wf(),
            b < old(self).blocks@.len(),
        ensures
            final(self).wf(),
            !final(self).blocks@[b as int].live,
            !old(self).blocks@[b as int].live ==> *final(self) == *old(self),
            final(self).blocks@.len() == old(self).blocks@.len(),
            forall|i: int|
                0 <= i < old(self).blocks@.len() && i != b ==> #[trigger] final(self).blocks@[i]
                    == old(self).blocks@[i],
            final(self).blocks@[b as int].blockid == old(self).blocks@[b as int].blockid,
            final(self).blocks@[b as int].ctx@ == old(self).blocks@[b as int].ctx@,
            final(self).blocks@[b as int].start_pos == old(self).blocks@[b as int].start_pos,
            final(self).blocks@[b as int].end_pos == old(self).blocks@[b as int].end_pos,
            old(self).blocks@[b as int].entry_exit is Some ==> final(self).blocks@[b as int].entry_exit
                == old(self).blocks@[b as int].entry_exit,
            old(self).blocks@[b as int].live && final(self).blocks@[b as int].entry_exit is Some
                ==> final(self).entry_patched(b as int),
            final(self).cb.mem@.len() == old(self).cb.mem@.len(),
            final(self).cb.write_pos == old(self).cb.write_pos,
            final(self).cb.base == old(self).cb.base,
            final(self).ocb.base == old(self).ocb.base,
            forall|k: int|
                0 <= k < old(self).cb.mem@.len() && !(old(self).blocks@[b as int].start_pos <= k
                    < old(self).blocks@[b as int].start_pos + JMP_LEN) && !old(self).in_incoming_site(
                    b as int,
                    k,
                ) ==> #[trigger] final(self).cb.mem@[k] == old(self).cb.mem@[k],
            forall|j: int|
                0 <= j < old(self).branches@.len() && (#[trigger] old(self).branches@[j]).target
                    == Some(b) ==> final(self).link_redirected(j, b as int),
            forall|j: int|
                0 <= j < old(self).branches@.len() && (#[trigger] old(self).branches@[j]).target
                    != Some(b) ==> final(self).branches@[j] == old(self).branches@[j],
            final(self).branches@.len() == old(self).branches@.len(),
            forall|j: int|
                0 <= j < old(self).branches@.len() ==> (#[trigger] final(self).branches@[j]).patch_pos
                    == old(self).branches@[j].patch_pos,
            final(self).stub_hit_addr == old(self).stub_hit_addr,
            final(self).options == old(self).options,
            final(self).exit_addr == old(self).exit_addr,
            final(self).invariants.basic_operators.deps@ == old(self).invariants.basic_operators.deps@.filter(
                crate::invariants::block_other(b),
            ),
            final(self).invariants.cme_validity.deps@ == old(self).invariants.cme_validity.deps@.filter(
                crate::invariants::block_other(b),
            ),
            final(self).invariants.method_lookup.deps@ == old(self).invariants.method_lookup.deps@.filter(
                crate::invariants::block_other(b),
            ),
            final(self).invariants.single_ractor.deps@ == old(self).invariants.single_ractor.deps@.filter(
                crate::invariants::block_other(b),
            ),
            final(self).invariants.constant_state.deps@ == old(self).invariants.constant_state.deps@.filter(
                crate::invariants::block_other(b),
            ),
    {
        if !self.blocks[b].live {
            proof {
                let o = self.invariants;
                crate::invariants::lemma_deps_ok_dead(o.basic_operators.deps@, self.blocks@, b);
                crate::invariants::lemma_deps_ok_dead(o.cme_validity.deps@, self.blocks@, b);
                crate::invariants::lemma_deps_ok_dead(o.method_lookup.deps@, self.blocks@, b);
                crate::invariants::lemma_deps_ok_dead(o.single_ractor.deps@, self.blocks@, b);
                crate::invariants::lemma_deps_ok_dead(o.constant_state.deps@, self.blocks@, b);
            }
            return;
        }
        proof {
            crate::invariants::lemma_refs_ok_filter(
                self.invariants,
                self.blocks@,
                crate::invariants::block_other(b),
            );
        }
        self.invariants.remove_block(b);
        proof {
            crate::invariants::lemma_no_record_after_remove(old(self).invariants, self.invariants, b);
        }
        self.ensure_entry_exit(b);
        let exit = self.blocks[b].entry_exit;
        let ghost pre_unlink = *self;
        match exit {
            Some(_) => {
                self.unlink_incoming(b);
            },
            None => {},
        }
        let ghost unlinked = *self;
        self.mark_dead(b);
        match exit {
            Some(p) => {
                self.patch_entry(b, p);
                proof {
                    assert forall|j: int|
                        0 <= j < old(self).branches@.len() && (#[trigger] old(self).branches@[j]).target
                            == Some(b) implies self.link_redirected(j, b as int) by {
                        assert(pre_unlink.branches@[j] == old(self).branches@[j]);
                        assert(unlinked.link_redirected(j, b as int));
                        let br = unlinked.branches@[j];
                        lemma_site_outside_entry(unlinked, j, b as int);
                        let pj = br.patch_pos as int;
                        assert(self.cb.mem@.subrange(pj, pj + JMP_LEN) =~= unlinked.cb.mem@.subrange(
                            pj,
                            pj + JMP_LEN,
                        ));
                    }
                }
            },
            None => {},
        }
        self.counters.incr(Counter::InvalidationCount);
    }

    /// One step of `invalidate_blocks` keeps its facts about branches.
    proof fn lemma_sweep_branches(&self, before: JitState, orig: JitState, list: Seq<usize>, i: int)
        requires
            before.wf(),
            0 <= i < list.len(),
            list[i] < before.blocks@.len(),
            before.branches@.len() == orig.branches@.len(),
            forall|k: int| 0 <= k < i ==> !before.blocks@[#[trigger] list[k] as int].live,
            forall|k: int| 0 <= k < list.len() ==> #[trigger] list[k] < orig.blocks@.len(),
            before.blocks@.len() == orig.blocks@.len(),
            forall|j: int|
                0 <= j < orig.branches@.len() && ((#[trigger] orig.branches@[j]).target is None
                    || !list.subrange(0, i).contains(orig.branches@[j].target.unwrap()))
                    ==> before.branches@[j] == orig.branches@[j],
            forall|k: int, j: int|
                0 <= k < i && 0 <= j < orig.branches@.len() && #[trigger] orig.branches@[j].target
                    == Some(#[trigger] list[k]) ==> before.link_redirected(j, list[k] as int),
            // what invalidate_block(list[i]) ensures
            !before.blocks@[list[i] as int].live ==> *self == before,
            self.blocks@.len() == before.blocks@.len(),
            forall|q: int| 0 <= q < before.blocks@.len() && q != list[i] ==> #[trigger] self.blocks@[q] == before.blocks@[q],
            self.cb.mem@.len() == before.cb.mem@.len(),
            self.cb.base == before.cb.base,
            self.ocb.base == before.ocb.base,
            self.branches@.len() == before.branches@.len(),
            forall|k: int|
                0 <= k < before.cb.mem@.len() && !(before.blocks@[list[i] as int].start_pos <= k
                    < before.blocks@[list[i] as int].start_pos + JMP_LEN) && !before.in_incoming_site(
                    list[i] as int,
                    k,
                ) ==> #[trigger] self.cb.mem@[k] == before.cb.mem@[k],
            forall|j: int|
                0 <= j < before.branches@.len() && (#[trigger] before.branches@[j]).target
                    == Some(list[i]) ==> self.link_redirected(j, list[i] as int),
            forall|j: int|
                0 <= j < before.branches@.len() && (#[trigger] before.branches@[j]).target
                    != Some(list[i]) ==> self.branches@[j] == before.branches@[j],
        ensures
            forall|j: int|
                0 <= j < orig.branches@.len() && ((#[trigger] orig.branches@[j]).target is None
                    || !list.subrange(0, i + 1).contains(orig.branches@[j].target.unwrap()))
                    ==> self.branches@[j] == orig.branches@[j],
            forall|k: int, j: int|
                0 <= k < i + 1 && 0 <= j < orig.branches@.len() && #[trigger] orig.branches@[j].target
                    == Some(#[trigger] list[k]) ==> self.link_redirected(j, list[k] as int),
    {
        let b = list[i];
        let pre = list.subrange(0, i);
        assert(list.subrange(0, i + 1) == pre.push(b));
        assert forall|j: int|
            0 <= j < orig.branches@.len() && ((#[trigger] orig.branches@[j]).target is None
                || !list.subrange(0, i + 1).contains(orig.branches@[j].target.unwrap()))
                implies self.branches@[j] == orig.branches@[j] by {
            if orig.branches@[j].target is Some {
                let x = orig.branches@[j].target.unwrap();
                if pre.contains(x) {
                    let m = choose|m: int| 0 <= m < pre.len() && pre[m] == x;
                    assert(list.subrange(0, i + 1)[m] == x);
                }
                if x == b {
                    assert(list.subrange(0, i + 1)[i] == b);
                }
            }
        }
        assert forall|k: int, j: int|
            0 <= k < i + 1 && 0 <= j < orig.branches@.len() && #[trigger] orig.branches@[j].target
                == Some(#[trigger] list[k]) implies self.link_redirected(j, list[k] as int) by {
            let c = list[k];
            if c == b && !pre.contains(b) {
                assert(before.branches@[j] == orig.branches@[j]);
            } else {
                let m: int = if k < i {
                    k
                } else {
                    choose|m: int| 0 <= m < pre.len() && pre[m] == b
                };
                assert(list[m] == c);
                assert(before.link_redirected(j, list[m] as int));
                if c == b {
                    assert(!before.blocks@[b as int].live);
                } else {
                    self.lemma_redirect_kept(before, b, j, c as int);
                }
            }
        }
    }

    /// A redirected branch stays so across the invalidation of another
    /// block `b`.
    proof fn lemma_redirect_kept(&self, before: JitState, b: usize, j: int, c: int)
        requires
            before.wf(),
            b < before.blocks@.len(),
            0 <= j < before.branches@.len(),
            0 <= c < before.blocks@.len(),
            c != b,
            before.link_redirected(j, c),
            self.branches@.len() == before.branches@.len(),
            self.blocks@.len() == before.blocks@.len(),
            self.blocks@[c] == before.blocks@[c],
            self.cb.mem@.len() == before.cb.mem@.len(),
            self.cb.base == before.cb.base,
            self.ocb.base == before.ocb.base,
            forall|k: int|
                0 <= k < before.cb.mem@.len() && !(before.blocks@[b as int].start_pos <= k
                    < before.blocks@[b as int].start_pos + JMP_LEN) && !before.in_incoming_site(
                    b as int,
                    k,
                ) ==> #[trigger] self.cb.mem@[k] == before.cb.mem@[k],
            forall|q: int|
                0 <= q < before.branches@.len() && (#[trigger] before.branches@[q]).target
                    != Some(b) ==> self.branches@[q] == before.branches@[q],
        ensures
            self.link_redirected(j, c),
    {
        let br = before.branches@[j];
        assert(self.branches@[j] == br);
        assert(before.branch_wf(br));
        assert(before.block_wf(before.blocks@[br.src as int]));
        lemma_site_outside_entry(before, j, b as int);
        let p = br.patch_pos as int;
        assert forall|k: int| p <= k < p + JMP_LEN implies #[trigger] self.cb.mem@[k] == before.cb.mem@[k] by {
            assert(in_site(br, k));
            if before.in_incoming_site(b as int, k) {
                let q = choose|q: int|
                    0 <= q < before.branches@.len() && (#[trigger] before.branches@[q]).target
                        == Some(b) && in_site(before.branches@[q], k);
                assert(q != j);
                assert(sites_disjoint(before.branches@[j], before.branches@[q]));
            }
        }
        assert(self.cb.mem@.subrange(p, p + JMP_LEN) =~= before.cb.mem@.subrange(p, p + JMP_LEN));
    }

    /// Invalidate every block in `list`.
    pub fn invalidate_blocks(&mut self, list: &Vec<usize>)
        requires
            old(self).wf(),
            forall|k: int| 0 <= k < list@.len() ==> #[trigger] list@[k] < old(self).blocks@.len(),
        ensures
            final(self).wf(),
            final(self).blocks@.len() == old(self).blocks@.len(),
            forall|k: int| 0 <= k < list@.len() ==> !final(self).blocks@[#[trigger] list@[k] as int].live,
            forall|k: int|
                0 <= k < list@.len() && old(self).blocks@[#[trigger] list@[k] as int].live
                    && old(self).blocks@[list@[k] as int].entry_exit is Some ==> final(self).entry_patched(list@[k] as int),
            forall|i: int|
                0 <= i < old(self).blocks@.len() && !list@.contains(i as usize) ==> #[trigger] final(self).blocks@[i] == old(self).blocks@[i],
            final(self).options == old(self).options,
            final(self).exit_addr == old(self).exit_addr,
            final(self).cb.base == old(self).cb.base,
            final(self).cb.write_pos == old(self).cb.write_pos,
            final(self).ocb.base == old(self).ocb.base,
            final(self).branches@.len() == old(self).branches@.len(),
            forall|k: int, j: int|
                0 <= k < list@.len() && 0 <= j < old(self).branches@.len() && #[trigger] old(self).branches@[j].target
                    == Some(#[trigger] list@[k]) ==> final(self).link_redirected(j, list@[k] as int),
            final(self).invariants.basic_operators.deps@ == old(self).invariants.basic_operators.deps@.filter(crate::invariants::not_listed(list@)),
            final(self).invariants.cme_validity.deps@ == old(self).invariants.cme_validity.deps@.filter(crate::invariants::not_listed(list@)),
            final(self).invariants.method_lookup.deps@ == old(self).invariants.method_lookup.deps@.filter(crate::invariants::not_listed(list@)),
            final(self).invariants.single_ractor.deps@ == old(self).invariants.single_ractor.deps@.filter(crate::invariants::not_listed(list@)),
            final(self).invariants.constant_state.deps@ == old(self).invariants.constant_state.deps@.filter(crate::invariants::not_listed(list@)),
    {
        let ghost o = self.invariants;
        proof {
            crate::invariants::lemma_filter_listed_empty(o.basic_operators.deps@);
            crate::invariants::lemma_filter_listed_empty(o.cme_validity.deps@);
            crate::invariants::lemma_filter_listed_empty(o.method_lookup.deps@);
            crate::invariants::lemma_filter_listed_empty(o.single_ractor.deps@);
            crate::invariants::lemma_filter_listed_empty(o.constant_state.deps@);
            assert(list@.subrange(0, 0) =~= Seq::<usize>::empty());
        }
        let mut i: usize = 0;
        while i < list.len()
            invariant
                self.wf(),
                i <= list@.len(),
                forall|k: int| 0 <= k < list@.len() ==> #[trigger] list@[k] < old(self).blocks@.len(),
                self.blocks@.len() == old(self).blocks@.len(),
                self.options == old(self).options,
                self.exit_addr == old(self).exit_addr,
                self.cb.base == old(self).cb.base,
                self.cb.write_pos == old(self).cb.write_pos,
                self.ocb.base == old(self).ocb.base,
                self.branches@.len() == old(self).branches@.len(),
                forall|j: int|
                    0 <= j < old(self).branches@.len() && ((#[trigger] old(self).branches@[j]).target is None
                        || !list@.subrange(0, i as int).contains(old(self).branches@[j].target.unwrap()))
                        ==> self.branches@[j] == old(self).branches@[j],
                forall|k: int, j: int|
                    0 <= k < i && 0 <= j < old(self).branches@.len() && #[trigger] old(self).branches@[j].target
                        == Some(#[trigger] list@[k]) ==> self.link_redirected(j, list@[k] as int),
                forall|k: int| 0 <= k < i ==> !self.blocks@[#[trigger] list@[k] as int].live,
                forall|k: int|
                    0 <= k < i && old(self).blocks@[#[trigger] list@[k] as int].live && old(self).blocks@[list@[k] as int].entry_exit is Some ==> self.entry_patched(list@[k] as int),
                forall|k: int|
                    0 <= k < i ==> (#[trigger] old(self).blocks@[list@[k] as int]).entry_exit is Some
                        ==> self.blocks@[list@[k] as int].entry_exit == old(self).blocks@[list@[k] as int].entry_exit,
                forall|j: int|
                    0 <= j < old(self).blocks@.len() && !list@.subrange(0, i as int).contains(
                        j as usize,
                    ) ==> #[trigger] self.blocks@[j] == old(self).blocks@[j],
                self.invariants.basic_operators.deps@ == o.basic_operators.deps@.filter(
                    crate::invariants::not_listed(list@.subrange(0, i as int)),
                ),
                self.invariants.cme_validity.deps@ == o.cme_validity.deps@.filter(
                    crate::invariants::not_listed(list@.subrange(0, i as int)),
                ),
                self.invariants.method_lookup.deps@ == o.method_lookup.deps@.filter(
                    crate::invariants::not_listed(list@.subrange(0, i as int)),
                ),
                self.invariants.single_ractor.deps@ == o.single_ractor.deps@.filter(
                    crate::invariants::not_listed(list@.subrange(0, i as int)),
                ),
                self.invariants.constant_state.deps@ == o.constant_state.deps@.filter(
                    crate::invariants::not_listed(list@.subrange(0, i as int)),
                ),
            decreases list@.len() - i,
        {
            let b: usize = list[i];
            let ghost before = *self;
            let ghost pre = list@.subrange(0, i as int);
            self.invalidate_block(b);
            proof {
                self.lemma_sweep_branches(before, *old(self), list@, i as int);
                assert(list@.subrange(0, i + 1) =~= pre.push(b));
                crate::invariants::lemma_filter_listed_step(o.basic_operators.deps@, pre, b);
                crate::invariants::lemma_filter_listed_step(o.cme_validity.deps@, pre, b);
                crate::invariants::lemma_filter_listed_step(o.method_lookup.deps@, pre, b);
                crate::invariants::lemma_filter_listed_step(o.single_ractor.deps@, pre, b);
                crate::invariants::lemma_filter_listed_step(o.constant_state.deps@, pre, b);
                assert forall|k: int|
                    0 <= k < i + 1 && old(self).blocks@[#[trigger] list@[k] as int].live && old(self).blocks@[list@[k] as int].entry_exit is Some implies self.entry_patched(
                    list@[k] as int,
                ) by {
                    let c = list@[k];
                    if c == b {
                        if !before.blocks@[b as int].live {
                            assert(exists|m: int| 0 <= m < i && list@[m] == b) by {
                                if !pre.contains(b) {
                                    assert(before.blocks@[b as int] == old(self).blocks@[b as int]);
                                }
                                let m = choose|m: int| 0 <= m < pre.len() && pre[m] == b;
                                assert(list@[m] == b);
                            }
                            let m = choose|m: int| 0 <= m < i && list@[m] == b;
                            assert(before.entry_patched(list@[m] as int));
                        } else {
                            if !pre.contains(b) {
                                assert(before.blocks@[b as int] == old(self).blocks@[b as int]);
                            } else {
                                let m = choose|m: int| 0 <= m < pre.len() && pre[m] == b;
                                assert(list@[m] == b);
                                assert(!before.blocks@[list@[m] as int].live);
                            }
                        }
                    } else {
                        let sb = before.blocks@[b as int];
                        let sc = before.blocks@[c as int];
                        assert(before.block_wf(sb) && before.block_wf(sc));
                        if c < b {
                            assert(sc.end_pos <= sb.start_pos);
                        } else {
                            assert(sb.end_pos <= sc.start_pos);
                        }
                        assert(self.blocks@[c as int] == sc);
                        assert(self.cb.mem@.subrange(sc.start_pos as int, sc.start_pos + JMP_LEN)
                            =~= before.cb.mem@.subrange(sc.start_pos as int, sc.start_pos + JMP_LEN));
                    }
                }
                assert forall|j: int|
                    0 <= j < old(self).blocks@.len() && !list@.subrange(0, i + 1).contains(
                        j as usize,
                    ) implies #[trigger] self.blocks@[j] == old(self).blocks@[j] by {
                    if pre.contains(j as usize) {
                        let m = choose|m: int| 0 <= m < pre.len() && pre[m] == j as usize;
                        assert(list@.subrange(0, i + 1)[m] == j as usize);
                    }
                    if j == b {
                        assert(list@.subrange(0, i + 1)[i as int] == b);
                    }
                }
                assert forall|k: int| 0 <= k < i + 1 implies !self.blocks@[#[trigger] list@[k] as int].live by {
                    if list@[k] != b {
                        assert(!before.blocks@[list@[k] as int].live);
                    }
                }
            }
            i = i + 1;
        }
        proof {
            assert(list@.subrange(0, i as int) =~= list@);
            assert forall|j: int|
                0 <= j < old(self).blocks@.len() && !list@.contains(j as usize) implies #[trigger] self.blocks@[j]
                == old(self).blocks@[j] by {
                assert(!list@.subrange(0, i as int).contains(j as usize));
            }
        }
    }

    /// The context to compile a new version of region `id` under, for a
    /// request under `ctx`: `ctx` itself, or the most general context of its
    /// shape when the new version would reach the maximum number of versions,
    /// so that the last version serves every request.
    pub fn limit_block_versions(&self, id: BlockId, ctx: &Context) -> (r: Context)
        ensures
            r@ == (if version_count(self.blocks@, id) + 1 >= self.options.max_versions {
                ctx_generic(ctx@)
            } else {
                ctx@
            }),
    {
        let n = self.version_count(id);
        if n >= self.options.max_versions || self.options.max_versions - n <= 1 {
            ctx.generic()
        } else {
            ctx.duplicate()
        }
    }

    /// What to do with a request to run region `id` under `ctx`: run the
    /// version `find_version` picks; or compile a new version under the
    /// context `limit_block_versions` gives; or, when the region has its
    /// maximum number of versions and none serves the request, interpret.
    pub fn plan_version(&self, id: BlockId, ctx: &Context) -> (r: VersionPlan)
        requires
            self.wf(),
        ensures
            best_version(self.blocks@, id, ctx@, self.blocks@.len() as int) matches Some(b) ==> r
                == VersionPlan::Existing(b as usize),
            best_version(self.blocks@, id, ctx@, self.blocks@.len() as int) is None ==> {
                if version_count(self.blocks@, id) >= self.options.max_versions {
                    r is Interpret
                } else {
                    &&& r is Compile
                    &&& r->Compile_0@ == (if version_count(self.blocks@, id) + 1
                        >= self.options.max_versions {
                        ctx_generic(ctx@)
                    } else {
                        ctx@
                    })
                    &&& forall|i: int|
                        0 <= i < self.blocks@.len() ==> !(#[trigger] self.blocks@[i].live
                            && self.blocks@[i].blockid == id && self.blocks@[i].ctx@
                            == r->Compile_0@)
                }
            },
    {
        match self.find_version(id, ctx) {
            Some(b) => {
                return VersionPlan::Existing(b);
            },
            None => {},
        }
        if self.version_count(id) >= self.options.max_versions {
            return VersionPlan::Interpret;
        }
        let c = self.limit_block_versions(id, ctx);
        proof {
            lemma_best_version(self.blocks@, id, ctx@, self.blocks@.len() as int);
            assert forall|i: int|
                0 <= i < self.blocks@.len() implies !(#[trigger] self.blocks@[i].live
                && self.blocks@[i].blockid == id && self.blocks@[i].ctx@ == c@) by {
                let x = self.blocks@[i].ctx@;
                if self.blocks@[i].live && self.blocks@[i].blockid == id && x == c@ {
                    assert(!serves(self.blocks@[i], id, ctx@));
                    if c@ == ctx_generic(ctx@) {
                        assert(ctx_generalizes(x, ctx@));
                    }
                }
            }
        }
        VersionPlan::Compile(c)
    }

    /// The live versions compiled for the instruction sequence `iseq`, by
    /// increasing start address, for listings of generated code.
    pub fn iseq_block_list(&self, iseq: u64) -> (r: Vec<usize>)
        requires
            self.wf(),
        ensures
            forall|k: int| 0 <= k < r@.len() ==> (#[trigger] r@[k]) < self.blocks@.len(),
            forall|b: int|
                0 <= b < self.blocks@.len() ==> (r@.contains(b as usize) <==> (
                #[trigger] self.blocks@[b]).live && self.blocks@[b].blockid.iseq == iseq),
            forall|k: int, l: int|
                0 <= k < l < r@.len() ==> self.blocks@[r@[k] as int].start_pos
                    < self.blocks@[r@[l] as int].start_pos,
    {
        let mut out: Vec<usize> = Vec::new();
        let mut i: usize = 0;
        while i < self.blocks.len()
            invariant
                self.wf(),
                i <= self.blocks@.len(),
                forall|k: int| 0 <= k < out@.len() ==> (#[trigger] out@[k]) < i,
                forall|k: int, l: int| 0 <= k < l < out@.len() ==> out@[k] < out@[l],
                forall|b: int|
                    0 <= b < i ==> (out@.contains(b as usize) <==> (
                    #[trigger] self.blocks@[b]).live && self.blocks@[b].blockid.iseq == iseq),
            decreases self.blocks@.len() - i,
        {
            let ghost prev = out@;
            if self.blocks[i].live && self.blocks[i].blockid.iseq == iseq {
                out.push(i);
                proof {
                    assert(out@[out@.len() - 1] == i);
                    assert forall|b: int|
                        0 <= b < i + 1 implies (out@.contains(b as usize) <==> (
                        #[trigger] self.blocks@[b]).live && self.blocks@[b].blockid.iseq == iseq) by {
                        if b < i && out@.contains(b as usize) {
                            let k = choose|k: int| 0 <= k < out@.len() && out@[k] == b as usize;
                            assert(k < prev.len());
                            assert(prev.contains(b as usize));
                        }
                        if b < i && prev.contains(b as usize) {
                            let k = choose|k: int| 0 <= k < prev.len() && prev[k] == b as usize;
                            assert(out@[k] == b as usize);
                        }
                    }
                }
            } else {
                proof {
                    assert(!out@.contains(i));
                }
            }
            i = i + 1;
        }
        proof {
            assert forall|k: int, l: int|
                0 <= k < l < out@.len() implies self.blocks@[out@[k] as int].start_pos
                < self.blocks@[out@[l] as int].start_pos by {
                let bk = self.blocks@[out@[k] as int];
                let bl = self.blocks@[out@[l] as int];
                assert(bk.end_pos <= bl.start_pos);
                assert(self.block_wf(bk));
            }
        }
        out
    }
}

/// The version chosen for a request under `c` is a live version of the
/// region whose context generalizes `c`; and once a version has been
/// compiled under exactly `c`, the request gets that version.
pub proof fn lemma_version_correctness(st: JitState, id: BlockId, c: CtxModel, b: int)
    requires
        st.wf(),
    ensures
        best_version(st.blocks@, id, c, st.blocks@.len() as int) matches Some(i) ==> {
            &&& 0 <= i < st.blocks@.len()
            &&& st.blocks@[i].live
            &&& st.blocks@[i].blockid == id
            &&& ctx_generalizes(st.blocks@[i].ctx@, c)
        },
        0 <= b < st.blocks@.len() && st.blocks@[b].live && st.blocks@[b].blockid == id
            && st.blocks@[b].ctx@ == c ==> best_version(st.blocks@, id, c, st.blocks@.len() as int)
            == Some(b),
{
    let n = st.blocks@.len() as int;
    lemma_best_version(st.blocks@, id, c, n);
    if 0 <= b < n && st.blocks@[b].live && st.blocks@[b].blockid == id && st.blocks@[b].ctx@ == c {
        lemma_ctx_diff_self(c);
        assert(serves(st.blocks@[b], id, c));
        let i = best_version(st.blocks@, id, c, n).unwrap();
        lemma_ctx_diff_zero(st.blocks@[i].ctx@, c);
    }
}

/// No region ever has more live versions than the configured maximum.
pub proof fn lemma_version_cap(st: JitState, id: BlockId)
    requires
        st.wf(),
    ensures
        version_count(st.blocks@, id) <= st.options.max_versions,
{
}

/// An invalidated block is never the version chosen for a request.
pub proof fn lemma_invalidated_unreachable(st: JitState, id: BlockId, c: CtxModel, b: int)
    requires
        st.wf(),
        0 <= b < st.blocks@.len(),
        !st.blocks@[b].live,
    ensures
        best_version(st.blocks@, id, c, st.blocks@.len() as int) != Some(b),
{
    lemma_best_version(st.blocks@, id, c, st.blocks@.len() as int);
}

/// Outcome of a request to run a region under a context.
#[derive(Debug)]
pub enum VersionPlan {
    /// Run this existing version.
    Existing(usize),
    /// Compile a new version under this context.
    Compile(Context),
    /// Leave the region to the interpreter.
    Interpret,
}

/// The jump of a branch never overlaps the entry of a block: it lies in the
/// code of its source block, past that block's entry.
pub proof fn lemma_site_outside_entry(st: JitState, j: int, c: int)
    requires
        st.wf(),
        0 <= j < st.branches@.len(),
        0 <= c < st.blocks@.len(),
    ensures
        forall|k: int|
            #[trigger] in_site(st.branches@[j], k) ==> !(st.blocks@[c].start_pos <= k
                < st.blocks@[c].start_pos + JMP_LEN),
{
    let br = st.branches@[j];
    assert(st.branch_wf(br));
    let s = br.src as int;
    assert(st.block_wf(st.blocks@[s]));
    assert(st.block_wf(st.blocks@[c]));
    if s < c {
        assert(st.blocks@[s].end_pos <= st.blocks@[c].start_pos);
    } else if c < s {
        assert(st.blocks@[c].end_pos <= st.blocks@[s].start_pos);
    }
}

/// From `o` to `n` at most the entry exit of block `b` was emitted: the
/// outlined buffer gained it at its cursor, and nothing else changed but
/// the dependency maps.
pub open spec fn only_exit_added(o: JitState, n: JitState, b: int) -> bool {
    &&& n.blocks@.len() == o.blocks@.len()
    &&& forall|i: int| 0 <= i < o.blocks@.len() && i != b ==> #[trigger] n.blocks@[i] == o.blocks@[i]
    &&& n.blocks@[b].blockid == o.blocks@[b].blockid
    &&& n.blocks@[b].ctx@ == o.blocks@[b].ctx@
    &&& n.blocks@[b].start_pos == o.blocks@[b].start_pos
    &&& n.blocks@[b].end_pos == o.blocks@[b].end_pos
    &&& n.blocks@[b].end_idx == o.blocks@[b].end_idx
    &&& n.blocks@[b].live == o.blocks@[b].live
    &&& n.cb == o.cb
    &&& n.branches == o.branches
    &&& n.options == o.options
    &&& n.exit_addr == o.exit_addr
    &&& n.stub_hit_addr == o.stub_hit_addr
    &&& n.counters == o.counters
    &&& n.ocb.base == o.ocb.base
    &&& (o.blocks@[b].entry_exit is Some || n.blocks@[b].entry_exit is None) ==> {
        &&& n.ocb == o.ocb
        &&& n.blocks@[b].entry_exit == o.blocks@[b].entry_exit
    }
    &&& (o.blocks@[b].entry_exit is None && n.blocks@[b].entry_exit is Some) ==> {
        &&& n.blocks@[b].entry_exit == Some(o.ocb.write_pos)
        &&& n.ocb.write_pos == o.ocb.write_pos + EXIT_LEN
        &&& n.ocb.dropped_bytes == o.ocb.dropped_bytes
        &&& n.ocb.mem@ == splice(
            o.ocb.mem@,
            o.ocb.write_pos as int,
            exit_bytes(o.ocb.addr_of(o.ocb.write_pos as int), o.blocks@[b].blockid.idx, o.exit_addr as int),
        )
    }
}

/// Appending at `w` keeps the bytes before `w`.
pub proof fn lemma_append_keeps(o: Seq<u8>, w: int, bytes: Seq<u8>)
    requires
        0 <= w,
        w + bytes.len() <= o.len(),
    ensures
        splice(o, w, bytes).len() == o.len(),
        forall|k: int| 0 <= k < w ==> #[trigger] splice(o, w, bytes)[k] == o[k],
{
}

/// An exit slot before `w` is kept by a change that keeps the bytes before
/// `w`.
pub proof fn lemma_slot_kept(o: Seq<u8>, n: Seq<u8>, w: int, p: int)
    requires
        0 <= p,
        p + EXIT_LEN <= w,
        w <= o.len(),
        w <= n.len(),
        forall|k: int| 0 <= k < w ==> #[trigger] n[k] == o[k],
    ensures
        n.subrange(p, p + EXIT_LEN) == o.subrange(p, p + EXIT_LEN),
{
    assert(n.subrange(p, p + EXIT_LEN) =~= o.subrange(p, p + EXIT_LEN));
}

/// Filler for code too short to hold a jump.
pub const NOP: u8 = 0x90;

/// The code of a block as placed in the buffer: `code`, padded with no-ops to
/// the length of a jump.
pub open spec fn padded_code(code: Seq<u8>) -> Seq<u8> {
    if code.len() < JMP_LEN {
        code + Seq::new((JMP_LEN - code.len()) as nat, |i: int| NOP)
    } else {
        code
    }
}

/// Copy `code`, padded with no-ops to the length of a jump.
pub fn pad_code(code: &Vec<u8>) -> (r: Vec<u8>)
    ensures
        r@ == padded_code(code@),
        r@.len() >= JMP_LEN,
{
    let mut r: Vec<u8> = Vec::new();
    let mut i: usize = 0;
    while i < code.len()
        invariant
            i <= code@.len(),
            r@ == code@.subrange(0, i as int),
        decreases code@.len() - i,
    {
        r.push(code[i]);
        i = i + 1;
        assert(r@ =~= code@.subrange(0, i as int));
    }
    assert(r@ =~= code@);
    while r.len() < JMP_LEN
        invariant
            code@.len() <= r@.len() <= JMP_LEN || (r@.len() == code@.len() && r@ == code@),
            r@.subrange(0, code@.len() as int) == code@,
            forall|k: int| code@.len() <= k < r@.len() ==> r@[k] == NOP,
        decreases JMP_LEN - r@.len(),
    {
        r.push(NOP);
    }
    assert(r@ =~= padded_code(code@));
    r
}

} // verus!
