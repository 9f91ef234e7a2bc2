//! Linking of blocks: the jumps from a block to its successors, through a
//! stub until the successor is compiled.
use vstd::prelude::*;
use crate::block::{
    BlockId, Branch, JitState, EXIT_LEN, best_version, encode_exit, exit_bytes, sites_disjoint,
};
use crate::codebuf::{JMP_LEN, jmp_bytes};
use crate::context::{Context, ctx_generalizes};

verus! {

/// Why a branch could not be added.
#[derive(Clone, Copy, PartialEq, Eq, Structural, Debug)]
pub enum BranchError {
    /// The jump would not lie in the source block's code past its entry.
    BadSite,
    /// The jump would overlap the jump of another branch.
    SiteTaken,
    /// No room for the stub in the outlined buffer.
    OutOfMemory,
}

impl JitState {
    /// The jump of a branch at `pos` would lie in the code of block `src`
    /// past its entry, and overlap no other branch's jump.
    pub open spec fn site_free(&self, src: int, pos: int) -> bool {
        &&& self.blocks@[src].start_pos + JMP_LEN <= pos
        &&& pos + JMP_LEN <= self.blocks@[src].end_pos
        &&& forall|m: int|
            0 <= m < self.branches@.len() ==> (#[trigger] self.branches@[m]).patch_pos + JMP_LEN
                <= pos || pos + JMP_LEN <= self.branches@[m].patch_pos
    }

    /// Add a branch from live block `src` whose jump is at `offset` bytes
    /// into the block's code, to the region `target_id` under `target_ctx`.
    /// If a version serves the target, the jump goes straight to it;
    /// otherwise a stub is emitted that hands the branch's index to the
    /// host's compile routine, and the jump goes to the stub.
    pub fn add_branch(
        &mut self,
        src: usize,
        offset: usize,
        target_id: BlockId,
        target_ctx: Context,
    ) -> (r: Result<usize, BranchError>)
        requires
            old(self).wf(),
            src < old(self).blocks@.len(),
            old(self).branches@.len() < u32::MAX,
        ensures
            final(self).wf(),
            final(self).blocks@.len() == old(self).blocks@.len(),
            final(self).options == old(self).options,
            (r == Err::<usize, BranchError>(BranchError::BadSite)) == !(JMP_LEN <= offset
                && old(self).blocks@[src as int].start_pos + offset + JMP_LEN <= old(self).blocks@[src as int].end_pos),
            (r == Err::<usize, BranchError>(BranchError::SiteTaken)) == (JMP_LEN <= offset
                && old(self).blocks@[src as int].start_pos + offset + JMP_LEN <= old(self).blocks@[src as int].end_pos
                && !old(self).site_free(src as int, old(self).blocks@[src as int].start_pos + offset)),
            r is Err ==> *final(self) == *old(self),
            (r == Err::<usize, BranchError>(BranchError::OutOfMemory)) == (JMP_LEN <= offset
                && old(self).blocks@[src as int].start_pos + offset + JMP_LEN <= old(self).blocks@[src as int].end_pos
                && old(self).site_free(src as int, old(self).blocks@[src as int].start_pos + offset)
                && old(self).ocb.write_pos + EXIT_LEN > old(self).ocb.mem@.len() && !(best_version(
                old(self).blocks@,
                target_id,
                target_ctx@,
                old(self).blocks@.len() as int,
            ) matches Some(t) && old(self).blocks@[t].entry_exit is Some)),
            r matches Ok(j) ==> (final(self).branches@[j as int].target is Some <==> best_version(
                old(self).blocks@,
                target_id,
                target_ctx@,
                old(self).blocks@.len() as int,
            ) is Some),
            r matches Ok(j) ==> {
                let br = final(self).branches@[j as int];
                &&& j == old(self).branches@.len()
                &&& final(self).branches@.len() == j + 1
                &&& final(self).branches@.subrange(0, j as int) == old(self).branches@
                &&& br.src == src
                &&& br.patch_pos == old(self).blocks@[src as int].start_pos + offset
                &&& br.target_id == target_id
                &&& br.target_ctx@ == target_ctx@
            },
            r matches Ok(j) ==> final(self).branches@[j as int].target is Some
                ==> final(self).branch_linked(j as int),
            r matches Ok(j) ==> final(self).branches@[j as int].target is Some
                ==> best_version(old(self).blocks@, target_id, target_ctx@, old(self).blocks@.len() as int)
                == Some(final(self).branches@[j as int].target.unwrap() as int),
            r matches Ok(j) ==> final(self).branches@[j as int].target is None
                ==> final(self).branch_stubbed(j as int),
            r matches Ok(j) ==> best_version(
                old(self).blocks@,
                target_id,
                target_ctx@,
                old(self).blocks@.len() as int,
            ) is None ==> final(self).branches@[j as int].target is None,
    {
        let start: usize = self.blocks[src].start_pos;
        let end: usize = self.blocks[src].end_pos;
        assert(self.block_wf(self.blocks@[src as int]));
        if offset < JMP_LEN || offset > end - start || end - start - offset < JMP_LEN {
            return Err(BranchError::BadSite);
        }
        let site: usize = start + offset;
        assert(site + JMP_LEN <= self.cb.mem@.len());
        let mut m: usize = 0;
        while m < self.branches.len()
            invariant
                self.wf(),
                *self == *old(self),
                m <= self.branches@.len(),
                site + JMP_LEN <= self.cb.mem@.len(),
                src < self.blocks@.len(),
                JMP_LEN <= offset,
                site == self.blocks@[src as int].start_pos + offset,
                site + JMP_LEN <= self.blocks@[src as int].end_pos,
                forall|q: int|
                    0 <= q < m ==> (#[trigger] self.branches@[q]).patch_pos + JMP_LEN <= site || site
                        + JMP_LEN <= self.branches@[q].patch_pos,
            decreases self.branches@.len() - m,
        {
            let p: usize = self.branches[m].patch_pos;
            assert(self.branch_wf(self.branches@[m as int]));
            assert(self.block_wf(self.blocks@[self.branches@[m as int].src as int]));
            if !(p + JMP_LEN <= site || site + JMP_LEN <= p) {
                return Err(BranchError::SiteTaken);
            }
            m = m + 1;
        }
        let j: usize = self.branches.len();
        let ghost s0 = *self;
        let found = self.find_version(target_id, &target_ctx);
        proof {
            crate::block::lemma_best_version(self.blocks@, target_id, target_ctx@, self.blocks@.len() as int);
        }
        match found {
            Some(t) => {
                if self.ensure_entry_exit(t) {
                    let ghost s1 = *self;
                    assert(self.block_wf(self.blocks@[t as int]));
                    let dst: usize = self.cb.base + self.blocks[t].start_pos;
                    self.cb.patch_jmp(site, dst);
                    self.branches.push(
                        Branch {
                            src,
                            patch_pos: site,
                            target_id,
                            target_ctx,
                            target: Some(t),
                            stub_pos: None,
                        },
                    );
                    proof {
                        assert(self.cb.mem@.subrange(site as int, site + JMP_LEN) =~= jmp_bytes(
                            self.cb.addr_of(site as int),
                            dst as int,
                        ));
                        self.lemma_push_branch_wf(s0, s1);
                        assert(self.branches@.subrange(0, j as int) =~= s0.branches@);
                    }
                    return Ok(j);
                }
            },
            None => {},
        }
        if !self.ocb.has_capacity(EXIT_LEN) {
            return Err(BranchError::OutOfMemory);
        }
        let ghost s1 = *self;
        let stub: usize = self.ocb.get_write_pos();
        let at: usize = self.ocb.get_write_addr();
        let code = encode_exit(at, j as u32, self.stub_hit_addr);
        self.ocb.write_bytes(&code);
        proof {
            crate::block::lemma_append_keeps(s1.ocb.mem@, stub as int, code@);
        }
        self.cb.patch_jmp(site, at);
        self.branches.push(
            Branch {
                src,
                patch_pos: site,
                target_id,
                target_ctx,
                target: None,
                stub_pos: Some(stub),
            },
        );
        proof {
            assert(self.cb.mem@.subrange(site as int, site + JMP_LEN) =~= jmp_bytes(
                self.cb.addr_of(site as int),
                at as int,
            ));
            assert(self.ocb.mem@.subrange(stub as int, stub + EXIT_LEN) =~= exit_bytes(
                at as int,
                j as u32,
                self.stub_hit_addr as int,
            ));
            self.lemma_push_branch_wf(s0, s1);
            assert(self.branches@.subrange(0, j as int) =~= s0.branches@);
        }
        Ok(j)
    }

    /// Branch `j` is linked: its jump goes to the entry of its target.
    pub open spec fn branch_linked(&self, j: int) -> bool {
        let br = self.branches@[j];
        &&& br.target matches Some(t) && t < self.blocks@.len()
        &&& self.cb.mem@.subrange(br.patch_pos as int, br.patch_pos + JMP_LEN) == jmp_bytes(
            self.cb.addr_of(br.patch_pos as int),
            self.cb.addr_of(self.blocks@[br.target.unwrap() as int].start_pos as int),
        )
    }

    /// Branch `j` goes to its stub, which hands `j` to the host.
    pub open spec fn branch_stubbed(&self, j: int) -> bool {
        let br = self.branches@[j];
        &&& br.stub_pos matches Some(p) && p + EXIT_LEN <= self.ocb.mem@.len()
        &&& self.cb.mem@.subrange(br.patch_pos as int, br.patch_pos + JMP_LEN) == jmp_bytes(
            self.cb.addr_of(br.patch_pos as int),
            self.ocb.addr_of(br.stub_pos.unwrap() as int),
        )
        &&& self.ocb.mem@.subrange(br.stub_pos.unwrap() as int, br.stub_pos.unwrap() + EXIT_LEN)
            == exit_bytes(
            self.ocb.addr_of(br.stub_pos.unwrap() as int),
            j as u32,
            self.stub_hit_addr as int,
        )
    }

    /// A branch pushed onto a well-formed state whose blocks only gained an
    /// entry exit keeps the state well formed.
    proof fn lemma_push_branch_wf(&self, s0: JitState, s1: JitState)
        requires
            s0.wf(),
            s1.wf(),
            s1.blocks == self.blocks,
            s1.invariants == self.invariants,
            s1.branches@ == s0.branches@,
            self.branches@ == s0.branches@.push(self.branches@.last()),
            self.cb.wf(),
            self.ocb.wf(),
            self.cb.write_pos == s1.cb.write_pos,
            self.cb.base == s1.cb.base,
            self.cb.mem@.len() == s1.cb.mem@.len(),
            self.ocb.write_pos >= s1.ocb.write_pos,
            self.ocb.mem@.len() == s1.ocb.mem@.len(),
            forall|k: int| 0 <= k < s1.ocb.write_pos ==> #[trigger] self.ocb.mem@[k] == s1.ocb.mem@[k],
            self.ocb.base == s1.ocb.base,
            self.options == s1.options,
            self.exit_addr == s1.exit_addr,
            self.stub_hit_addr == s1.stub_hit_addr,
            self.branch_wf(self.branches@.last()),
            s0.site_free(self.branches@.last().src as int, self.branches@.last().patch_pos as int),
            self.branches@.last().src < s0.blocks@.len(),
            s0.blocks@.len() == s1.blocks@.len(),
            forall|i: int|
                0 <= i < s0.blocks@.len() ==> #[trigger] s1.blocks@[i].start_pos
                    == s0.blocks@[i].start_pos && s1.blocks@[i].end_pos == s0.blocks@[i].end_pos
                    && s1.blocks@[i].live == s0.blocks@[i].live && (s0.blocks@[i].entry_exit is Some
                    ==> s1.blocks@[i].entry_exit is Some),
        ensures
            self.wf(),
    {
        let n = s0.branches@.len();
        let nb = self.branches@.last();
        assert forall|i: int| 0 <= i < self.blocks@.len() implies self.block_wf(
            #[trigger] self.blocks@[i],
        ) by {
            assert(s1.block_wf(s1.blocks@[i]));
            if let Some(q) = self.blocks@[i].entry_exit {
                crate::block::lemma_slot_kept(s1.ocb.mem@, self.ocb.mem@, s1.ocb.write_pos as int, q as int);
            }
        }
        assert forall|m: int| 0 <= m < self.branches@.len() implies self.branch_wf(
            #[trigger] self.branches@[m],
        ) by {
            if m < n {
                let br = s0.branches@[m];
                assert(self.branches@[m] == br);
                assert(s0.branch_wf(br));
                assert(s1.branch_wf(br));
            }
        }
        assert forall|a: int, b: int|
            0 <= a < self.branches@.len() && 0 <= b < self.branches@.len() && a != b implies sites_disjoint(
            #[trigger] self.branches@[a],
            #[trigger] self.branches@[b],
        ) by {
            if a < n && b < n {
                assert(sites_disjoint(s0.branches@[a], s0.branches@[b]));
            } else if a == n {
                assert(self.branches@[b] == s0.branches@[b]);
            } else {
                assert(self.branches@[a] == s0.branches@[a]);
            }
        }
    }

    /// Link branch `j` to block `t`, compiled for its target after the
    /// branch's stub was hit. Succeeds when `t` is a live version of the
    /// target region whose context generalizes the target context and which
    /// can be left for the interpreter; the jump then goes straight to `t`.
    pub fn link_branch(&mut self, j: usize, t: usize) -> (r: bool)
        requires
            old(self).wf(),
            j < old(self).branches@.len(),
            t < old(self).blocks@.len(),
        ensures
            final(self).wf(),
            r == (old(self).blocks@[t as int].live && old(self).blocks@[t as int].blockid
                == old(self).branches@[j as int].target_id && ctx_generalizes(
                old(self).blocks@[t as int].ctx@,
                old(self).branches@[j as int].target_ctx@,
            ) && final(self).blocks@[t as int].entry_exit is Some),
            r ==> final(self).branches@[j as int].target == Some(t) && final(self).branch_linked(j as int),
            r == (old(self).blocks@[t as int].live && old(self).blocks@[t as int].blockid
                == old(self).branches@[j as int].target_id && ctx_generalizes(
                old(self).blocks@[t as int].ctx@,
                old(self).branches@[j as int].target_ctx@,
            ) && (old(self).blocks@[t as int].entry_exit is Some || old(self).ocb.write_pos + EXIT_LEN
                <= old(self).ocb.mem@.len())),
            !r ==> *final(self) == *old(self),
            final(self).blocks@.len() == old(self).blocks@.len(),
            final(self).branches@.len() == old(self).branches@.len(),
            final(self).options == old(self).options,
    {
        if !self.blocks[t].live || self.blocks[t].blockid != self.branches[j].target_id
            || !self.blocks[t].ctx.generalizes(&self.branches[j].target_ctx) {
            return false;
        }
        if !self.ensure_entry_exit(t) {
            return false;
        }
        let ghost s1 = *self;
        assert(self.block_wf(self.blocks@[t as int]));
        assert(self.branch_wf(self.branches@[j as int]));
        let site: usize = self.branches[j].patch_pos;
        let ghost src = self.branches@[j as int].src;
        assert(self.block_wf(self.blocks@[src as int]));
        let dst: usize = self.cb.base + self.blocks[t].start_pos;
        self.cb.patch_jmp(site, dst);
        let nb = self.branches[j].with_target(Some(t));
        self.branches.set(j, nb);
        proof {
            assert(self.cb.mem@.subrange(site as int, site + JMP_LEN) =~= jmp_bytes(
                self.cb.addr_of(site as int),
                dst as int,
            ));
            assert forall|i: int| 0 <= i < self.blocks@.len() implies self.block_wf(
                #[trigger] self.blocks@[i],
            ) by {
                assert(s1.block_wf(s1.blocks@[i]));
            }
            assert forall|m: int| 0 <= m < self.branches@.len() implies self.branch_wf(
                #[trigger] self.branches@[m],
            ) by {
                assert(s1.branch_wf(s1.branches@[m]));
            }
            assert forall|a: int, b: int|
                0 <= a < self.branches@.len() && 0 <= b < self.branches@.len() && a != b implies sites_disjoint(
                #[trigger] self.branches@[a],
                #[trigger] self.branches@[b],
            ) by {
                assert(sites_disjoint(s1.branches@[a], s1.branches@[b]));
            }
        }
        true
    }
}

} // verus!
