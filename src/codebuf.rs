//! Append-only buffers of machine code with a write cursor and back-patching.
use vstd::prelude::*;

verus! {

/// Largest distance between two code addresses that jump to each other, so
/// that the displacement always fits the 32 bits of a relative jump.
pub const CODE_SPAN: usize = 0x7fff_0000;

/// Length of an encoded relative jump.
pub const JMP_LEN: usize = 5;

/// Opcode of a near jump with a 32-bit displacement.
pub const JMP_REL32: u8 = 0xE9;

/// The 32-bit two's complement form of a displacement in `[-2^32, 2^32)`.
pub open spec fn rel32_bits(rel: int) -> int {
    if rel >= 0 {
        rel
    } else {
        rel + 0x1_0000_0000
    }
}

/// Byte `k` (0 for the least significant) of `u`.
pub open spec fn byte_of(u: int, k: nat) -> u8 {
    ((u / pow256(k)) % 256) as u8
}

pub open spec fn pow256(k: nat) -> int
    decreases k,
{
    if k == 0 {
        1
    } else {
        256 * pow256((k - 1) as nat)
    }
}

/// Encoding of a jump located at address `src` that transfers control to
/// address `dst`: the opcode followed by the little-endian displacement,
/// measured from the end of the jump.
pub open spec fn jmp_bytes(src: int, dst: int) -> Seq<u8> {
    let u = rel32_bits(dst - (src + JMP_LEN));
    seq![JMP_REL32, byte_of(u, 0), byte_of(u, 1), byte_of(u, 2), byte_of(u, 3)]
}

/// `mem` with the bytes from position `at` on replaced by `bytes`.
pub open spec fn splice(mem: Seq<u8>, at: int, bytes: Seq<u8>) -> Seq<u8> {
    mem.subrange(0, at) + bytes + mem.subrange(at + bytes.len(), mem.len() as int)
}

/// Addresses `a` and `b` are close enough for a relative jump.
pub open spec fn near(a: int, b: int) -> bool {
    a <= b + CODE_SPAN && b <= a + CODE_SPAN
}

/// Encode a jump from `src` to `dst`.
pub fn encode_jmp(src: usize, dst: usize) -> (r: Vec<u8>)
    requires
        src + JMP_LEN <= usize::MAX,
        near(src as int, dst as int),
    ensures
        r@ == jmp_bytes(src as int, dst as int),
{
    let end: usize = src + JMP_LEN;
    let u: u64 = if dst >= end {
        (dst - end) as u64
    } else {
        0x1_0000_0000u64 - (end - dst) as u64
    };
    let ghost g = rel32_bits(dst - (src + JMP_LEN));
    assert(u == g);
    assert(pow256(1) == 256 && pow256(2) == 65536 && pow256(3) == 16777216) by {
        reveal_with_fuel(pow256, 4);
    }
    assert(pow256(0) == 1);
    let mut r: Vec<u8> = Vec::new();
    r.push(JMP_REL32);
    r.push((u % 256) as u8);
    r.push(((u / 256) % 256) as u8);
    r.push(((u / 65536) % 256) as u8);
    r.push(((u / 16777216) % 256) as u8);
    assert(r@ =~= jmp_bytes(src as int, dst as int));
    r
}

/// A region of executable memory that code is appended to.
#[derive(Debug)]
pub struct CodeBlock {
    /// Contents of the region; its length is the capacity.
    pub mem: Vec<u8>,
    /// Position at which the next byte is written.
    pub write_pos: usize,
    /// Address of the first byte of the region.
    pub base: usize,
    /// Set once a write did not fit in the remaining space.
    pub dropped_bytes: bool,
}

impl CodeBlock {
    pub open spec fn wf(&self) -> bool {
        &&& self.write_pos <= self.mem@.len()
        &&& self.base + self.mem@.len() + JMP_LEN <= usize::MAX
    }

    pub open spec fn capacity(&self) -> int {
        self.mem@.len() as int
    }

    /// Address of position `pos`.
    pub open spec fn addr_of(&self, pos: int) -> int {
        self.base + pos
    }

    /// A zeroed region of `size` bytes at address `base`.
    pub fn new(base: usize, size: usize) -> (r: CodeBlock)
        requires
            base + size + JMP_LEN <= usize::MAX,
        ensures
            r.wf(),
            r.base == base,
            r.write_pos == 0,
            r.mem@.len() == size,
            !r.dropped_bytes,
    {
        let mut mem: Vec<u8> = Vec::new();
        let mut i: usize = 0;
        while i < size
            invariant
                i <= size,
                mem@.len() == i,
            decreases size - i,
        {
            mem.push(0);
            i = i + 1;
        }
        CodeBlock { mem, write_pos: 0, base, dropped_bytes: false }
    }

    pub fn get_write_pos(&self) -> (r: usize)
        ensures
            r == self.write_pos,
    {
        self.write_pos
    }

    /// Address at which the next byte is written.
    pub fn get_write_addr(&self) -> (r: usize)
        requires
            self.wf(),
        ensures
            r == self.addr_of(self.write_pos as int),
    {
        self.base + self.write_pos
    }

    /// Whether `n` more bytes fit after the cursor.
    pub fn has_capacity(&self, n: usize) -> (r: bool)
        requires
            self.wf(),
        ensures
            r == (self.write_pos + n <= self.mem@.len()),
    {
        n <= self.mem.len() - self.write_pos
    }

    /// Move the cursor, to patch earlier code or to give up space that
    /// nothing refers to.
    pub fn set_pos(&mut self, pos: usize)
        requires
            old(self).wf(),
            pos <= old(self).mem@.len(),
        ensures
            final(self).wf(),
            final(self).write_pos == pos,
            final(self).mem@ == old(self).mem@,
            final(self).base == old(self).base,
            final(self).dropped_bytes == old(self).dropped_bytes,
    {
        self.write_pos = pos;
    }

    /// Append `bytes` if they all fit; otherwise write nothing and record that
    /// bytes were dropped.
    pub fn write_bytes(&mut self, bytes: &Vec<u8>)
        requires
            old(self).wf(),
        ensures
            final(self).wf(),
            final(self).base == old(self).base,
            final(self).mem@.len() == old(self).mem@.len(),
            old(self).write_pos + bytes@.len() <= old(self).mem@.len() ==> {
                &&& final(self).mem@ == splice(old(self).mem@, old(self).write_pos as int, bytes@)
                &&& final(self).write_pos == old(self).write_pos + bytes@.len()
                &&& final(self).dropped_bytes == old(self).dropped_bytes
            },
            old(self).write_pos + bytes@.len() > old(self).mem@.len() ==> {
                &&& final(self).mem@ == old(self).mem@
                &&& final(self).write_pos == old(self).write_pos
                &&& final(self).dropped_bytes
            },
    {
        if !self.has_capacity(bytes.len()) {
            self.dropped_bytes = true;
            return;
        }
        let start: usize = self.write_pos;
        let ghost old_mem = self.mem@;
        let mut i: usize = 0;
        while i < bytes.len()
            invariant
                self.wf(),
                i <= bytes@.len(),
                start + bytes@.len() <= self.mem@.len(),
                self.write_pos == start + i,
                self.base == old(self).base,
                self.dropped_bytes == old(self).dropped_bytes,
                self.mem@.len() == old_mem.len(),
                forall|j: int| 0 <= j < start ==> self.mem@[j] == old_mem[j],
                forall|j: int| start + bytes@.len() <= j < old_mem.len() ==> self.mem@[j] == old_mem[j],
                forall|j: int| 0 <= j < i ==> self.mem@[start + j] == bytes@[j],
            decreases bytes@.len() - i,
        {
            self.mem.set(self.write_pos, bytes[i]);
            self.write_pos = self.write_pos + 1;
            i = i + 1;
        }
        assert(self.mem@ =~= splice(old_mem, start as int, bytes@));
    }

    /// Rewrite the jump at position `at`, emitted earlier, so that it goes to
    /// address `dst`. The cursor is restored afterwards.
    pub fn patch_jmp(&mut self, at: usize, dst: usize)
        requires
            old(self).wf(),
            at + JMP_LEN <= old(self).mem@.len(),
            near(old(self).addr_of(at as int), dst as int),
        ensures
            final(self).wf(),
            final(self).mem@ == splice(
                old(self).mem@,
                at as int,
                jmp_bytes(old(self).addr_of(at as int), dst as int),
            ),
            final(self).write_pos == old(self).write_pos,
            final(self).base == old(self).base,
            final(self).dropped_bytes == old(self).dropped_bytes,
    {
        let saved: usize = self.write_pos;
        let bytes = encode_jmp(self.base + at, dst);
        self.set_pos(at);
        self.write_bytes(&bytes);
        self.set_pos(saved);
    }
}

} // verus!
