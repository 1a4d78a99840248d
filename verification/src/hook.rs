//! Byte layout of the x64 inline hook: the patch written over a function's
//! prologue, and the code that runs the saved prologue before jumping back.
use vstd::prelude::*;
use crate::binary::{Fault, Writer, at, u64_bytes, sp_u64, lemma_read_u64};

verus! {

/// Number of prologue bytes the patch replaces.
pub const HOOK_SIZE: usize = 14;

/// The first `HOOK_SIZE` bytes of a hooked function, saved when the hook
/// goes in so that it can be taken out again.
pub struct OriginalBytes(pub [u8; 14]);

/// `JMP [RIP+0]`: the absolute target is read from the eight bytes that
/// follow the instruction.
pub open spec fn jmp_rip0() -> Seq<u8> {
    seq![0xFFu8, 0x25u8, 0u8, 0u8, 0u8, 0u8]
}

/// An absolute jump to `addr`.
pub open spec fn jump_to(addr: u64) -> Seq<u8> {
    jmp_rip0() + u64_bytes(addr as int)
}

fn push_jump(w: &mut Writer, addr: u64)
    ensures
        final(w).data@ == old(w).data@ + jump_to(addr),
{
    w.u8(0xFF);
    w.u8(0x25);
    w.u8(0);
    w.u8(0);
    w.u8(0);
    w.u8(0);
    let _ = w.u64(addr);
    assert(w.data@ =~= old(w).data@ + jump_to(addr));
}

/// The patch written over a function's prologue: a jump to `replacement`.
pub fn jump_patch(replacement: u64) -> (r: Vec<u8>)
    ensures
        r@ == jump_to(replacement),
        r@.len() == HOOK_SIZE,
{
    let mut w = Writer::new();
    push_jump(&mut w, replacement);
    proof {
        lemma_jump_reads_back(replacement);
    }
    w.data
}

/// The code that calls the original function: its saved prologue, then a
/// jump to the first instruction after the patch.
pub fn trampoline_back(compile_addr: u64, original: &OriginalBytes) -> (r: Vec<u8>)
    requires
        compile_addr + HOOK_SIZE <= u64::MAX,
    ensures
        r@ == original.0@ + jump_to((compile_addr + HOOK_SIZE) as u64),
        r@.len() == 2 * HOOK_SIZE,
{
    let mut w = Writer::new();
    w.pack(&original.0);
    push_jump(&mut w, compile_addr + 14);
    proof {
        lemma_jump_reads_back((compile_addr + HOOK_SIZE) as u64);
    }
    assert(w.data@ =~= original.0@ + jump_to((compile_addr + HOOK_SIZE) as u64));
    w.data
}

/// A jump is `HOOK_SIZE` bytes long, and the address it carries reads back
/// as the target it was made for.
pub proof fn lemma_jump_reads_back(addr: u64)
    ensures
        jump_to(addr).len() == HOOK_SIZE,
        jump_to(addr).subrange(0, 6) == jmp_rip0(),
        sp_u64(jump_to(addr), 6) == Ok::<(u64, nat), Fault>((addr, 14)),
{
    let d = jump_to(addr);
    assert(at(d, 6, u64_bytes(addr as int))) by {
        reveal(at);
        assert(d.subrange(6, 14) =~= u64_bytes(addr as int));
    }
    lemma_read_u64(addr, d, 6);
    assert(d.subrange(0, 6) =~= jmp_rip0());
}

} // verus!
