//! Single transfers: one load of a unit from the source followed by one store
//! of it at the destination.
use vstd::prelude::*;

use crate::model::copied;

verus! {

/// Moves the byte at `src` to `dest`.
pub(crate) fn move_u8(mem: &mut [u8], dest: usize, src: usize)
    requires
        dest < old(mem)@.len(),
        src < old(mem)@.len(),
    ensures
        final(mem)@ == copied(old(mem)@, dest as int, src as int, 1),
{
    let b = mem[src];
    mem[dest] = b;
    proof {
        assert(mem@ =~= copied(old(mem)@, dest as int, src as int, 1));
    }
}

/// Moves the halfword at `src` to `dest`: both of its bytes are read before
/// either is written.
pub(crate) fn move_u16(mem: &mut [u8], dest: usize, src: usize)
    requires
        dest + 2 <= old(mem)@.len(),
        src + 2 <= old(mem)@.len(),
    ensures
        final(mem)@ == copied(old(mem)@, dest as int, src as int, 2),
{
    let b0 = mem[src];
    let b1 = mem[src + 1];
    mem[dest] = b0;
    mem[dest + 1] = b1;
    proof {
        assert(mem@ =~= copied(old(mem)@, dest as int, src as int, 2));
    }
}

/// Moves the word at `src` to `dest`: all four of its bytes are read before
/// any is written.
pub(crate) fn move_u32(mem: &mut [u8], dest: usize, src: usize)
    requires
        dest + 4 <= old(mem)@.len(),
        src + 4 <= old(mem)@.len(),
    ensures
        final(mem)@ == copied(old(mem)@, dest as int, src as int, 4),
{
    let b0 = mem[src];
    let b1 = mem[src + 1];
    let b2 = mem[src + 2];
    let b3 = mem[src + 3];
    mem[dest] = b0;
    mem[dest + 1] = b1;
    mem[dest + 2] = b2;
    mem[dest + 3] = b3;
    proof {
        assert(mem@ =~= copied(old(mem)@, dest as int, src as int, 4));
    }
}

} // verus!
