//! Byte-granularity copies.
use vstd::prelude::*;

use crate::model::{backward_ok, copied, forward_ok, lemma_backward_split, lemma_forward_split};
use crate::units::move_u8;

verus! {

/// Copies `count` bytes from `src` to `dest`, going upward in address value.
///
/// With `count == 0` neither address is read or written, and either may lie
/// outside `mem`.
pub fn copy_u8_forward(mem: &mut [u8], dest: usize, src: usize, count: usize)
    requires
        forward_ok(old(mem)@.len() as int, dest as int, src as int, count as int),
    ensures
        final(mem)@ == copied(old(mem)@, dest as int, src as int, count as int),
{
    let ghost m0 = mem@;
    let mut d = dest;
    let mut s = src;
    let mut left = count;
    proof {
        assert(copied(m0, dest as int, src as int, 0) =~= m0);
        assert(m0.len() == mem.len());
    }
    while left >= 1
        invariant
            forward_ok(m0.len() as int, dest as int, src as int, count as int),
            m0.len() <= usize::MAX,
            left <= count,
            d == dest + (count - left),
            s == src + (count - left),
            mem@ == copied(m0, dest as int, src as int, count - left),
        decreases left,
    {
        let ghost done = count - left;
        proof {
            lemma_forward_split(m0, dest as int, src as int, done, 1);
        }
        move_u8(mem, d, s);
        d = d + 1;
        s = s + 1;
        left = left - 1;
    }
}

/// Copies `count` bytes from `src_end - count .. src_end` to
/// `dest_end - count .. dest_end`, going downward in address value.
///
/// `dest_end` and `src_end` are one past the end of their regions; each step
/// steps both addresses down before it copies. With `count == 0` neither
/// address is read or written, and either may lie outside `mem`.
pub fn copy_u8_backward(mem: &mut [u8], dest_end: usize, src_end: usize, count: usize)
    requires
        backward_ok(old(mem)@.len() as int, dest_end as int, src_end as int, count as int),
    ensures
        final(mem)@ == copied(
            old(mem)@,
            dest_end - count,
            src_end - count,
            count as int,
        ),
{
    let ghost m0 = mem@;
    let mut d = dest_end;
    let mut s = src_end;
    let mut left = count;
    proof {
        assert(copied(m0, dest_end as int, src_end as int, 0) =~= m0);
    }
    while left >= 1
        invariant
            backward_ok(m0.len() as int, dest_end as int, src_end as int, count as int),
            left <= count,
            d == dest_end - (count - left),
            s == src_end - (count - left),
            mem@ == copied(m0, d as int, s as int, count - left),
        decreases left,
    {
        let ghost done = count - left;
        proof {
            lemma_backward_split(m0, dest_end as int, src_end as int, done, 1);
        }
        d = d - 1;
        s = s - 1;
        move_u8(mem, d, s);
        left = left - 1;
    }
}

} // verus!
