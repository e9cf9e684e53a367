//! Word-granularity copies: four bytes at a time, then a halfword and a byte
//! for what a count that is not a multiple of four leaves over.
use vstd::prelude::*;

use crate::model::{
    aligned, backward_ok, copied, forward_ok, lemma_backward_split, lemma_forward_split,
    lemma_remainder_bits,
};
use crate::units::{move_u16, move_u32, move_u8};

verus! {

/// Copies `count` bytes from `src` to `dest`, going upward in address value.
///
/// Copies are done in 4-byte chunks as much as possible. What remains, fewer
/// than four bytes, is copied by a 2-byte copy when bit 1 of the remainder is
/// set and then a 1-byte copy when bit 0 is set. With `count == 0` neither
/// address is read or written, and either may lie outside `mem`.
pub fn copy_u32_forward(mem: &mut [u8], dest: usize, src: usize, count: usize)
    requires
        forward_ok(old(mem)@.len() as int, dest as int, src as int, count as int),
        aligned(dest as int, src as int, count as int, 4),
    ensures
        final(mem)@ == copied(old(mem)@, dest as int, src as int, count as int),
{
    let ghost m0 = mem@;
    let mut d = dest;
    let mut s = src;
    let mut left = count;
    proof {
        assert(copied(m0, dest as int, src as int, 0) =~= m0);
        assert(m0.len() == mem.len());
    }
    while left >= 4
        invariant
            forward_ok(m0.len() as int, dest as int, src as int, count as int),
            m0.len() <= usize::MAX,
            left <= count,
            d == dest + (count - left),
            s == src + (count - left),
            mem@ == copied(m0, dest as int, src as int, count - left),
        decreases left,
    {
        proof {
            lemma_forward_split(m0, dest as int, src as int, count - left, 4);
        }
        move_u32(mem, d, s);
        d = d + 4;
        s = s + 4;
        left = left - 4;
    }
    proof {
        lemma_remainder_bits(left);
    }
    let ghost mut done = count - left;
    if (left & 0b10) != 0 {
        proof {
            lemma_forward_split(m0, dest as int, src as int, done, 2);
            done = done + 2;
        }
        move_u16(mem, d, s);
        d = d + 2;
        s = s + 2;
    }
    if (left & 1) != 0 {
        proof {
            lemma_forward_split(m0, dest as int, src as int, done, 1);
        }
        move_u8(mem, d, s);
    }
}

/// Copies `count` bytes from `src_end - count .. src_end` to
/// `dest_end - count .. dest_end`, going downward in address value.
///
/// Copies are done in 4-byte chunks as much as possible, stepping both
/// addresses down before each copy. What remains, fewer than four bytes at the
/// bottom of the regions, is copied by a 2-byte copy when bit 1 of the
/// remainder is set and then a 1-byte copy, lowest of all, when bit 0 is set.
/// With `count == 0` neither address is read or written, and either may lie
/// outside `mem`.
pub fn copy_u32_backward(mem: &mut [u8], dest_end: usize, src_end: usize, count: usize)
    requires
        backward_ok(old(mem)@.len() as int, dest_end as int, src_end as int, count as int),
        aligned(dest_end as int, src_end as int, count as int, 4),
    ensures
        final(mem)@ == copied(
            old(mem)@,
            dest_end - count,
            src_end - count,
            count as int,
        ),
{
    let ghost m0 = mem@;
    let mut d = dest_end;
    let mut s = src_end;
    let mut left = count;
    proof {
        assert(copied(m0, dest_end as int, src_end as int, 0) =~= m0);
    }
    while left >= 4
        invariant
            backward_ok(m0.len() as int, dest_end as int, src_end as int, count as int),
            left <= count,
            d == dest_end - (count - left),
            s == src_end - (count - left),
            mem@ == copied(m0, d as int, s as int, count - left),
        decreases left,
    {
        proof {
            lemma_backward_split(m0, dest_end as int, src_end as int, count - left, 4);
        }
        d = d - 4;
        s = s - 4;
        move_u32(mem, d, s);
        left = left - 4;
    }
    proof {
        lemma_remainder_bits(left);
    }
    let ghost mut done = count - left;
    if (left & 0b10) != 0 {
        proof {
            lemma_backward_split(m0, dest_end as int, src_end as int, done, 2);
            done = done + 2;
        }
        d = d - 2;
        s = s - 2;
        move_u16(mem, d, s);
    }
    if (left & 1) != 0 {
        proof {
            lemma_backward_split(m0, dest_end as int, src_end as int, done, 1);
        }
        move_u8(mem, d - 1, s - 1);
    }
}

} // verus!
