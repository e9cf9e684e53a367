//! The mathematical model of memory and of a copy.
//!
//! Memory is a byte sequence; an address is an offset into it. A copy of
//! `count` bytes from `src` to `dest` is described by [`copied`]: every byte
//! of the destination region takes the value that the matching source byte
//! held before the copy began, and every other byte keeps its value.
use vstd::prelude::*;

verus! {

/// The memory `m` after the bytes `m[src .. src + count]`, as they stood
/// before the copy, have been placed at `dest .. dest + count`.
pub open spec fn copied(m: Seq<u8>, dest: int, src: int, count: int) -> Seq<u8> {
    Seq::new(
        m.len(),
        |i: int|
            if dest <= i < dest + count {
                m[src + (i - dest)]
            } else {
                m[i]
            },
    )
}

/// The memory `m` after the assignments `m[dest + k] = m[src + k]` for
/// `k = 0, 1, .., count - 1`, made one at a time in that order, each reading
/// the memory as the assignments before it left it.
pub open spec fn assigned_upward(m: Seq<u8>, dest: int, src: int, count: nat) -> Seq<u8>
    decreases count,
{
    if count == 0 {
        m
    } else {
        let p = assigned_upward(m, dest, src, (count - 1) as nat);
        p.update(dest + count - 1, p[src + count - 1])
    }
}

/// The memory `m` after the assignments `m[dest_end - k] = m[src_end - k]`
/// for `k = 1, 2, .., count`, made one at a time in that order (highest
/// address first), each reading the memory as the assignments before it left
/// it.
pub open spec fn assigned_downward(m: Seq<u8>, dest_end: int, src_end: int, count: nat) -> Seq<u8>
    decreases count,
{
    if count == 0 {
        m
    } else {
        let p = assigned_downward(m, dest_end, src_end, (count - 1) as nat);
        p.update(dest_end - count, p[src_end - count])
    }
}

/// The regions `[dest, dest + count)` and `[src, src + count)` share no byte.
pub open spec fn disjoint(dest: int, src: int, count: int) -> bool {
    dest + count <= src || src + count <= dest
}

/// What a forward copy asks of its arguments in a memory of `len` bytes: a
/// copy of zero bytes touches nothing and may name any address; otherwise
/// both regions lie inside the memory and either share no byte or the source
/// starts at or above the destination.
pub open spec fn forward_ok(len: int, dest: int, src: int, count: int) -> bool {
    count == 0 || {
        &&& 0 <= dest && dest + count <= len
        &&& 0 <= src && src + count <= len
        &&& dest <= src || disjoint(dest, src, count)
    }
}

/// What a backward copy asks of its arguments in a memory of `len` bytes:
/// `dest_end` and `src_end` are one past the end of their regions; a copy of
/// zero bytes touches nothing; otherwise both regions lie inside the memory
/// and either share no byte or the source ends at or below the destination.
pub open spec fn backward_ok(len: int, dest_end: int, src_end: int, count: int) -> bool {
    count == 0 || {
        &&& count <= dest_end <= len
        &&& count <= src_end <= len
        &&& src_end <= dest_end || disjoint(dest_end - count, src_end - count, count)
    }
}

/// Both addresses are multiples of `unit` whenever any byte is to be copied.
pub open spec fn aligned(dest: int, src: int, count: int, unit: int) -> bool {
    count > 0 ==> dest % unit == 0 && src % unit == 0
}

/// Splitting a forward copy: copying `a` bytes and then the `b` bytes that
/// follow them gives the same memory as one copy of `a + b` bytes.
pub proof fn lemma_forward_split(m: Seq<u8>, dest: int, src: int, a: int, b: int)
    requires
        0 <= a,
        0 <= b,
        0 <= dest,
        0 <= src,
        dest + a + b <= m.len(),
        src + a + b <= m.len(),
        dest <= src || disjoint(dest, src, a + b),
    ensures
        copied(copied(m, dest, src, a), dest + a, src + a, b) == copied(m, dest, src, a + b),
{
    assert(copied(copied(m, dest, src, a), dest + a, src + a, b) =~= copied(m, dest, src, a + b));
}

/// Splitting a backward copy: copying the top `a` bytes below the ends and
/// then the `b` bytes under them gives the same memory as one copy of
/// `a + b` bytes.
pub proof fn lemma_backward_split(m: Seq<u8>, dest_end: int, src_end: int, a: int, b: int)
    requires
        0 <= a,
        0 <= b,
        a + b <= dest_end <= m.len(),
        a + b <= src_end <= m.len(),
        src_end <= dest_end || disjoint(dest_end - (a + b), src_end - (a + b), a + b),
    ensures
        copied(copied(m, dest_end - a, src_end - a, a), dest_end - a - b, src_end - a - b, b)
            == copied(m, dest_end - (a + b), src_end - (a + b), a + b),
{
    assert(copied(copied(m, dest_end - a, src_end - a, a), dest_end - a - b, src_end - a - b, b)
        =~= copied(m, dest_end - (a + b), src_end - (a + b), a + b));
}

/// Bit 1 of a remainder below four is the halfword it holds, and bit 0 the
/// final byte.
pub proof fn lemma_remainder_bits(r: usize)
    requires
        r < 4,
    ensures
        r & 2 == (if r >= 2 { 2usize } else { 0usize }),
        r & 1 == r % 2,
{
    assert(r & 2 == (if r >= 2 { 2usize } else { 0usize })) by (bit_vector)
        requires
            r < 4,
    ;
    assert(r & 1 == r % 2) by (bit_vector);
}

} // verus!
