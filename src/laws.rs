//! What holds of every copy, stated over the model that the copy functions'
//! contracts use: each of them leaves `copied(..)` of the memory it was given.
use vstd::prelude::*;

use crate::model::{
    assigned_downward, assigned_upward, backward_ok, copied, disjoint, forward_ok,
    lemma_backward_split, lemma_forward_split, lemma_remainder_bits,
};

verus! {

/// A copy of zero bytes is allowed whatever the two addresses are, in either
/// direction, and leaves the memory exactly as it was.
pub proof fn lemma_zero_count_changes_nothing(m: Seq<u8>, dest: int, src: int)
    ensures
        forward_ok(m.len() as int, dest, src, 0),
        backward_ok(m.len() as int, dest, src, 0),
        copied(m, dest, src, 0) == m,
{
    assert(copied(m, dest, src, 0) =~= m);
}

/// A copy whose destination is its source is allowed in either direction
/// and leaves the memory exactly as it was, whatever the count.
pub proof fn lemma_copy_onto_itself_changes_nothing(m: Seq<u8>, start: int, count: nat)
    requires
        0 <= start,
        start + count <= m.len(),
    ensures
        forward_ok(m.len() as int, start, start, count as int),
        backward_ok(m.len() as int, start + count, start + count, count as int),
        copied(m, start, start, count as int) == m,
{
    assert(copied(m, start, start, count as int) =~= m);
}

/// Element-by-element assignment upward, low addresses first, gives what a
/// forward copy gives whenever a forward copy is allowed: the source starts
/// at or above the destination, or the regions are disjoint.
pub proof fn lemma_forward_copy_is_upward_assignment(
    m: Seq<u8>,
    dest: int,
    src: int,
    count: nat,
)
    requires
        forward_ok(m.len() as int, dest, src, count as int),
    ensures
        assigned_upward(m, dest, src, count) == copied(m, dest, src, count as int),
    decreases count,
{
    if count == 0 {
        assert(copied(m, dest, src, 0) =~= m);
    } else {
        let n = (count - 1) as nat;
        lemma_forward_copy_is_upward_assignment(m, dest, src, n);
        lemma_forward_split(m, dest, src, n as int, 1);
        let p = copied(m, dest, src, n as int);
        assert(p.update(dest + n, p[src + n]) =~= copied(p, dest + n, src + n, 1));
    }
}

/// Element-by-element assignment downward, high addresses first, gives what a
/// backward copy gives whenever a backward copy is allowed: the source ends
/// at or below the destination, or the regions are disjoint.
pub proof fn lemma_backward_copy_is_downward_assignment(
    m: Seq<u8>,
    dest_end: int,
    src_end: int,
    count: nat,
)
    requires
        backward_ok(m.len() as int, dest_end, src_end, count as int),
    ensures
        assigned_downward(m, dest_end, src_end, count) == copied(
            m,
            dest_end - count,
            src_end - count,
            count as int,
        ),
    decreases count,
{
    if count == 0 {
        assert(copied(m, dest_end, src_end, 0) =~= m);
    } else {
        let n = (count - 1) as nat;
        lemma_backward_copy_is_downward_assignment(m, dest_end, src_end, n);
        lemma_backward_split(m, dest_end, src_end, n as int, 1);
        let p = copied(m, dest_end - n, src_end - n, n as int);
        assert(p.update(dest_end - count, p[src_end - count]) =~= copied(
            p,
            dest_end - n - 1,
            src_end - n - 1,
            1,
        ));
    }
}

/// For disjoint regions a copy is allowed in both directions, and each
/// destination byte ends up equal to its source byte as it was: the same
/// memory that element-by-element assignment gives, in either order.
pub proof fn lemma_disjoint_copy_is_assignment(m: Seq<u8>, dest: int, src: int, count: nat)
    requires
        0 <= dest,
        0 <= src,
        dest + count <= m.len(),
        src + count <= m.len(),
        disjoint(dest, src, count as int),
    ensures
        forward_ok(m.len() as int, dest, src, count as int),
        backward_ok(m.len() as int, dest + count, src + count, count as int),
        forall|k: int|
            0 <= k < count ==> #[trigger] copied(m, dest, src, count as int)[dest + k] == m[src
                + k],
        assigned_upward(m, dest, src, count) == copied(m, dest, src, count as int),
        assigned_downward(m, dest + count, src + count, count) == copied(
            m,
            dest,
            src,
            count as int,
        ),
{
    lemma_forward_copy_is_upward_assignment(m, dest, src, count);
    lemma_backward_copy_is_downward_assignment(m, dest + count, src + count, count);
}

/// A forward copy gives the same memory as byte copies of its pieces, taken
/// upward: the even part that the 2-byte loop moves, then the byte that an
/// odd count leaves.
pub proof fn lemma_forward_halfword_pieces(m: Seq<u8>, dest: int, src: int, count: usize)
    requires
        forward_ok(m.len() as int, dest, src, count as int),
    ensures
        ({
            let main = count - count % 2;
            let tail = (count & 1) as int;
            copied(copied(m, dest, src, main), dest + main, src + main, tail) == copied(
                m,
                dest,
                src,
                count as int,
            )
        }),
{
    assert(count & 1 == count % 2) by (bit_vector);
    if count == 0 {
        assert(copied(m, dest, src, 0) =~= m);
    } else {
        lemma_forward_split(m, dest, src, count - count % 2, (count % 2) as int);
    }
}

/// A forward copy gives the same memory as byte copies of its pieces, taken
/// upward: the multiple of four that the 4-byte loop moves, then the 2 bytes
/// that bit 1 of the remainder stands for, then the byte of bit 0.
pub proof fn lemma_forward_word_pieces(m: Seq<u8>, dest: int, src: int, count: usize)
    requires
        forward_ok(m.len() as int, dest, src, count as int),
    ensures
        ({
            let r = count % 4;
            let main = count - r;
            let half = (r & 2) as int;
            let byte = (r & 1) as int;
            copied(
                copied(copied(m, dest, src, main), dest + main, src + main, half),
                dest + main + half,
                src + main + half,
                byte,
            ) == copied(m, dest, src, count as int)
        }),
{
    let r = count % 4;
    let main = count - r;
    lemma_remainder_bits(r);
    let half = (r & 2) as int;
    let byte = (r & 1) as int;
    if count == 0 {
        assert(copied(m, dest, src, 0) =~= m);
    } else {
        lemma_forward_split(m, dest, src, main, half);
        lemma_forward_split(m, dest, src, main + half, byte);
    }
}

/// A backward copy gives the same memory as byte copies of its pieces, taken
/// downward: the even part at the top that the 2-byte loop moves, then the
/// lowest byte that an odd count leaves.
pub proof fn lemma_backward_halfword_pieces(
    m: Seq<u8>,
    dest_end: int,
    src_end: int,
    count: usize,
)
    requires
        backward_ok(m.len() as int, dest_end, src_end, count as int),
    ensures
        ({
            let main = count - count % 2;
            let tail = (count & 1) as int;
            copied(
                copied(m, dest_end - main, src_end - main, main),
                dest_end - count,
                src_end - count,
                tail,
            ) == copied(m, dest_end - count, src_end - count, count as int)
        }),
{
    assert(count & 1 == count % 2) by (bit_vector);
    if count == 0 {
        assert(copied(m, dest_end, src_end, 0) =~= m);
    } else {
        lemma_backward_split(m, dest_end, src_end, count - count % 2, (count % 2) as int);
    }
}

/// A backward copy gives the same memory as byte copies of its pieces, taken
/// downward: the multiple of four at the top that the 4-byte loop moves, then
/// the 2 bytes that bit 1 of the remainder stands for, then the lowest byte,
/// that of bit 0.
pub proof fn lemma_backward_word_pieces(m: Seq<u8>, dest_end: int, src_end: int, count: usize)
    requires
        backward_ok(m.len() as int, dest_end, src_end, count as int),
    ensures
        ({
            let r = count % 4;
            let main = count - r;
            let half = (r & 2) as int;
            let byte = (r & 1) as int;
            copied(
                copied(
                    copied(m, dest_end - main, src_end - main, main),
                    dest_end - main - half,
                    src_end - main - half,
                    half,
                ),
                dest_end - count,
                src_end - count,
                byte,
            ) == copied(m, dest_end - count, src_end - count, count as int)
        }),
{
    let r = count % 4;
    let main = count - r;
    lemma_remainder_bits(r);
    let half = (r & 2) as int;
    let byte = (r & 1) as int;
    if count == 0 {
        assert(copied(m, dest_end, src_end, 0) =~= m);
    } else {
        lemma_backward_split(m, dest_end, src_end, main, half);
        lemma_backward_split(m, dest_end, src_end, main + half, byte);
    }
}

} // verus!
