use aeabi_fns::{
  copy_u16_backward, copy_u16_forward, copy_u32_backward, copy_u32_forward,
  copy_u8_backward, copy_u8_forward,
};

type CopyFn = fn(&mut [u8], usize, usize, usize);

const FORWARD: [CopyFn; 3] = [copy_u8_forward, copy_u16_forward, copy_u32_forward];
const BACKWARD: [CopyFn; 3] = [copy_u8_backward, copy_u16_backward, copy_u32_backward];

/// A memory of `n` distinct bytes, 1, 2, .., n.
fn numbered(n: usize) -> Vec<u8> {
  (1..=n).map(|i| i as u8).collect()
}

/// What a forward copy should leave: each destination byte assigned from
/// the source, low addresses first.
fn assigned_upward(mem: &[u8], dest: usize, src: usize, count: usize) -> Vec<u8> {
  let mut out = mem.to_vec();
  for k in 0..count {
    out[dest + k] = out[src + k];
  }
  out
}

/// What a backward copy should leave: each destination byte assigned from
/// the source, high addresses first; the arguments are ends of the regions.
fn assigned_downward(mem: &[u8], dest_end: usize, src_end: usize, count: usize) -> Vec<u8> {
  let mut out = mem.to_vec();
  for k in 1..=count {
    out[dest_end - k] = out[src_end - k];
  }
  out
}

#[test]
fn zero_count_leaves_memory_unchanged_at_any_address() {
  let addresses = [(0, 0), (3, 1), (100, 200), (usize::MAX, 7), (usize::MAX, usize::MAX)];
  for copy in FORWARD.iter().chain(BACKWARD.iter()) {
    for &(dest, src) in addresses.iter() {
      let mut mem = vec![1_u8, 2, 3, 4];
      copy(&mut mem, dest, src, 0);
      assert_eq!(mem, vec![1, 2, 3, 4]);
    }
  }
}

#[test]
fn zero_count_on_empty_memory() {
  for copy in FORWARD.iter().chain(BACKWARD.iter()) {
    let mut mem: Vec<u8> = Vec::new();
    copy(&mut mem, 0, 0, 0);
    assert!(mem.is_empty());
  }
}

#[test]
fn forward_byte_copy_between_disjoint_regions() {
  // destination 0..3, source 3..6
  let mut mem = vec![0_u8, 0, 0, 10, 20, 30];
  copy_u8_forward(&mut mem, 0, 3, 3);
  assert_eq!(mem[..3], [10, 20, 30]);
  assert_eq!(mem[3..], [10, 20, 30]);
}

#[test]
fn backward_byte_copy_shifts_block_up_by_one() {
  let mut mem = vec![1_u8, 2, 3, 4, 5, 0];
  copy_u8_backward(&mut mem, 6, 5, 5);
  assert_eq!(mem, vec![1, 1, 2, 3, 4, 5]);
}

#[test]
fn word_copy_of_seven_bytes_matches_byte_copy() {
  // disjoint: destination 0..8, source 8..16
  let base = numbered(16);
  let mut by_word = base.clone();
  let mut by_byte = base.clone();
  copy_u32_forward(&mut by_word, 0, 8, 7);
  copy_u8_forward(&mut by_byte, 0, 8, 7);
  assert_eq!(by_word, by_byte);
  assert_eq!(by_word[..8], [9, 10, 11, 12, 13, 14, 15, 8]);

  // disjoint: destination 1..8, source 9..16
  let mut by_word = base.clone();
  let mut by_byte = base.clone();
  copy_u32_backward(&mut by_word, 8, 16, 7);
  copy_u8_backward(&mut by_byte, 8, 16, 7);
  assert_eq!(by_word, by_byte);
  assert_eq!(by_word[..8], [1, 10, 11, 12, 13, 14, 15, 16]);
}

#[test]
fn word_copy_tails_exact_values() {
  // forward, overlapping, source four above the destination
  let mut mem = numbered(12);
  copy_u32_forward(&mut mem, 0, 4, 7);
  assert_eq!(mem, vec![5, 6, 7, 8, 9, 10, 11, 8, 9, 10, 11, 12]);

  // backward, overlapping, source four below the destination
  let mut mem = numbered(12);
  copy_u32_backward(&mut mem, 12, 8, 7);
  assert_eq!(mem, vec![1, 2, 3, 4, 5, 2, 3, 4, 5, 6, 7, 8]);

  // backward with a remainder of 2: only the halfword tail
  let mut mem = numbered(12);
  copy_u32_backward(&mut mem, 12, 8, 6);
  assert_eq!(mem, vec![1, 2, 3, 4, 5, 6, 3, 4, 5, 6, 7, 8]);

  // forward with a remainder of 1: only the byte tail
  let mut mem = numbered(12);
  copy_u32_forward(&mut mem, 0, 4, 5);
  assert_eq!(mem, vec![5, 6, 7, 8, 9, 6, 7, 8, 9, 10, 11, 12]);
}

#[test]
fn halfword_copy_exact_values() {
  // forward, overlapping, odd count: the last byte alone
  let mut mem = numbered(8);
  copy_u16_forward(&mut mem, 0, 2, 5);
  assert_eq!(mem, vec![3, 4, 5, 6, 7, 6, 7, 8]);

  // backward, overlapping, odd count: the lowest byte alone
  let mut mem = numbered(8);
  copy_u16_backward(&mut mem, 8, 6, 5);
  assert_eq!(mem, vec![1, 2, 3, 2, 3, 4, 5, 6]);
}

#[test]
fn copy_onto_itself_changes_nothing() {
  let base = numbered(64);
  for count in 0..=16_usize {
    for start in [0_usize, 4, 8, 48] {
      for copy in FORWARD.iter() {
        let mut mem = base.clone();
        copy(&mut mem, start, start, count);
        assert_eq!(mem, base);
      }
      for copy in BACKWARD.iter() {
        let mut mem = base.clone();
        copy(&mut mem, start + 16, start + 16, count);
        assert_eq!(mem, base);
      }
    }
  }
}

#[test]
fn disjoint_copies_assign_each_byte_from_its_source() {
  let base = numbered(64);
  for count in 0..=16_usize {
    for (dest, src) in [(0_usize, 32_usize), (32, 0), (4, 20), (40, 8)] {
      let expected = assigned_upward(&base, dest, src, count);
      for k in 0..count {
        assert_eq!(expected[dest + k], base[src + k]);
      }
      for copy in FORWARD.iter() {
        let mut mem = base.clone();
        copy(&mut mem, dest, src, count);
        assert_eq!(mem, expected);
      }
    }
    for (dest_end, src_end) in [(16_usize, 48_usize), (48, 16), (20, 36), (56, 24)] {
      let expected = assigned_downward(&base, dest_end, src_end, count);
      assert_eq!(expected, assigned_upward(&base, dest_end - count, src_end - count, count));
      for k in 0..count {
        assert_eq!(expected[dest_end - count + k], base[src_end - count + k]);
      }
      for copy in BACKWARD.iter() {
        let mut mem = base.clone();
        copy(&mut mem, dest_end, src_end, count);
        assert_eq!(mem, expected);
      }
    }
  }
}

#[test]
fn forward_overlap_is_upward_assignment() {
  let base = numbered(64);
  for count in 0..=16_usize {
    for shift in [4_usize, 8, 12] {
      let dest = 8;
      let src = dest + shift;
      let expected = assigned_upward(&base, dest, src, count);
      let mut moved = base.clone();
      moved.copy_within(src..src + count, dest);
      assert_eq!(expected, moved);
      for copy in FORWARD.iter() {
        let mut mem = base.clone();
        copy(&mut mem, dest, src, count);
        assert_eq!(mem, expected);
      }
    }
  }
}

#[test]
fn backward_overlap_is_downward_assignment() {
  let base = numbered(64);
  for count in 0..=16_usize {
    for shift in [4_usize, 8, 12] {
      let src_end = 32;
      let dest_end = src_end + shift;
      let expected = assigned_downward(&base, dest_end, src_end, count);
      let mut moved = base.clone();
      moved.copy_within(src_end - count..src_end, dest_end - count);
      assert_eq!(expected, moved);
      for copy in BACKWARD.iter() {
        let mut mem = base.clone();
        copy(&mut mem, dest_end, src_end, count);
        assert_eq!(mem, expected);
      }
    }
  }
}

#[test]
fn chunked_copies_match_byte_copies_for_every_remainder() {
  let base = numbered(64);
  for count in 0..=19_usize {
    // count % 4 runs over 0..4 and count % 2 over 0..2
    for (dest, src) in [(0_usize, 32_usize), (8, 12), (8, 8)] {
      let mut by_byte = base.clone();
      copy_u8_forward(&mut by_byte, dest, src, count);
      let mut by_half = base.clone();
      copy_u16_forward(&mut by_half, dest, src, count);
      let mut by_word = base.clone();
      copy_u32_forward(&mut by_word, dest, src, count);
      assert_eq!(by_half, by_byte, "count:{count}");
      assert_eq!(by_word, by_byte, "count:{count}");
    }
    for (dest_end, src_end) in [(24_usize, 56_usize), (40, 36), (40, 40)] {
      let mut by_byte = base.clone();
      copy_u8_backward(&mut by_byte, dest_end, src_end, count);
      let mut by_half = base.clone();
      copy_u16_backward(&mut by_half, dest_end, src_end, count);
      let mut by_word = base.clone();
      copy_u32_backward(&mut by_word, dest_end, src_end, count);
      assert_eq!(by_half, by_byte, "count:{count}");
      assert_eq!(by_word, by_byte, "count:{count}");
    }
  }
}

#[test]
fn copies_reaching_the_end_of_memory() {
  // the whole memory is one region, the other region is the memory itself
  let base = numbered(16);
  for copy in FORWARD.iter() {
    let mut mem = base.clone();
    copy(&mut mem, 0, 0, 16);
    assert_eq!(mem, base);
  }
  // last four bytes moved down to the front, and back up again
  for copy in FORWARD.iter() {
    let mut mem = base.clone();
    copy(&mut mem, 0, 12, 4);
    assert_eq!(mem[..4], [13, 14, 15, 16]);
    assert_eq!(mem[4..], base[4..]);
  }
  for copy in BACKWARD.iter() {
    let mut mem = base.clone();
    copy(&mut mem, 16, 4, 4);
    assert_eq!(mem[12..], [1, 2, 3, 4]);
    assert_eq!(mem[..12], base[..12]);
  }
}
