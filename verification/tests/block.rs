use chute::block::{bit_block_index, bit_mask, ready_len, BlockArc, BITBLOCKS_LEN, BLOCK_SIZE};
use chute::CacheLineAlign;

#[test]
fn block_size_is_a_multiple_of_the_bitmap_word() {
    assert_eq!(BLOCK_SIZE, 4096);
    assert_eq!(BITBLOCKS_LEN, 64);
    assert_eq!(BITBLOCKS_LEN * 64, BLOCK_SIZE);
}

#[test]
fn cache_line_align_wraps_its_value() {
    let aligned = CacheLineAlign::new(7usize);
    assert_eq!(*aligned.get(), 7);
    assert_eq!(aligned.0, 7);
}

#[test]
fn slot_addressing_in_the_bitmap() {
    assert_eq!(bit_block_index(0), 0);
    assert_eq!(bit_block_index(63), 0);
    assert_eq!(bit_block_index(64), 1);
    assert_eq!(bit_block_index(4095), 63);
    assert_eq!(bit_mask(0), 1);
    assert_eq!(bit_mask(5), 32);
    assert_eq!(bit_mask(63), 1 << 63);
    assert_eq!(bit_mask(64), 1);
    assert_eq!(bit_mask(70), 64);
}

#[test]
fn ready_len_is_the_unbroken_prefix() {
    assert_eq!(ready_len(0, 0), 0);
    assert_eq!(ready_len(0, 0b1), 1);
    assert_eq!(ready_len(0, 0b0111), 3);
    // A gap hides the slots behind it.
    assert_eq!(ready_len(0, 0b1011), 2);
    assert_eq!(ready_len(0, 0b1110), 0);
    assert_eq!(ready_len(0, u64::MAX), 64);
    assert_eq!(ready_len(0, u64::MAX >> 1), 63);
    assert_eq!(ready_len(3, 0), 192);
    assert_eq!(ready_len(3, 0b11), 194);
    assert_eq!(ready_len(63, u64::MAX), 4096);
}

#[test]
fn block_arc_is_a_plain_handle() {
    let mut arc = BlockArc::from_raw(3);
    assert_eq!(arc.as_non_null(), 3);
    assert_eq!(arc.ptr, 3);
    assert_eq!(arc.into_raw(), 3);
}

#[test]
fn long_chain_is_given_up_block_by_block() {
    // A reader at the start keeps 300 blocks; giving it up frees them all, one
    // after the other.
    let mut queue: chute::spmc::Queue<u8> = chute::spmc::Queue::new();
    let reader = queue.reader();
    for _ in 0..300 * BLOCK_SIZE {
        queue.push(1);
    }
    assert_eq!(queue.live_blocks(), 300);
    reader.drop(&mut queue);
    assert_eq!(queue.live_blocks(), 1);
    // The freed slots are used again.
    let reader = queue.reader();
    for _ in 0..2 * BLOCK_SIZE {
        queue.push(1);
    }
    assert_eq!(queue.live_blocks(), 3);
    assert!(reader.block.ptr < 300);
    reader.drop(&mut queue);
    assert_eq!(queue.live_blocks(), 1);
}
