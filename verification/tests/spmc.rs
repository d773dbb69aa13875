use chute::block::BLOCK_SIZE;
use chute::spmc::{Queue, Reader};
use chute::{ClonedReader, LendingReader};
use rand::{Rng, SeedableRng};

#[derive(Clone)]
struct StringWrapper(String);

impl From<usize> for StringWrapper {
    fn from(value: usize) -> Self {
        StringWrapper(format!("{value}"))
    }
}

impl From<StringWrapper> for usize {
    fn from(value: StringWrapper) -> usize {
        value.0.parse().unwrap()
    }
}

/// One writer and `rt` readers take turns on one queue, a few steps each, as
/// the random numbers say, until every reader has seen `len` messages.
fn test_spmc_mt<Value>(rng: &mut rand::rngs::StdRng, rt: usize, len: usize)
where
    Value: From<usize> + Into<usize> + Clone + 'static,
{
    let mut queue: Queue<Value> = Default::default();

    // Readers
    let control_sum: usize = (0..len).sum();
    let mut readers: Vec<Reader<Value>> = Vec::new();
    let mut sums = vec![0usize; rt];
    let mut seen = vec![0usize; rt];
    for _ in 0..rt {
        readers.push(queue.reader());
    }

    let mut pushed = 0;
    let mut running = true;
    while running {
        running = false;
        let burst = rng.gen_range(1..=BLOCK_SIZE);
        for _ in 0..burst {
            if pushed == len {
                break;
            }
            queue.push(pushed.into());
            pushed += 1;
            running = true;
        }
        for r in 0..rt {
            let burst = rng.gen_range(1..=2 * BLOCK_SIZE);
            for _ in 0..burst {
                if seen[r] == len {
                    break;
                }
                if let Some(value) = readers[r].next(&mut queue) {
                    sums[r] += value.clone().into();
                    seen[r] += 1;
                    running = true;
                } else {
                    break;
                }
            }
        }
    }
    for r in 0..rt {
        assert_eq!(seen[r], len);
        assert_eq!(sums[r], control_sum);
    }
}

#[test]
fn fuzzy_spmc() {
    const MAX_THREADS: usize = 4;
    const RANGE: usize = 8 * BLOCK_SIZE;
    const REPEATS: usize = 10;

    let mut rng = rand::rngs::StdRng::seed_from_u64(0xe15bb9db3dee3a0f);
    // Who takes how many steps in its turn is drawn from a source of its own.
    let mut turns = rand::rngs::StdRng::seed_from_u64(0x7ab1e);
    for _ in 0..REPEATS {
        let rt = rng.gen_range(1..=MAX_THREADS);
        let len = rng.gen_range(0..RANGE);
        test_spmc_mt::<usize>(&mut turns, rt, len);
        test_spmc_mt::<StringWrapper>(&mut turns, rt, len);
    }
}

#[test]
fn spmc_single_reader_sees_all_in_order() {
    let mut queue: Queue<usize> = Queue::new();
    let mut reader = queue.reader();
    const COUNT: usize = BLOCK_SIZE * 3 + 17;
    for i in 0..COUNT {
        queue.push(i);
    }
    let mut vec = Vec::new();
    while let Some(value) = reader.next(&mut queue) {
        vec.push(*value);
    }
    assert_eq!(vec, (0..COUNT).collect::<Vec<_>>());
    assert_eq!(queue.live_blocks(), 1);
    reader.drop(&mut queue);
    assert_eq!(queue.live_blocks(), 1);
}

#[test]
fn spmc_broadcast_to_four_readers() {
    let mut queue: Queue<usize> = Queue::new();
    let mut readers: Vec<Reader<usize>> = (0..4).map(|_| queue.reader()).collect();
    for i in 0..400 {
        queue.push(i);
    }
    for reader in readers.iter_mut() {
        let mut seen = Vec::new();
        while let Some(value) = reader.next(&mut queue) {
            seen.push(*value);
        }
        assert_eq!(seen, (0..400).collect::<Vec<_>>());
    }
}

#[test]
fn spmc_push_count_on_block_boundaries() {
    for k in 1..=3 {
        let mut queue: Queue<usize> = Queue::new();
        let mut reader = queue.reader();
        for i in 0..k * BLOCK_SIZE {
            queue.push(i);
        }
        // A full tail block gets its successor only with the next push.
        assert_eq!(queue.live_blocks(), k);
        let mut count = 0;
        while let Some(value) = reader.next(&mut queue) {
            assert_eq!(*value, count);
            count += 1;
        }
        assert_eq!(count, k * BLOCK_SIZE);
        assert_eq!((reader.index, reader.len), (BLOCK_SIZE, BLOCK_SIZE));
        assert_eq!(queue.live_blocks(), 1);
        assert!(reader.next(&mut queue).is_none());
        queue.push(9);
        assert_eq!(queue.live_blocks(), 2);
        assert_eq!(reader.next(&mut queue), Some(&9));
        assert_eq!((reader.index, reader.len), (1, 1));
        assert_eq!(queue.live_blocks(), 1);
    }
}

#[test]
fn spmc_reader_made_and_dropped_leaves_the_queue_as_it_was() {
    let mut queue: Queue<usize> = Queue::new();
    for i in 0..BLOCK_SIZE + 3 {
        queue.push(i);
    }
    let blocks = queue.live_blocks();
    let reader = queue.reader();
    let tail = reader.block.ptr;
    assert_eq!(queue.use_count(tail), 2);
    reader.drop(&mut queue);
    assert_eq!(queue.use_count(tail), 1);
    assert_eq!(queue.live_blocks(), blocks);
    assert_eq!(blocks, 1);
}

#[test]
fn spmc_clone_and_drop_of_a_reader_keep_the_counts() {
    let mut queue: Queue<usize> = Queue::new();
    let mut reader = queue.reader();
    for i in 0..3 {
        queue.push(i);
    }
    assert_eq!(reader.next(&mut queue), Some(&0));
    let block = reader.block.ptr;
    let mut twin = reader.clone(&mut queue);
    assert_eq!(queue.use_count(block), 3);
    assert_eq!((twin.index, twin.len), (reader.index, reader.len));
    assert_eq!(twin.next(&mut queue), Some(&1));
    assert_eq!(reader.next(&mut queue), Some(&1));
    twin.drop(&mut queue);
    assert_eq!(queue.use_count(block), 2);
    assert_eq!(reader.next(&mut queue), Some(&2));
}

#[test]
fn spmc_stationary_reader_keeps_the_suffix() {
    let mut queue: Queue<usize> = Queue::new();
    for i in 0..BLOCK_SIZE {
        queue.push(i);
    }
    let mut still = queue.reader();
    let mut moving = queue.reader();
    for i in 0..5 * BLOCK_SIZE {
        queue.push(i);
    }
    assert_eq!(queue.live_blocks(), 6);
    while moving.next(&mut queue).is_some() {}
    // The reader that went on gave up the blocks behind it; the one that
    // stands still keeps its block and every later one.
    assert_eq!(queue.live_blocks(), 6);
    moving.drop(&mut queue);
    assert_eq!(queue.live_blocks(), 6);
    let mut seen = Vec::new();
    while let Some(value) = still.next(&mut queue) {
        seen.push(*value);
    }
    assert_eq!(seen, (0..5 * BLOCK_SIZE).collect::<Vec<_>>());
    assert_eq!(queue.live_blocks(), 1);
}

#[test]
fn spmc_late_reader_sees_only_later_messages() {
    let mut queue: Queue<usize> = Queue::new();
    for i in 0..1000 {
        queue.push(i);
    }
    let mut reader = queue.reader();
    assert_eq!((reader.index, reader.len), (1000, 1000));
    assert!(reader.next(&mut queue).is_none());
    queue.push(1000);
    assert_eq!(reader.next(&mut queue), Some(&1000));
    assert!(reader.next(&mut queue).is_none());
}

#[test]
fn cloned_reader_hands_out_copies() {
    let mut queue: Queue<String> = Queue::new();
    let reader = queue.reader();
    queue.push(String::from("a"));
    queue.push(String::from("b"));
    let mut cloned: ClonedReader<Reader<String>> = reader.cloned();
    assert_eq!(cloned.next(&mut queue), Some(String::from("a")));
    assert_eq!(cloned.next(&mut queue), Some(String::from("b")));
    assert_eq!(cloned.next(&mut queue), None);
    // The messages are still in the queue for other readers.
    assert_eq!(cloned.reader.index, 2);
}

#[test]
fn lending_reader_is_the_same_for_both_queues() {
    fn count<R: LendingReader>(reader: &mut R, queue: &mut R::Queue) -> usize {
        let mut n = 0;
        while LendingReader::next(reader, queue).is_some() {
            n += 1;
        }
        n
    }
    let mut spmc: Queue<u8> = Queue::new();
    let mut reader = spmc.reader();
    for i in 0..10 {
        spmc.push(i);
    }
    assert_eq!(count(&mut reader, &mut spmc), 10);
    let mut mpmc: chute::mpmc::Queue<u8> = chute::mpmc::Queue::new();
    let mut reader = mpmc.reader();
    for i in 0..7 {
        mpmc.blocking_push(i);
    }
    assert_eq!(count(&mut reader, &mut mpmc), 7);
}

#[test]
fn spmc_counters_have_room() {
    let mut queue: Queue<u8> = Queue::new();
    assert!(queue.room_for_reader());
    let reader = queue.reader();
    assert!(reader.room_for_next(&queue));
    assert!(reader.room_for_clone(&queue));
}
