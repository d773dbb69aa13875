use chute::block::BLOCK_SIZE;
use chute::mpmc::{Queue, Reader, Writer};
use chute::LendingReader;
use rand::{Rng, SeedableRng};

fn drain(reader: &mut Reader<usize>, queue: &mut Queue<usize>) -> Vec<usize> {
    let mut vec = Vec::new();
    while let Some(value) = reader.next(queue) {
        vec.push(*value);
    }
    vec
}

#[test]
fn test_mpmc() {
    let mut queue: Queue<usize> = Default::default();
    let mut reader = queue.reader();

    const COUNT: usize = BLOCK_SIZE * 4;
    for i in 0..COUNT {
        queue.blocking_push(i);
    }

    let mut vec = Vec::new();
    while let Some(value) = reader.next(&mut queue) {
        vec.push(value.clone());
    }
    assert_eq!(vec, (0..COUNT).collect::<Vec<_>>());
}

/// `wt` writers and `rt` readers take turns on one queue, a few steps each, as
/// the random numbers say, until every reader has seen `len` messages.
fn test_mpmc_mt(rng: &mut rand::rngs::StdRng, wt: usize, rt: usize, len: usize) {
    let mut queue: Queue<usize> = Default::default();

    // Readers
    let control_sum: usize = (0..len).sum();
    let mut readers: Vec<Reader<usize>> = Vec::new();
    let mut sums = vec![0usize; rt];
    let mut seen = vec![0usize; rt];
    for _ in 0..rt {
        readers.push(queue.reader());
    }

    // Writers
    let messages = len / wt;
    let mut writers: Vec<Writer<usize>> = Vec::new();
    let mut next_message: Vec<usize> = Vec::new();
    for t in 0..wt {
        writers.push(queue.writer());
        next_message.push(t * messages);
    }

    let mut running = true;
    while running {
        running = false;
        for t in 0..wt {
            let end = (t + 1) * messages;
            let burst = rng.gen_range(1..=BLOCK_SIZE);
            for _ in 0..burst {
                if next_message[t] == end {
                    break;
                }
                writers[t].push(&mut queue, next_message[t]);
                next_message[t] += 1;
                running = true;
            }
        }
        for r in 0..rt {
            let burst = rng.gen_range(1..=2 * BLOCK_SIZE);
            for _ in 0..burst {
                if seen[r] == len {
                    break;
                }
                if let Some(value) = readers[r].next(&mut queue) {
                    sums[r] += value;
                    seen[r] += 1;
                    running = true;
                } else {
                    break;
                }
            }
        }
    }

    for r in 0..rt {
        assert_eq!(seen[r], len);
        assert_eq!(sums[r], control_sum);
    }
    for reader in readers {
        reader.drop(&mut queue);
    }
    for writer in writers {
        writer.drop(&mut queue);
    }
    assert_eq!(queue.live_blocks(), 1);
}

#[test]
fn fuzzy_mpmc() {
    const MAX_THREADS: usize = 16;
    const RANGE: usize = BLOCK_SIZE * 40;
    const REPEATS: usize = 100;

    let mut rng = rand::rngs::StdRng::seed_from_u64(0xe15bb9db3dee3a0f);
    // Who takes how many steps in its turn is drawn from a source of its own.
    let mut turns = rand::rngs::StdRng::seed_from_u64(0x7ab1e);
    for _ in 0..REPEATS {
        let wt = rng.gen_range(1..=MAX_THREADS);
        let rt = rng.gen_range(1..=MAX_THREADS);
        let len = rng.gen_range(0..RANGE) / wt * wt;
        test_mpmc_mt(&mut turns, wt, rt, len);
    }
}

#[test]
fn mpmc_seq_one_writer_one_reader() {
    let mut queue: Queue<usize> = Queue::new();
    let mut reader = queue.reader();
    let mut writer = queue.writer();
    for i in 0..16384 {
        writer.push(&mut queue, i);
    }
    assert_eq!(drain(&mut reader, &mut queue), (0..16384).collect::<Vec<_>>());
}

#[test]
fn mpmc_multi_writer_sum_and_order() {
    const WRITERS: usize = 8;
    const PER_WRITER: usize = 25000;
    const READERS: usize = 4;
    let mut queue: Queue<usize> = Queue::new();
    let mut readers: Vec<Reader<usize>> = (0..READERS).map(|_| queue.reader()).collect();
    let mut writers: Vec<Writer<usize>> = (0..WRITERS).map(|_| queue.writer()).collect();
    // The writers take turns, 7 messages at a time.
    let mut sent = vec![0usize; WRITERS];
    let mut left = WRITERS * PER_WRITER;
    while left > 0 {
        for w in 0..WRITERS {
            for _ in 0..7 {
                if sent[w] < PER_WRITER {
                    writers[w].push(&mut queue, w * PER_WRITER + sent[w]);
                    sent[w] += 1;
                    left -= 1;
                }
            }
        }
    }
    let control_sum: usize = (0..WRITERS * PER_WRITER).sum();
    for reader in readers.iter_mut() {
        let seen = drain(reader, &mut queue);
        assert_eq!(seen.len(), WRITERS * PER_WRITER);
        assert_eq!(seen.iter().sum::<usize>(), control_sum);
        // The messages of each writer come in the order of its pushes.
        let mut last: Vec<Option<usize>> = vec![None; WRITERS];
        for value in seen {
            let w = value / PER_WRITER;
            if let Some(before) = last[w] {
                assert!(before < value);
            }
            last[w] = Some(value);
        }
    }
}

#[test]
fn mpmc_late_reader_sees_only_later_messages() {
    let mut queue: Queue<usize> = Queue::new();
    for i in 0..1000 {
        queue.blocking_push(i);
    }
    let mut reader = queue.reader();
    assert!(reader.next(&mut queue).is_none());
    for i in 1000..1010 {
        queue.blocking_push(i);
    }
    assert_eq!(drain(&mut reader, &mut queue), (1000..1010).collect::<Vec<_>>());
}

#[test]
fn mpmc_reader_index_fields_follow_the_bitmap() {
    let mut queue: Queue<usize> = Queue::new();
    let mut reader = queue.reader();
    assert_eq!((reader.index, reader.len, reader.bitblock_index), (0, 0, 0));
    for i in 0..130 {
        queue.blocking_push(i);
    }
    // One bitmap word is looked at per poll: 64 slots become known.
    assert_eq!(reader.next(&mut queue), Some(&0));
    assert_eq!((reader.index, reader.len, reader.bitblock_index), (1, 64, 1));
    for i in 1..64 {
        assert_eq!(reader.next(&mut queue), Some(&i));
    }
    assert_eq!(reader.next(&mut queue), Some(&64));
    assert_eq!((reader.index, reader.len, reader.bitblock_index), (65, 128, 2));
    for i in 65..128 {
        assert_eq!(reader.next(&mut queue), Some(&i));
    }
    assert_eq!(reader.next(&mut queue), Some(&128));
    assert_eq!((reader.index, reader.len, reader.bitblock_index), (129, 130, 2));
    assert_eq!(reader.next(&mut queue), Some(&129));
    assert_eq!(reader.next(&mut queue), None);
    // A reader made now starts behind the 130 messages.
    let late = queue.reader();
    assert_eq!((late.index, late.len, late.bitblock_index), (130, 130, 2));
}

#[test]
fn mpmc_blocks_are_counted_and_reclaimed() {
    let mut queue: Queue<usize> = Queue::new();
    assert_eq!(queue.live_blocks(), 1);
    let mut reader = queue.reader();
    let first = reader.block.ptr;
    // The queue's tail pointer and the reader.
    assert_eq!(queue.use_count(first), 2);
    let mut writer = queue.writer();
    assert_eq!(queue.use_count(first), 3);
    for i in 0..10 * BLOCK_SIZE {
        writer.push(&mut queue, i);
    }
    // The reader stands still and keeps every block.
    assert_eq!(queue.live_blocks(), 10);
    // The first block: the reader alone.
    assert_eq!(queue.use_count(first), 1);
    let tail = writer.block.ptr;
    // The tail block: the tail pointer, the link from its predecessor, the
    // writer.
    assert_eq!(queue.use_count(tail), 3);
    let seen = drain(&mut reader, &mut queue);
    assert_eq!(seen, (0..10 * BLOCK_SIZE).collect::<Vec<_>>());
    // All but the current block are gone.
    assert_eq!(queue.live_blocks(), 1);
    assert_eq!(queue.use_count(first), 0);
    assert_eq!(reader.block.ptr, tail);
    // The link went with the predecessor; the reader came.
    assert_eq!(queue.use_count(tail), 3);
    writer.drop(&mut queue);
    assert_eq!(queue.use_count(tail), 2);
    reader.drop(&mut queue);
    assert_eq!(queue.use_count(tail), 1);
    assert_eq!(queue.live_blocks(), 1);
}

#[test]
fn mpmc_writer_update_moves_to_the_tail() {
    let mut queue: Queue<usize> = Queue::new();
    let mut stale = queue.writer();
    let first = stale.block.ptr;
    // Three blocks ahead: within the walk of `update`.
    for i in 0..3 * BLOCK_SIZE + 1 {
        queue.blocking_push(i);
    }
    assert_eq!(queue.live_blocks(), 4);
    stale.update(&mut queue);
    assert_ne!(stale.block.ptr, first);
    assert_eq!(queue.live_blocks(), 1);
    assert_eq!(queue.use_count(stale.block.ptr), 2);
    // Updating at the tail changes nothing.
    let at = stale.block.ptr;
    stale.update(&mut queue);
    assert_eq!(stale.block.ptr, at);
    assert_eq!(queue.use_count(at), 2);
    // Nine blocks ahead: beyond the walk, and the tail pointer is taken.
    let mut far = queue.writer();
    for i in 0..9 * BLOCK_SIZE {
        queue.blocking_push(i);
    }
    stale.update(&mut queue);
    let tail = stale.block.ptr;
    assert_eq!(queue.live_blocks(), 10);
    far.update(&mut queue);
    assert_eq!(far.block.ptr, tail);
    assert_eq!(queue.live_blocks(), 1);
    // A push of a stale writer lands at the tail, after everything else.
    let mut reader = queue.reader();
    let mut behind = queue.writer();
    for i in 0..2 * BLOCK_SIZE {
        queue.blocking_push(i);
    }
    behind.push(&mut queue, 77);
    let seen = drain(&mut reader, &mut queue);
    assert_eq!(seen.len(), 2 * BLOCK_SIZE + 1);
    assert_eq!(seen[2 * BLOCK_SIZE], 77);
    assert_eq!(behind.block.ptr, reader.block.ptr);
}

#[test]
fn mpmc_clone_and_drop_of_a_reader_keep_the_counts() {
    let mut queue: Queue<usize> = Queue::new();
    let mut reader = queue.reader();
    queue.blocking_push(5);
    queue.blocking_push(6);
    assert_eq!(reader.next(&mut queue), Some(&5));
    let block = reader.block.ptr;
    let before = queue.use_count(block);
    let mut twin = reader.clone(&mut queue);
    assert_eq!(queue.use_count(block), before + 1);
    assert_eq!(twin.next(&mut queue), Some(&6));
    assert_eq!(reader.next(&mut queue), Some(&6));
    twin.drop(&mut queue);
    assert_eq!(queue.use_count(block), before);
}

#[test]
fn mpmc_counters_have_room() {
    let mut queue: Queue<u8> = Queue::new();
    assert!(queue.room_at_tail());
    let mut reader = queue.reader();
    assert!(reader.room_for_next(&queue));
    assert!(reader.room_for_clone(&queue));
    for _ in 0..BLOCK_SIZE + 1 {
        queue.blocking_push(0);
    }
    while reader.index < BLOCK_SIZE {
        assert!(reader.next(&mut queue).is_some());
    }
    // At the end of a full block with a successor: the next call takes a
    // handle to the successor.
    assert!(reader.room_for_next(&queue));
    assert_eq!(reader.next(&mut queue), Some(&0));
    assert_eq!(reader.index, 1);
}

#[test]
fn mpmc_cloned_reader_hands_out_copies() {
    let mut queue: Queue<String> = Queue::new();
    let reader = queue.reader();
    let mut writer = queue.writer();
    writer.push(&mut queue, String::from("x"));
    let mut cloned = reader.cloned();
    assert_eq!(cloned.next(&mut queue), Some(String::from("x")));
    assert_eq!(cloned.next(&mut queue), None);
}

#[test]
fn mpmc_reader_never_skips_a_gap_in_the_bitmap() {
    let mut reader: Reader<u8> = Reader {
        block: chute::block::BlockArc::from_raw(0),
        index: 0,
        len: 0,
        bitblock_index: 0,
        phantom_data: std::marker::PhantomData,
    };
    // Nothing written.
    assert!(!reader.poll(0));
    // Slots 0, 1 and 3 are written: slot 3 stays hidden behind slot 2.
    assert!(reader.poll(0b1011));
    assert_eq!((reader.index, reader.len, reader.bitblock_index), (0, 2, 0));
    assert!(!reader.poll(0b1011));
    assert!(reader.poll(0b1111));
    assert_eq!((reader.len, reader.bitblock_index), (4, 0));
    // The whole word: the reader goes on to the next one.
    assert!(reader.poll(u64::MAX));
    assert_eq!((reader.len, reader.bitblock_index), (64, 1));
    assert!(!reader.poll(0));
    assert!(reader.poll(0b1));
    assert_eq!((reader.len, reader.bitblock_index), (65, 1));
    // Entering a block at its third word, of which five slots are written.
    reader.enter(2, 0b11111);
    assert_eq!((reader.index, reader.len, reader.bitblock_index), (0, 133, 2));
    reader.enter(63, u64::MAX);
    assert_eq!((reader.index, reader.len, reader.bitblock_index), (0, BLOCK_SIZE, 64));
}

#[test]
fn mpmc_random_turns_keep_every_reader_in_step() {
    let mut rng = rand::rngs::StdRng::seed_from_u64(0xc0ffee);
    let mut queue: Queue<usize> = Queue::new();
    // Each reader with the number of the message that it gets next.
    let mut readers: Vec<(Reader<usize>, usize)> = Vec::new();
    let mut writers: Vec<Writer<usize>> = vec![queue.writer()];
    let mut pushed = 0;
    for _ in 0..20000 {
        match rng.gen_range(0..9) {
            0 => {
                let reader = queue.reader();
                readers.push((reader, pushed));
            }
            1 => {
                if !readers.is_empty() {
                    let r = rng.gen_range(0..readers.len());
                    let (reader, _) = readers.swap_remove(r);
                    reader.drop(&mut queue);
                }
            }
            2 => {
                if !readers.is_empty() {
                    let r = rng.gen_range(0..readers.len());
                    let twin = readers[r].0.clone(&mut queue);
                    let at = readers[r].1;
                    readers.push((twin, at));
                }
            }
            3 => writers.push(queue.writer()),
            4 => {
                if writers.len() > 1 {
                    let w = rng.gen_range(0..writers.len());
                    writers.swap_remove(w).drop(&mut queue);
                }
            }
            5 => {
                let w = rng.gen_range(0..writers.len());
                writers[w].update(&mut queue);
            }
            6 => {
                for _ in 0..rng.gen_range(1..700) {
                    let w = rng.gen_range(0..writers.len());
                    writers[w].push(&mut queue, pushed);
                    pushed += 1;
                }
            }
            7 => {
                queue.blocking_push(pushed);
                pushed += 1;
            }
            _ => {
                if !readers.is_empty() {
                    let r = rng.gen_range(0..readers.len());
                    for _ in 0..rng.gen_range(1..1500) {
                        let (reader, at) = &mut readers[r];
                        match reader.next(&mut queue) {
                            Some(value) => {
                                assert_eq!(*value, *at);
                                *at += 1;
                            }
                            None => {
                                assert_eq!(*at, pushed);
                                break;
                            }
                        }
                    }
                }
            }
        }
    }
    for (mut reader, mut at) in readers {
        while let Some(value) = reader.next(&mut queue) {
            assert_eq!(*value, at);
            at += 1;
        }
        assert_eq!(at, pushed);
        reader.drop(&mut queue);
    }
    for writer in writers {
        writer.drop(&mut queue);
    }
    assert_eq!(queue.live_blocks(), 1);
}
