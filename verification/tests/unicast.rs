use chute::unicast::block::BLOCK_SIZE;
use chute::unicast::spmc::{backoff_next, backoff_spins, Queue, Reader};
use rand::{Rng, SeedableRng};

#[test]
fn smoke_test() {
    let mut queue: Queue<usize> = Default::default();
    let mut reader = queue.reader();

    const COUNT: usize = BLOCK_SIZE * 20;
    for i in 0..COUNT {
        queue.push(i);
    }

    let mut vec = Vec::new();
    for _ in 0..COUNT {
        let mut session = reader.session();
        let guard = session.next(&mut queue).unwrap();
        let value = guard.get(&queue).clone();
        guard.drop(&mut queue);
        session.drop(&mut queue);
        vec.push(value);
    }

    assert_eq!(vec, (0..COUNT).collect::<Vec<_>>());
}

#[test]
fn spsc_test() {
    let mut queue: Queue<String> = Queue::default();

    const COUNT: usize = BLOCK_SIZE * 2 + 32;
    const THREAD_LEFTOVERS: usize = 1;
    const READ_THREADS: usize = 4;

    let mut out: Vec<String> = Vec::new();
    let mut readers: Vec<Reader<String>> = (0..READ_THREADS).map(|_| queue.reader()).collect();

    for i in 0..COUNT {
        queue.push(String::from(format!("{i}")));
    }

    let mut vecs: Vec<Vec<String>> = (0..READ_THREADS).map(|_| Vec::new()).collect();
    // The readers take turns, one message each.
    for _ in 0..COUNT / READ_THREADS - THREAD_LEFTOVERS {
        for (t, reader) in readers.iter_mut().enumerate() {
            let mut read_session = reader.session();
            let msg = read_session.next(&mut queue).unwrap();
            vecs[t].push(msg.take(&mut queue));
            read_session.drop(&mut queue);
        }
    }
    for vec in vecs {
        out.extend(vec);
    }

    out.sort_by_key(|s| s.parse::<usize>().unwrap());
    let control: Vec<String> = (0..COUNT - THREAD_LEFTOVERS * READ_THREADS)
        .map(|i| String::from(format!("{i}")))
        .collect();
    assert_eq!(out, control);
}

#[test]
fn unicast_partition_among_four_readers() {
    const COUNT: usize = 200000;
    let mut queue: Queue<usize> = Queue::new();
    let mut readers: Vec<Reader<usize>> = (0..4).map(|_| queue.reader()).collect();
    for i in 0..COUNT {
        queue.push(i);
    }
    let mut seen: Vec<Vec<usize>> = (0..4).map(|_| Vec::new()).collect();
    let mut turn = 0;
    loop {
        // Reader `t` takes `t + 1` messages in its turn.
        let t = turn % 4;
        let mut got = false;
        for _ in 0..t + 1 {
            match readers[t].next(&mut queue) {
                Some(guard) => {
                    seen[t].push(guard.take(&mut queue));
                    got = true;
                }
                None => break,
            }
        }
        if !got {
            break;
        }
        turn += 1;
    }
    // Each reader's messages come in the order of the pushes.
    for list in seen.iter() {
        assert!(list.windows(2).all(|w| w[0] < w[1]));
    }
    // Together they are all messages, each once.
    let mut all: Vec<usize> = seen.into_iter().flatten().collect();
    assert_eq!(all.len(), COUNT);
    all.sort();
    assert_eq!(all, (0..COUNT).collect::<Vec<_>>());
    for reader in readers.iter_mut() {
        assert!(reader.next(&mut queue).is_none());
    }
}

#[test]
fn unicast_block_counts_emptied_slots_and_gives_up_its_storage() {
    let mut queue: Queue<usize> = Queue::new();
    let mut reader = queue.reader();
    let first = reader.block.ptr;
    assert_eq!(queue.read_succ(first), Some((0, true)));
    for i in 0..BLOCK_SIZE + 5 {
        queue.push(i);
    }
    for i in 0..BLOCK_SIZE - 1 {
        let guard = reader.next(&mut queue).unwrap();
        assert_eq!(*guard.get(&queue), i);
        guard.drop(&mut queue);
    }
    assert_eq!(queue.read_succ(first), Some((BLOCK_SIZE - 1, true)));
    // The last slot: claimed, but not counted while the guard is there.
    let guard = reader.next(&mut queue).unwrap();
    assert_eq!(queue.read_succ(first), Some((BLOCK_SIZE - 1, true)));
    assert_eq!(guard.take(&mut queue), BLOCK_SIZE - 1);
    // Every slot is counted: the storage is gone, the header stays with the
    // reader.
    assert_eq!(queue.read_succ(first), Some((BLOCK_SIZE, false)));
    assert_eq!(queue.live_blocks(), 2);
    // The next claim moves the reader on, and nobody holds the first block.
    let guard = reader.next(&mut queue).unwrap();
    assert_eq!(*guard.get(&queue), BLOCK_SIZE);
    let second = guard.block.ptr;
    guard.drop(&mut queue);
    assert_eq!(queue.read_succ(first), None);
    assert_eq!(queue.live_blocks(), 1);
    assert_eq!(queue.read_succ(second), Some((1, true)));
    assert_eq!(reader.block.ptr, second);
}

#[test]
fn unicast_session_counts_when_it_ends_or_the_block_changes() {
    let mut queue: Queue<usize> = Queue::new();
    let mut reader = queue.reader();
    let mut other = queue.reader();
    let first = reader.block.ptr;
    for i in 0..BLOCK_SIZE + 10 {
        queue.push(i);
    }
    {
        let mut session = reader.session();
        for i in 0..10 {
            let guard = session.next(&mut queue).unwrap();
            assert_eq!(guard.take(&mut queue), i);
        }
        assert_eq!(session.read_succ, 10);
        // Nothing is counted yet.
        assert_eq!(queue.read_succ(first), Some((0, true)));
        session.drop(&mut queue);
        assert_eq!(queue.read_succ(first), Some((10, true)));
    }
    {
        // A session that crosses the block boundary.
        let mut session = reader.session();
        for i in 10..BLOCK_SIZE {
            let guard = session.next(&mut queue).unwrap();
            assert_eq!(*guard.get(&queue), i);
            guard.drop(&mut queue);
        }
        assert_eq!(session.read_succ, BLOCK_SIZE - 10);
        assert_eq!(queue.read_succ(first), Some((10, true)));
        // The claim in the next block has the old block count first: all its
        // slots are emptied, and its storage goes. The other reader still
        // holds the header.
        let guard = session.next(&mut queue).unwrap();
        assert_eq!(*guard.get(&queue), BLOCK_SIZE);
        let second = guard.block;
        guard.drop(&mut queue);
        assert_eq!(session.read_succ, 1);
        assert_eq!(queue.read_succ(first), Some((BLOCK_SIZE, false)));
        assert_eq!(queue.read_succ(second), Some((0, true)));
        session.drop(&mut queue);
        assert_eq!(queue.read_succ(second), Some((1, true)));
    }
    // The other reader, still on the first block, goes to the read block.
    assert_eq!(other.block.ptr, first);
    let guard = other.next(&mut queue).unwrap();
    assert_eq!(guard.take(&mut queue), BLOCK_SIZE + 1);
    assert_ne!(other.block.ptr, first);
    assert_eq!(queue.read_succ(first), None);
    assert_eq!(queue.live_blocks(), 1);
}

#[test]
fn unicast_reader_handles_are_counted() {
    let mut queue: Queue<u8> = Queue::new();
    let block = queue.reader();
    let ptr = block.block.ptr;
    // Read block, write block, one reader.
    assert_eq!(queue.use_count(ptr), 3);
    let twin = block.clone(&mut queue);
    assert_eq!(queue.use_count(ptr), 4);
    twin.drop(&mut queue);
    block.drop(&mut queue);
    assert_eq!(queue.use_count(ptr), 2);
    assert_eq!(queue.live_blocks(), 1);
    let mut reader = queue.reader();
    assert!(reader.next(&mut queue).is_none());
    queue.push(3);
    let guard = reader.next(&mut queue).unwrap();
    assert_eq!(guard.index, 0);
    assert_eq!(guard.take(&mut queue), 3);
    assert!(reader.next(&mut queue).is_none());
}

#[test]
fn unicast_backoff_doubles_up_to_1024() {
    let mut exp = 0;
    let mut spins = Vec::new();
    for _ in 0..13 {
        spins.push(backoff_spins(exp));
        exp = backoff_next(exp);
    }
    assert_eq!(spins, vec![1, 2, 4, 8, 16, 32, 64, 128, 256, 512, 1024, 1024, 1024]);
}

#[test]
fn unicast_guard_owns_its_message() {
    let mut queue: Queue<String> = Queue::new();
    let mut reader = queue.reader();
    queue.push(String::from("a"));
    queue.push(String::from("b"));
    assert!(reader.room_for_step(&queue));
    let mut guard = reader.next(&mut queue).unwrap();
    assert_eq!(guard.get(&queue), "a");
    // The message is the guard's to change.
    guard.get_mut(&mut queue).push_str("bc");
    assert_eq!(guard.get(&queue), "abc");
    assert_eq!(guard.take(&mut queue), "abc");
    let mut session = reader.session();
    let mut guard = session.next(&mut queue).unwrap();
    *guard.get_mut(&mut queue) = String::from("z");
    assert_eq!(guard.take(&mut queue), "z");
    assert_eq!(session.read_succ, 1);
    assert!(session.next(&mut queue).is_none());
    session.drop(&mut queue);
    let block = reader.block.ptr;
    assert_eq!(queue.read_succ(block), Some((2, true)));
    assert!(reader.room_for_clone(&queue));
    assert!(queue.room_for_reader());
}

#[test]
fn unicast_empty_queue_and_late_reader() {
    let mut queue: Queue<u32> = Queue::new();
    let mut early = queue.reader();
    assert!(early.next(&mut queue).is_none());
    for i in 0..10 {
        queue.push(i);
    }
    // A reader made late competes for what nobody has claimed: all ten.
    let mut late = queue.reader();
    assert_eq!(late.write_counter, 10);
    let guard = late.next(&mut queue).unwrap();
    assert_eq!(guard.take(&mut queue), 0);
    let guard = early.next(&mut queue).unwrap();
    assert_eq!(guard.take(&mut queue), 1);
    assert_eq!(early.write_counter, 10);
}

#[test]
fn unicast_push_count_on_block_boundaries() {
    for k in 1..=3usize {
        let mut queue: Queue<usize> = Queue::new();
        let mut reader = queue.reader();
        for i in 0..k * BLOCK_SIZE {
            queue.push(i);
        }
        assert_eq!(queue.live_blocks(), k);
        for i in 0..k * BLOCK_SIZE {
            let guard = reader.next(&mut queue).unwrap();
            assert_eq!(guard.take(&mut queue), i);
        }
        // The last block is full and has no successor yet.
        assert!(reader.next(&mut queue).is_none());
        assert_eq!(queue.live_blocks(), 1);
        assert_eq!(queue.read_succ(reader.block.ptr), Some((BLOCK_SIZE, false)));
        queue.push(7);
        let guard = reader.next(&mut queue).unwrap();
        assert_eq!(guard.index, 0);
        assert_eq!(guard.take(&mut queue), 7);
        assert_eq!(queue.live_blocks(), 1);
    }
}

#[test]
fn unicast_random_turns_share_out_every_message_once() {
    use_rng_unicast(0x5eed, 3 * BLOCK_SIZE + 123, 5);
    use_rng_unicast(0xfeed, BLOCK_SIZE, 2);
    use_rng_unicast(0xbead, 7, 3);
}

/// Pushes, claims in and out of sessions, copies and drops of readers, in an
/// order that the random numbers give. Every message must come out once.
fn use_rng_unicast(seed: u64, count: usize, readers: usize) {
    let mut rng = rand::rngs::StdRng::seed_from_u64(seed);
    let mut queue: Queue<usize> = Queue::new();
    let mut handles: Vec<Reader<usize>> = (0..readers).map(|_| queue.reader()).collect();
    let mut pushed = 0;
    let mut got: Vec<usize> = Vec::new();
    while got.len() < count {
        match rng.gen_range(0..6) {
            0 | 1 => {
                for _ in 0..rng.gen_range(1..200) {
                    if pushed < count {
                        queue.push(pushed);
                        pushed += 1;
                    }
                }
            }
            2 => {
                let r = rng.gen_range(0..handles.len());
                if let Some(guard) = handles[r].next(&mut queue) {
                    got.push(guard.take(&mut queue));
                }
            }
            3 => {
                let r = rng.gen_range(0..handles.len());
                let mut session = handles[r].session();
                for _ in 0..rng.gen_range(1..300) {
                    match session.next(&mut queue) {
                        Some(guard) => {
                            got.push(*guard.get(&queue));
                            guard.drop(&mut queue);
                        }
                        None => break,
                    }
                }
                session.drop(&mut queue);
            }
            4 => {
                let r = rng.gen_range(0..handles.len());
                let twin = handles[r].clone(&mut queue);
                handles.push(twin);
            }
            _ => {
                if handles.len() > 1 {
                    let r = rng.gen_range(0..handles.len());
                    handles.swap_remove(r).drop(&mut queue);
                }
            }
        }
    }
    // The claims follow the order of the pushes.
    assert_eq!(got, (0..count).collect::<Vec<_>>());
    for reader in handles {
        reader.drop(&mut queue);
    }
    // Only the chain from the read block to the write block is left, and
    // that is one block once everything is claimed.
    assert_eq!(queue.live_blocks(), 1);
}
