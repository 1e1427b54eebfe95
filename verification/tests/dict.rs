use fixed_collections::fixed_dict::layout::{read_slot, slot_occupied, HEADER_SIZE, SLOT_SIZE};
use fixed_collections::word::WORD;
use fixed_collections::{Error, FixedDict};

fn table(capacity: usize, nb_of_queues: usize) -> (FixedDict, Vec<u8>) {
    let mut buf = vec![0u8; FixedDict::total_size(capacity)];
    let dict = FixedDict::new(&mut buf, 0x4000, capacity, nb_of_queues).unwrap();
    (dict, buf)
}

#[test]
fn dict_total_size_is_header_plus_slots() {
    assert_eq!(HEADER_SIZE, 2 * WORD);
    assert_eq!(SLOT_SIZE, 5 * WORD);
    assert_eq!(FixedDict::total_size(0), HEADER_SIZE);
    assert_eq!(FixedDict::total_size(1), HEADER_SIZE + SLOT_SIZE);
    assert_eq!(FixedDict::total_size(4), HEADER_SIZE + 4 * SLOT_SIZE);
    assert_eq!(FixedDict::total_size(1024), HEADER_SIZE + 1024 * SLOT_SIZE);
    // A word is the size of a usize: 176 bytes where that is 8.
    assert_eq!(FixedDict::total_size(4), 22 * std::mem::size_of::<usize>());
    if std::mem::size_of::<usize>() == 8 {
        assert_eq!(FixedDict::total_size(4), 176);
        assert_eq!(FixedDict::total_size(1), 56);
    }
}

#[test]
fn dict_checked_total_size_stops_at_the_address_space() {
    assert_eq!(FixedDict::checked_total_size(0), Some(HEADER_SIZE));
    assert_eq!(FixedDict::checked_total_size(4), Some(HEADER_SIZE + 4 * SLOT_SIZE));
    let most = (usize::MAX - HEADER_SIZE) / SLOT_SIZE;
    assert_eq!(FixedDict::checked_total_size(most), Some(HEADER_SIZE + most * SLOT_SIZE));
    assert_eq!(FixedDict::total_size(most), HEADER_SIZE + most * SLOT_SIZE);
    assert_eq!(FixedDict::checked_total_size(most + 1), None);
    assert_eq!(FixedDict::checked_total_size(1 << (usize::BITS - 1)), None);
    assert_eq!(FixedDict::checked_total_size(usize::MAX), None);
}

#[test]
fn dict_new_rejects_zero_capacity() {
    let mut buf = vec![0u8; 64];
    assert_eq!(FixedDict::new(&mut buf, 0x4000, 0, 2).err(), Some(Error::ZeroCapacity));
    assert_eq!(buf, vec![0u8; 64]);
}

#[test]
fn dict_new_rejects_capacity_that_is_no_power_of_two() {
    for capacity in [3usize, 5, 6, 7, 12, 100, usize::MAX] {
        let mut buf = vec![0u8; 64];
        assert_eq!(
            FixedDict::new(&mut buf, 0x4000, capacity, 2).err(),
            Some(Error::CapacityNotPowerOfTwo)
        );
        assert_eq!(buf, vec![0u8; 64]);
    }
}

#[test]
fn dict_new_rejects_null_pointer() {
    let mut buf = vec![7u8; FixedDict::total_size(4)];
    assert_eq!(FixedDict::new(&mut buf, 0, 4, 2).err(), Some(Error::NullPointer));
    assert_eq!(buf, vec![7u8; FixedDict::total_size(4)]);
}

#[test]
fn dict_new_looks_at_capacity_before_pointer() {
    let mut buf = vec![0u8; 64];
    assert_eq!(FixedDict::new(&mut buf, 0, 0, 2).err(), Some(Error::ZeroCapacity));
    assert_eq!(FixedDict::new(&mut buf, 0, 3, 2).err(), Some(Error::CapacityNotPowerOfTwo));
}

#[test]
fn dict_new_accepts_every_small_power_of_two() {
    for shift in 0..10 {
        let capacity = 1usize << shift;
        let mut buf = vec![0u8; FixedDict::total_size(capacity)];
        let dict = FixedDict::new(&mut buf, 0x4000, capacity, 3).unwrap();
        assert_eq!(dict.base_address(), 0x4000);
        assert_eq!(FixedDict::capacity(&buf), capacity);
        assert_eq!(FixedDict::nb_of_queues(&buf), 3);
        assert!(FixedDict::is_valid(&buf));
    }
}

#[test]
fn dict_new_writes_the_header_and_nothing_else() {
    let mut buf = vec![0xabu8; FixedDict::total_size(2) + 5];
    FixedDict::new(&mut buf, 0x4000, 2, 9).unwrap();
    let mut capacity = [0u8; std::mem::size_of::<usize>()];
    capacity.copy_from_slice(&buf[..WORD]);
    assert_eq!(usize::from_le_bytes(capacity), 2);
    let mut queues = [0u8; std::mem::size_of::<usize>()];
    queues.copy_from_slice(&buf[WORD..2 * WORD]);
    assert_eq!(usize::from_le_bytes(queues), 9);
    assert!(buf[HEADER_SIZE..].iter().all(|byte| *byte == 0xab));
}

#[test]
fn dict_base_address_is_the_pointer_given() {
    let (dict, _buf) = table(4, 2);
    assert_eq!(dict.base_address(), 0x4000);
    let mut buf = vec![0u8; FixedDict::total_size(1)];
    let other = FixedDict::new(&mut buf, usize::MAX, 1, 1).unwrap();
    assert_eq!(other.base_address(), usize::MAX);
}

#[test]
fn dict_round_robin_wraps_at_the_number_of_queues() {
    let (mut dict, mut buf) = table(8, 3);
    dict.set(&mut buf, 42, 7).unwrap();
    let draws: Vec<usize> = (0..7).map(|_| dict.get(&mut buf, 42).unwrap()).collect();
    assert_eq!(draws, vec![0, 1, 2, 0, 1, 2, 0]);
    assert_eq!(dict.get(&mut buf, 42), Err(Error::KeyNotFound));
}

#[test]
fn dict_single_queue_always_draws_zero() {
    let (mut dict, mut buf) = table(2, 1);
    dict.set(&mut buf, 1, 4).unwrap();
    for _ in 0..4 {
        assert_eq!(dict.get(&mut buf, 1), Ok(0));
    }
    assert_eq!(dict.get(&mut buf, 1), Err(Error::KeyNotFound));
}

#[test]
fn dict_more_queues_than_tasks() {
    let (mut dict, mut buf) = table(2, 10);
    dict.set(&mut buf, 6, 3).unwrap();
    assert_eq!(dict.get(&mut buf, 6), Ok(0));
    assert_eq!(dict.get(&mut buf, 6), Ok(1));
    assert_eq!(dict.get(&mut buf, 6), Ok(2));
    assert_eq!(dict.get(&mut buf, 6), Err(Error::KeyNotFound));
}

#[test]
fn dict_get_of_a_key_never_inserted_fails() {
    let (mut dict, mut buf) = table(4, 2);
    assert_eq!(dict.get(&mut buf, 0), Err(Error::KeyNotFound));
    dict.set(&mut buf, 1, 1).unwrap();
    assert_eq!(dict.get(&mut buf, 5), Err(Error::KeyNotFound));
    assert_eq!(dict.get(&mut buf, 2), Err(Error::KeyNotFound));
}

#[test]
fn dict_failed_get_changes_nothing() {
    let (mut dict, mut buf) = table(4, 2);
    dict.set(&mut buf, 1, 2).unwrap();
    let before = buf.clone();
    assert_eq!(dict.get(&mut buf, 9), Err(Error::KeyNotFound));
    assert_eq!(buf, before);
}

#[test]
fn dict_reuse_restarts_at_zero() {
    let (mut dict, mut buf) = table(4, 3);
    dict.set(&mut buf, 5, 2).unwrap();
    assert_eq!(dict.get(&mut buf, 5), Ok(0));
    assert_eq!(dict.get(&mut buf, 5), Ok(1));
    assert_eq!(dict.get(&mut buf, 5), Err(Error::KeyNotFound));
    assert_eq!(dict.set(&mut buf, 5, 2), Ok(()));
    assert_eq!(dict.get(&mut buf, 5), Ok(0));
    assert_eq!(dict.get(&mut buf, 5), Ok(1));
    assert_eq!(dict.get(&mut buf, 5), Err(Error::KeyNotFound));
}

#[test]
fn dict_takes_capacity_keys_and_no_more() {
    for start in 0..4usize {
        let (dict, mut buf) = table(4, 2);
        for step in 0..4usize {
            assert_eq!(dict.set(&mut buf, start + 10 * step, 1), Ok(()));
        }
        let before = buf.clone();
        assert_eq!(dict.set(&mut buf, start + 40, 1), Err(Error::NoFreeSlot));
        assert_eq!(dict.set(&mut buf, 1000, 1), Err(Error::NoFreeSlot));
        assert_eq!(buf, before);
    }
}

#[test]
fn dict_full_table_takes_a_key_again_after_a_slot_is_freed() {
    let (mut dict, mut buf) = table(2, 2);
    dict.set(&mut buf, 0, 1).unwrap();
    dict.set(&mut buf, 1, 1).unwrap();
    assert_eq!(dict.set(&mut buf, 2, 1), Err(Error::NoFreeSlot));
    assert_eq!(dict.get(&mut buf, 1), Ok(0));
    assert_eq!(dict.set(&mut buf, 2, 1), Ok(()));
    assert_eq!(dict.get(&mut buf, 2), Ok(0));
}

#[test]
fn dict_colliding_keys_probe_forward() {
    let (mut dict, mut buf) = table(4, 2);
    dict.set(&mut buf, 1, 2).unwrap();
    dict.set(&mut buf, 5, 2).unwrap();
    dict.set(&mut buf, 9, 2).unwrap();
    assert_eq!(read_slot(&buf, 1).key, 1);
    assert_eq!(read_slot(&buf, 2).key, 5);
    assert_eq!(read_slot(&buf, 3).key, 9);
    assert!(!slot_occupied(&buf, 0));
    assert_eq!(dict.get(&mut buf, 9), Ok(0));
    assert_eq!(dict.get(&mut buf, 5), Ok(0));
    assert_eq!(dict.get(&mut buf, 1), Ok(0));
    assert_eq!(dict.get(&mut buf, 9), Ok(1));
}

#[test]
fn dict_probe_wraps_to_the_first_slot() {
    let (mut dict, mut buf) = table(4, 2);
    dict.set(&mut buf, 3, 1).unwrap();
    dict.set(&mut buf, 7, 1).unwrap();
    assert_eq!(read_slot(&buf, 3).key, 3);
    assert_eq!(read_slot(&buf, 0).key, 7);
    assert!(slot_occupied(&buf, 0));
    assert_eq!(dict.get(&mut buf, 7), Ok(0));
    assert!(!slot_occupied(&buf, 0));
    assert!(slot_occupied(&buf, 3));
}

#[test]
fn dict_get_looks_past_a_freed_slot() {
    let (mut dict, mut buf) = table(4, 2);
    dict.set(&mut buf, 1, 1).unwrap();
    dict.set(&mut buf, 5, 2).unwrap();
    assert_eq!(dict.get(&mut buf, 1), Ok(0));
    assert!(!slot_occupied(&buf, 1));
    assert_eq!(dict.get(&mut buf, 5), Ok(0));
    assert_eq!(dict.get(&mut buf, 5), Ok(1));
}

#[test]
fn dict_large_keys_start_at_key_mod_capacity() {
    let (mut dict, mut buf) = table(8, 2);
    dict.set(&mut buf, usize::MAX, 1).unwrap();
    assert_eq!(read_slot(&buf, 7).key, usize::MAX);
    dict.set(&mut buf, usize::MAX - 8, 1).unwrap();
    assert_eq!(read_slot(&buf, 0).key, usize::MAX - 8);
    assert_eq!(dict.get(&mut buf, usize::MAX - 8), Ok(0));
    assert_eq!(dict.get(&mut buf, usize::MAX), Ok(0));
}

#[test]
fn dict_same_key_twice_makes_two_bindings() {
    let (mut dict, mut buf) = table(4, 4);
    dict.set(&mut buf, 2, 2).unwrap();
    dict.get(&mut buf, 2).unwrap();
    dict.set(&mut buf, 2, 3).unwrap();
    assert!(slot_occupied(&buf, 2));
    assert!(slot_occupied(&buf, 3));
    // The first binding in probe order is drawn from until it is used up.
    assert_eq!(dict.get(&mut buf, 2), Ok(1));
    assert_eq!(dict.get(&mut buf, 2), Ok(0));
    assert_eq!(dict.get(&mut buf, 2), Ok(1));
    assert_eq!(dict.get(&mut buf, 2), Ok(2));
    assert_eq!(dict.get(&mut buf, 2), Err(Error::KeyNotFound));
}

#[test]
fn dict_binding_without_tasks_stays_after_a_draw() {
    let (mut dict, mut buf) = table(2, 2);
    dict.set(&mut buf, 1, 0).unwrap();
    assert!(slot_occupied(&buf, 1));
    assert_eq!(read_slot(&buf, 1).counter, 0);
    assert_eq!(dict.get(&mut buf, 1), Ok(0));
    assert!(slot_occupied(&buf, 1));
    assert_eq!(read_slot(&buf, 1).counter, usize::MAX);
    assert_eq!(dict.get(&mut buf, 1), Ok(1));
    assert_eq!(read_slot(&buf, 1).counter, usize::MAX - 1);
}

#[test]
fn dict_two_handles_on_one_buffer_see_one_table() {
    let mut buf = vec![0u8; FixedDict::total_size(4)];
    let first = FixedDict::new(&mut buf, 0x4000, 4, 3).unwrap();
    first.set(&mut buf, 6, 3).unwrap();
    let mut second = FixedDict::new(&mut buf, 0x4000, 4, 3).unwrap();
    assert_eq!(second.get(&mut buf, 6), Ok(0));
    let mut first = first;
    assert_eq!(first.get(&mut buf, 6), Ok(1));
    assert_eq!(second.get(&mut buf, 6), Ok(2));
    assert_eq!(first.get(&mut buf, 6), Err(Error::KeyNotFound));
}

#[test]
fn dict_new_over_a_live_table_keeps_the_bindings() {
    let (_, mut buf) = table(4, 2);
    let mut dict = FixedDict::new(&mut buf, 0x4000, 4, 2).unwrap();
    dict.set(&mut buf, 3, 2).unwrap();
    dict.get(&mut buf, 3).unwrap();
    let mut again = FixedDict::new(&mut buf, 0x8000, 4, 5).unwrap();
    assert_eq!(again.base_address(), 0x8000);
    assert_eq!(FixedDict::nb_of_queues(&buf), 5);
    // The old binding keeps the modulus it was made with.
    assert_eq!(again.get(&mut buf, 3), Ok(1));
    again.set(&mut buf, 4, 5).unwrap();
    let draws: Vec<usize> = (0..5).map(|_| again.get(&mut buf, 4).unwrap()).collect();
    assert_eq!(draws, vec![0, 1, 2, 3, 4]);
}

#[test]
fn dict_set_writes_one_slot_in_the_documented_layout() {
    let (dict, mut buf) = table(2, 3);
    let before = buf.clone();
    dict.set(&mut buf, 0x0102, 7).unwrap();
    let start = HEADER_SIZE;
    assert_eq!(buf[..start], before[..start]);
    assert_eq!(buf[start + SLOT_SIZE..], before[start + SLOT_SIZE..]);
    let word = |at: usize| {
        let mut bytes = [0u8; std::mem::size_of::<usize>()];
        bytes.copy_from_slice(&buf[at..at + WORD]);
        usize::from_le_bytes(bytes)
    };
    assert_eq!(word(start), 0x0102);
    assert_eq!(buf[start], 0x02);
    assert_eq!(buf[start + 1], 0x01);
    assert_eq!(word(start + WORD), 3);
    assert_eq!(word(start + 2 * WORD), 0);
    assert_eq!(word(start + 3 * WORD), 7);
    assert_eq!(buf[start + 4 * WORD], 1);
    assert!(buf[start + 4 * WORD + 1..start + SLOT_SIZE].iter().all(|byte| *byte == 0));
}

#[test]
fn dict_buffer_may_be_longer_than_the_table() {
    let mut buf = vec![0u8; FixedDict::total_size(2) + 16];
    let mut dict = FixedDict::new(&mut buf, 0x4000, 2, 2).unwrap();
    dict.set(&mut buf, 0, 1).unwrap();
    dict.set(&mut buf, 1, 1).unwrap();
    assert_eq!(dict.set(&mut buf, 2, 1), Err(Error::NoFreeSlot));
    assert_eq!(dict.get(&mut buf, 1), Ok(0));
    assert!(buf[FixedDict::total_size(2)..].iter().all(|byte| *byte == 0));
}

#[test]
fn dict_is_valid_tells_tables_from_other_bytes() {
    assert!(!FixedDict::is_valid(&[]));
    assert!(!FixedDict::is_valid(&vec![0u8; FixedDict::total_size(4)]));
    let (dict, mut buf) = table(4, 2);
    assert!(FixedDict::is_valid(&buf));
    dict.set(&mut buf, 1, 1).unwrap();
    assert!(FixedDict::is_valid(&buf));
    // Too short for the capacity that the header announces.
    assert!(!FixedDict::is_valid(&buf[..buf.len() - 1]));
    // An occupied slot whose generator stands at its modulus.
    let mut broken = buf.clone();
    let slot = HEADER_SIZE + SLOT_SIZE;
    broken[slot + 2 * WORD] = 2;
    assert!(!FixedDict::is_valid(&broken));
    // The same bytes in a free slot do no harm.
    broken[slot + 4 * WORD] = 0;
    assert!(FixedDict::is_valid(&broken));
    // No queue to draw for.
    let mut buf = vec![0u8; FixedDict::total_size(4)];
    FixedDict::new(&mut buf, 0x4000, 4, 0).unwrap();
    assert!(!FixedDict::is_valid(&buf));
}

#[test]
fn dict_slot_flag_counts_any_nonzero_byte_as_occupied() {
    let (mut dict, mut buf) = table(2, 2);
    dict.set(&mut buf, 1, 2).unwrap();
    buf[HEADER_SIZE + SLOT_SIZE + 4 * WORD] = 0x80;
    assert!(slot_occupied(&buf, 1));
    assert_eq!(dict.get(&mut buf, 1), Ok(0));
    assert_eq!(buf[HEADER_SIZE + SLOT_SIZE + 4 * WORD], 1);
}

#[test]
fn dict_of_one_slot() {
    let (mut dict, mut buf) = table(1, 2);
    assert_eq!(dict.get(&mut buf, 7), Err(Error::KeyNotFound));
    assert_eq!(dict.set(&mut buf, 7, 2), Ok(()));
    assert_eq!(read_slot(&buf, 0).key, 7);
    assert_eq!(dict.set(&mut buf, 8, 1), Err(Error::NoFreeSlot));
    assert_eq!(dict.get(&mut buf, 8), Err(Error::KeyNotFound));
    assert_eq!(dict.get(&mut buf, 7), Ok(0));
    assert_eq!(dict.get(&mut buf, 7), Ok(1));
    assert_eq!(dict.set(&mut buf, 8, 1), Ok(()));
    assert_eq!(dict.get(&mut buf, 8), Ok(0));
    assert!(!slot_occupied(&buf, 0));
}

/// One slot of a table kept in ordinary values.
#[derive(Clone, Copy)]
struct Plain {
    key: usize,
    queues: usize,
    position: usize,
    left: usize,
    occupied: bool,
}

fn plain_set(slots: &mut [Plain], queues: usize, key: usize, tasks: usize) -> Result<(), Error> {
    let capacity = slots.len();
    for step in 0..capacity {
        let at = (key % capacity + step) % capacity;
        if !slots[at].occupied {
            slots[at] = Plain { key, queues, position: 0, left: tasks, occupied: true };
            return Ok(());
        }
    }
    Err(Error::NoFreeSlot)
}

fn plain_get(slots: &mut [Plain], key: usize) -> Result<usize, Error> {
    let capacity = slots.len();
    for step in 0..capacity {
        let at = (key % capacity + step) % capacity;
        if slots[at].occupied && slots[at].key == key {
            let drawn = slots[at].position;
            slots[at].position = (drawn + 1) % slots[at].queues;
            slots[at].left -= 1;
            slots[at].occupied = slots[at].left != 0;
            return Ok(drawn);
        }
    }
    Err(Error::KeyNotFound)
}

#[test]
fn dict_agrees_with_a_table_of_plain_values() {
    let capacity = 16;
    let queues = 5;
    let (mut dict, mut buf) = table(capacity, queues);
    let free = Plain { key: 0, queues: 1, position: 0, left: 0, occupied: false };
    let mut plain = vec![free; capacity];
    let mut seed: u64 = 0x2545_f491_4f6c_dd1d;
    for _ in 0..20_000 {
        seed = seed.wrapping_mul(6364136223846793005).wrapping_add(1442695040888963407);
        let key = ((seed >> 33) % 24) as usize;
        let tasks = ((seed >> 20) % 4) as usize + 1;
        if (seed >> 60) % 3 == 0 {
            // Keys that are still bound are left alone, as users must.
            if plain.iter().any(|slot| slot.occupied && slot.key == key) {
                continue;
            }
            assert_eq!(dict.set(&mut buf, key, tasks), plain_set(&mut plain, queues, key, tasks));
        } else {
            assert_eq!(dict.get(&mut buf, key), plain_get(&mut plain, key));
        }
        for (at, slot) in plain.iter().enumerate() {
            assert_eq!(slot_occupied(&buf, at), slot.occupied);
            if slot.occupied {
                let stored = read_slot(&buf, at);
                assert_eq!(stored.key, slot.key);
                assert_eq!(stored.counter, slot.left);
                assert_eq!(stored.index.current_index, slot.position);
                assert_eq!(stored.index.nb_of_queues, slot.queues);
            }
        }
        assert!(FixedDict::is_valid(&buf));
    }
}
