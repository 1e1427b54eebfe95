use fixed_collections::config::check_config;
use fixed_collections::mask::is_power_of_two;
use fixed_collections::word::{read_word, write_word, WORD};
use fixed_collections::{Error, IndexGenerator};

#[test]
fn generator_starts_at_zero() {
    let generator = IndexGenerator::new(4);
    assert_eq!(generator.nb_of_queues, 4);
    assert_eq!(generator.current_index, 0);
    let unchecked = IndexGenerator::new(0);
    assert_eq!(unchecked.nb_of_queues, 0);
    assert_eq!(unchecked.current_index, 0);
}

#[test]
fn generator_cycles_through_the_queues() {
    let mut generator = IndexGenerator::new(3);
    let draws: Vec<usize> = (0..8).map(|_| generator.next().unwrap()).collect();
    assert_eq!(draws, vec![0, 1, 2, 0, 1, 2, 0, 1]);
    assert_eq!(generator.current_index, 2);
    assert_eq!(generator.nb_of_queues, 3);
}

#[test]
fn generator_restarts_from_a_copy_of_its_state() {
    let mut generator = IndexGenerator::new(5);
    generator.next();
    generator.next();
    let mut copy = generator;
    let ahead: Vec<usize> = (0..6).map(|_| generator.next().unwrap()).collect();
    let again: Vec<usize> = (0..6).map(|_| copy.next().unwrap()).collect();
    assert_eq!(ahead, vec![2, 3, 4, 0, 1, 2]);
    assert_eq!(again, ahead);
}

#[test]
fn generator_with_one_queue_stays_at_zero() {
    let mut generator = IndexGenerator::new(1);
    for _ in 0..3 {
        assert_eq!(generator.next(), Some(0));
    }
}

#[test]
fn generator_outside_its_range_comes_back_into_it() {
    let mut generator = IndexGenerator { nb_of_queues: 3, current_index: 7 };
    assert_eq!(generator.next(), Some(7));
    assert_eq!(generator.current_index, 2);
}

#[test]
fn default_slots_are_free_and_hold_the_largest_key() {
    let slot = fixed_collections::fixed_dict::layout::Slot::default();
    assert_eq!(slot.key, usize::MAX);
    assert_eq!(slot.index.nb_of_queues, 1);
    assert_eq!(slot.index.current_index, 0);
    assert_eq!(slot.counter, 0);
    assert!(!slot.occupied);
    let entry = fixed_collections::fixed_list::layout::Slot::default();
    assert_eq!(entry.index.nb_of_queues, 1);
    assert_eq!(entry.index.current_index, 0);
    assert_eq!(entry.counter, 0);
}

#[test]
fn words_are_stored_least_significant_byte_first() {
    assert_eq!(WORD, std::mem::size_of::<usize>());
    let mut buf = vec![0xeeu8; 3 * WORD];
    write_word(&mut buf, WORD, 0x0403_0201);
    assert_eq!(buf[WORD..WORD + 4], [1, 2, 3, 4]);
    assert!(buf[WORD + 4..2 * WORD].iter().all(|byte| *byte == 0));
    assert!(buf[..WORD].iter().all(|byte| *byte == 0xee));
    assert!(buf[2 * WORD..].iter().all(|byte| *byte == 0xee));
    assert_eq!(read_word(&buf, WORD), 0x0403_0201);
}

#[test]
fn words_round_trip_at_any_offset() {
    for value in [0usize, 1, 255, 256, 0xdead_beef, usize::MAX - 1, usize::MAX] {
        for offset in 0..5 {
            let mut buf = vec![0u8; WORD + 5];
            write_word(&mut buf, offset, value);
            assert_eq!(read_word(&buf, offset), value);
            assert_eq!(buf[offset..offset + WORD], value.to_le_bytes());
        }
    }
}

#[test]
fn words_are_read_as_the_platform_spells_them() {
    let value = 0x1234_5678usize;
    let mut buf = vec![0u8; WORD];
    buf.copy_from_slice(&value.to_le_bytes());
    assert_eq!(read_word(&buf, 0), value);
    let mut all = vec![0xffu8; WORD];
    assert_eq!(read_word(&all, 0), usize::MAX);
    all[WORD - 1] = 0x7f;
    assert_eq!(read_word(&all, 0), usize::MAX >> 1);
}

#[test]
fn powers_of_two_are_told_by_the_bit_test() {
    assert!(!is_power_of_two(0));
    for shift in 0..usize::BITS {
        let power = 1usize << shift;
        assert!(is_power_of_two(power));
        if power > 2 {
            assert!(!is_power_of_two(power - 1));
            assert!(!is_power_of_two(power + 1));
        }
    }
    assert!(!is_power_of_two(usize::MAX));
    assert!(!is_power_of_two(12));
}

#[test]
fn config_check_reports_the_first_fault() {
    assert_eq!(check_config(1, 1), Ok(()));
    assert_eq!(check_config(usize::MAX, 1 << 20), Ok(()));
    assert_eq!(check_config(1, 0), Err(Error::ZeroCapacity));
    assert_eq!(check_config(0, 0), Err(Error::ZeroCapacity));
    assert_eq!(check_config(1, 3), Err(Error::CapacityNotPowerOfTwo));
    assert_eq!(check_config(0, 3), Err(Error::CapacityNotPowerOfTwo));
    assert_eq!(check_config(0, 4), Err(Error::NullPointer));
}

#[test]
fn errors_have_their_messages() {
    assert_eq!(Error::ZeroCapacity.message(), "Capacity must be > 0");
    assert_eq!(Error::CapacityNotPowerOfTwo.message(), "Capacity must be a power of two");
    assert_eq!(Error::NullPointer.message(), "Pointer cannot be null");
    assert_eq!(Error::NoFreeSlot.message(), "No free slot");
    assert_eq!(Error::KeyNotFound.message(), "Key not found");
    assert_eq!(Error::ListFull.message(), "FixedList is full");
    assert_eq!(Error::ListEmpty.message(), "List is empty");
}
