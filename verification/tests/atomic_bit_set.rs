use tonks::atomic_bit_set::{bit_mask, word_contains, AtomicBitSet};

#[test]
fn test_basic() {
    let set = AtomicBitSet::with_capacity(64);

    for i in 0..64 {
        assert!(!set.contains(i));
        set.insert(i, false);
        assert!(set.contains(i));

        if i % 3 == 0 {
            set.remove(i, false);
        }
    }

    for i in 0..64 {
        assert_eq!(set.contains(i), i % 3 != 0);
    }

    set.clear();

    for i in 0..64 {
        assert!(!set.contains(i));
    }
}

fn assert_send_sync<T: Send + Sync>() {}

#[test]
fn check_traits() {
    assert_send_sync::<AtomicBitSet>();
}

#[test]
fn capacity_is_rounded_up_to_word_size() {
    // 5 rounds up to the size of a usize in bytes, so its last index is usable.
    let width = std::mem::size_of::<usize>();
    let set = AtomicBitSet::with_capacity(5);
    set.insert(width - 1, false);
    assert!(set.contains(width - 1));
    assert!(!set.contains(0));
}

#[test]
fn notify_only_when_asked() {
    let set = AtomicBitSet::with_capacity(8);
    set.insert(1, false);
    assert!(!set.poll_update());
    set.insert(2, true);
    assert!(set.poll_update());
    assert!(!set.poll_update());
    set.remove(2, true);
    assert!(set.poll_update());
}

#[test]
fn word_bits_and_masks() {
    let width = std::mem::size_of::<usize>();
    assert_eq!(bit_mask(0), 1);
    assert_eq!(bit_mask(3), 8);
    assert_eq!(bit_mask(width), 1);
    assert_eq!(bit_mask(width + 2), 4);
    assert!(word_contains(0b1010, 1));
    assert!(!word_contains(0b1010, 2));
    assert!(word_contains(0b1010, 3));
    assert!(word_contains(0b1000, width + 3));
    assert!(!word_contains(0, 0));
    // Setting a bit and clearing it again, as insert and remove do.
    let w = 0b0110usize | bit_mask(0);
    assert!(word_contains(w, 0));
    assert!(!word_contains(w & !bit_mask(1), 1));
    assert!(word_contains(w & !bit_mask(1), 2));
}
