//! An atomic bit set with support for waiting on updates.

use std::mem::size_of;
use std::sync::atomic::{AtomicBool, AtomicUsize, Ordering};
use vstd::prelude::*;

verus! {

broadcast use vstd::layout::layout_of_primitives;

/// An atomic bit set with support for waiting on updates.
///
/// Bit `index` is bit `index % size_of::<usize>()` of word
/// `index / size_of::<usize>()`. Concurrent reallocations are not supported.
///
/// The words are atomics shared between threads: what a load returns depends
/// on what other threads did, so contracts speak of the word arithmetic, which
/// `word_contains`, `bit_mask` and the laws below state exactly.
pub struct AtomicBitSet {
    /// Flag set by notifying updates, taken by `poll_update`.
    flag: AtomicBool,
    /// Data in this bit set.
    data: Vec<AtomicUsize>,
}

/// The number of bits used in each word: the size of a `usize` in bytes.
pub open spec fn word_width() -> nat {
    vstd::layout::size_of::<usize>()
}

/// `capacity` rounded up to the nearest multiple of `width`.
pub open spec fn rounded_capacity(capacity: nat, width: nat) -> nat
    recommends
        width > 0,
{
    if capacity % width == 0 {
        capacity
    } else {
        capacity + (width - capacity % width) as nat
    }
}

/// Whether bit `bit` of `word` is set.
pub open spec fn word_has_bit(word: usize, bit: usize) -> bool {
    (word >> bit) & 1usize == 1usize
}

/// The word with only bit `bit` set.
pub open spec fn single_bit(bit: usize) -> usize {
    1usize << bit
}

/// The position of `index` within its word.
pub open spec fn bit_of(index: usize) -> usize {
    (index as nat % word_width()) as usize
}

/// The word holding `index`.
pub open spec fn word_of(index: usize) -> nat {
    index as nat / word_width()
}

proof fn lemma_word_width()
    ensures
        word_width() == 4 || word_width() == 8,
{
    assert(usize::BITS == 32 || usize::BITS == 64);
}

impl AtomicBitSet {
    /// The number of bits this set can hold.
    pub closed spec fn capacity(&self) -> nat {
        self.data@.len()
    }

    /// Creates a new `AtomicBitSet` with the given initial capacity, rounded up
    /// to the nearest multiple of `size_of::<usize>()`.
    pub fn with_capacity(capacity: usize) -> (r: Self)
        requires
            rounded_capacity(capacity as nat, word_width()) <= usize::MAX,
        ensures
            r.capacity() == rounded_capacity(capacity as nat, word_width()),
    {
        let size_of_usize = size_of::<usize>();
        proof {
            lemma_word_width();
            vstd::arithmetic::div_mod::lemma_mod_bound(capacity as int, word_width() as int);
        }
        let mut capacity = capacity;
        let remainder = capacity % size_of_usize;
        if remainder > 0 {
            capacity = capacity + (size_of_usize - remainder);
        }
        let data = zeroed_words(capacity);
        AtomicBitSet { flag: AtomicBool::new(false), data }
    }

    /// Atomically adds the given bit to this bit set.
    /// If `notify` is set to true, notifies the thread
    /// currently waiting on updates.
    ///
    /// The word `index / size_of::<usize>()` is or-ed with `bit_mask(index)`.
    pub fn insert(&self, index: usize, notify: bool)
        requires
            index < self.capacity(),
    {
        let word = usize_index(index);
        let mask = bit_mask(index);
        self.fetch_or_word(word, mask);
        if notify {
            self.notify();
        }
    }

    /// Atomically removes the given bit from this bit set.
    /// If `notify` is set to true, notifies the thread
    /// currently waiting on updates.
    ///
    /// The word `index / size_of::<usize>()` is and-ed with `!bit_mask(index)`.
    pub fn remove(&self, index: usize, notify: bool)
        requires
            index < self.capacity(),
    {
        let word = usize_index(index);
        let mask = !bit_mask(index);
        self.fetch_and_word(word, mask);
        if notify {
            self.notify();
        }
    }

    /// Returns whether the given bit is contained within this set: the bit
    /// `index % size_of::<usize>()` of the word loaded for `index`, as
    /// `word_contains` computes it. The loaded word is whatever the threads
    /// sharing the set left in it, so no clause names it.
    pub fn contains(&self, index: usize) -> (r: bool)
        requires
            index < self.capacity(),
    {
        let word = usize_index(index);
        let value = self.load_word(word);
        word_contains(value, index)
    }

    /// Clears all bits in this bit set: every word is stored as 0.
    pub fn clear(&self) {
        let mut i: usize = 0;
        while i < self.data.len()
            invariant
                i <= self.data.len(),
            decreases self.data.len() - i,
        {
            self.data[i].store(0, Ordering::Release);
            i = i + 1;
        }
    }

    /// Takes a pending update notification, returning whether there was one.
    /// A waiter calls this until it returns `true`. Whether one is pending
    /// depends on what other threads did, so no clause names the result.
    pub fn poll_update(&self) -> (r: bool) {
        self.flag.compare_exchange(true, false, Ordering::Acquire, Ordering::Acquire).is_ok()
    }

    fn notify(&self) {
        self.flag.store(true, Ordering::Release);
    }

    fn fetch_or_word(&self, word: usize, mask: usize)
        requires
            word < self.data.len(),
    {
        self.data[word].fetch_or(mask, Ordering::AcqRel);
    }

    fn fetch_and_word(&self, word: usize, mask: usize)
        requires
            word < self.data.len(),
    {
        self.data[word].fetch_and(mask, Ordering::AcqRel);
    }

    /// Loads word `word`. What it holds depends on the threads sharing the
    /// set, so nothing is stated of it.
    fn load_word(&self, word: usize) -> usize
        requires
            word < self.data.len(),
    {
        self.data[word].load(Ordering::Acquire)
    }
}

/// `count` atomic words, each created holding 0.
fn zeroed_words(count: usize) -> (r: Vec<AtomicUsize>)
    ensures
        r.len() == count,
{
    let mut data: Vec<AtomicUsize> = Vec::new();
    let mut i: usize = 0;
    while i < count
        invariant
            i <= count,
            data.len() == i,
        decreases count - i,
    {
        data.push(AtomicUsize::new(0));
        i = i + 1;
    }
    data
}

/// The index of the word holding `index`.
fn usize_index(index: usize) -> (r: usize)
    ensures
        r as nat == word_of(index),
{
    proof {
        lemma_word_width();
    }
    index / size_of::<usize>()
}

/// The position of `index` within its word.
fn index_in_usize(index: usize) -> (r: usize)
    ensures
        r == bit_of(index),
        r < word_width(),
{
    proof {
        lemma_word_width();
    }
    index % size_of::<usize>()
}

/// The mask selecting the bit of `index` within its word.
pub fn bit_mask(index: usize) -> (r: usize)
    ensures
        r == single_bit(bit_of(index)),
{
    let bit = index_in_usize(index);
    proof {
        lemma_word_width();
    }
    1usize << bit
}

/// Whether `word`, loaded for `index`, has the bit of `index` set.
pub fn word_contains(word: usize, index: usize) -> (r: bool)
    ensures
        r == word_has_bit(word, bit_of(index)),
{
    let bit = index_in_usize(index);
    proof {
        lemma_word_width();
    }
    let value = word >> bit;
    (value & 1) == 1
}

/// Or-ing a word with the mask of a bit sets that bit.
pub proof fn lemma_insert_sets_bit(word: usize, bit: usize)
    requires
        bit < 8,
    ensures
        word_has_bit(word | single_bit(bit), bit),
{
    assert(((word | (1usize << bit)) >> bit) & 1usize == 1usize) by (bit_vector)
        requires
            bit < 8,
    ;
}

/// And-ing a word with the complement of the mask of a bit clears that bit.
pub proof fn lemma_remove_clears_bit(word: usize, bit: usize)
    requires
        bit < 8,
    ensures
        !word_has_bit(word & !single_bit(bit), bit),
{
    assert(((word & !(1usize << bit)) >> bit) & 1usize == 0usize) by (bit_vector)
        requires
            bit < 8,
    ;
}

/// Setting or clearing one bit leaves every other bit of the word as it was.
pub proof fn lemma_other_bits_kept(word: usize, bit: usize, other: usize)
    requires
        bit < 8,
        other < 8,
        bit != other,
    ensures
        word_has_bit(word | single_bit(bit), other) == word_has_bit(word, other),
        word_has_bit(word & !single_bit(bit), other) == word_has_bit(word, other),
{
    assert((((word | (1usize << bit)) >> other) & 1usize == 1usize) == (((word >> other) & 1usize)
        == 1usize)) by (bit_vector)
        requires
            bit < 8,
            other < 8,
            bit != other,
    ;
    assert((((word & !(1usize << bit)) >> other) & 1usize == 1usize) == (((word >> other)
        & 1usize) == 1usize)) by (bit_vector)
        requires
            bit < 8,
            other < 8,
            bit != other,
    ;
}

/// A word holding 0 has no bit set.
pub proof fn lemma_zero_word_is_empty(bit: usize)
    requires
        bit < 8,
    ensures
        !word_has_bit(0, bit),
{
    assert((0usize >> bit) & 1usize == 0usize) by (bit_vector)
        requires
            bit < 8,
    ;
}

/// Two indices share a word position exactly when they are equal, given that
/// they lie in the same word.
pub proof fn lemma_same_word_same_bit(i: usize, j: usize)
    requires
        word_of(i) == word_of(j),
        bit_of(i) == bit_of(j),
    ensures
        i == j,
{
    lemma_word_width();
    let w = word_width() as int;
    vstd::arithmetic::div_mod::lemma_fundamental_div_mod(i as int, w);
    vstd::arithmetic::div_mod::lemma_fundamental_div_mod(j as int, w);
}

/// The rounded capacity is a multiple of the word width and no smaller than
/// the capacity asked for.
pub proof fn lemma_rounded_capacity(capacity: nat)
    ensures
        rounded_capacity(capacity, word_width()) % word_width() == 0,
        rounded_capacity(capacity, word_width()) >= capacity,
        rounded_capacity(capacity, word_width()) < capacity + word_width(),
{
    lemma_word_width();
    let w = word_width();
    if capacity % w != 0 {
        let q = (capacity / w) as int;
        let r = (capacity % w) as int;
        vstd::arithmetic::div_mod::lemma_fundamental_div_mod(capacity as int, w as int);
        assert(capacity as int == w * q + r);
        assert(w * q + w == (q + 1) * w) by (nonlinear_arith);
        vstd::arithmetic::div_mod::lemma_mod_multiples_basic(q + 1, w as int);
        assert(rounded_capacity(capacity, w) == (q + 1) * w);
    }
}

} // verus!
