//! The Frequent-Items sketch over the reverse-purge map.
use vstd::prelude::*;

use crate::frequencies::reverse_purge_item_hash_map::pow2_int;
use crate::frequencies::reverse_purge_item_hash_map::ReversePurgeItemHashMap;
use crate::codec::le_nat;
use crate::codec::read_u32_le;
use crate::codec::read_u64_le;
use crate::codec::write_u32_le;
use crate::codec::write_u64_le;
use crate::error::Error;
use crate::error::ErrorKind;
use crate::frequencies::serde::deserialize_i64_items;
use crate::frequencies::serde::deserialize_string_items;
use crate::frequencies::serde::serialize_i64_items;
use crate::frequencies::serde::serialize_string_items;
use crate::frequencies::serde::i64s_bytes;
use crate::frequencies::serde::strings_bytes;
use crate::frequencies::serde::strings_end;
use crate::frequencies::serde::strings_ok;
use crate::hash::HashInput;

verus! {

/// Smallest base-2 logarithm of the map's length.
pub const LG_MIN_MAP_SIZE: u8 = 3;

/// Largest base-2 logarithm of the map's length.
pub const LG_MAX_MAP_SIZE_LIMIT: u8 = 26;

/// Family byte of a serialized Frequent-Items sketch.
pub const FAMILY_ID: u8 = 10;

/// Serial version written and read.
pub const SER_VER: u8 = 1;

/// Preamble size, in 8-byte words, of an empty image.
pub const PREAMBLE_LONGS_EMPTY: u8 = 1;

/// Preamble size, in 8-byte words, of a non-empty image.
pub const PREAMBLE_LONGS_NONEMPTY: u8 = 4;

/// Flag bits that mark an empty image.
pub const EMPTY_FLAG_MASK: u8 = 5;

/// Most counts that a purge samples.
pub const SAMPLE_SIZE: usize = 1024;

/// Which error a query of frequent items rules out.
#[derive(Debug, Clone, Copy, PartialEq, Eq, Structural)]
pub enum ErrorType {
    /// Include an item when its upper bound exceeds the threshold.
    NoFalseNegatives,
    /// Include an item when its lower bound exceeds the threshold.
    NoFalsePositives,
}

/// One item of a frequent-items answer, with its estimate and bounds.
pub struct Row<T> {
    item: T,
    estimate: u64,
    upper_bound: u64,
    lower_bound: u64,
}

impl<T> Row<T> {
    pub closed spec fn item_spec(&self) -> T {
        self.item
    }

    pub closed spec fn estimate_spec(&self) -> u64 {
        self.estimate
    }

    pub closed spec fn upper_spec(&self) -> u64 {
        self.upper_bound
    }

    pub closed spec fn lower_spec(&self) -> u64 {
        self.lower_bound
    }

    /// Returns the item.
    pub fn item(&self) -> (r: &T)
        ensures
            *r == self.item_spec(),
    {
        &self.item
    }

    /// Returns the estimated count.
    pub fn estimate(&self) -> (r: u64)
        ensures
            r == self.estimate_spec(),
    {
        self.estimate
    }

    /// Returns the upper bound on the count.
    pub fn upper_bound(&self) -> (r: u64)
        ensures
            r == self.upper_spec(),
    {
        self.upper_bound
    }

    /// Returns the lower bound on the count.
    pub fn lower_bound(&self) -> (r: u64)
        ensures
            r == self.lower_spec(),
    {
        self.lower_bound
    }
}

/// `a + b`, or `u64::MAX` where that does not fit.
pub open spec fn sat_add(a: u64, b: u64) -> u64 {
    if a + b > u64::MAX {
        u64::MAX
    } else {
        (a + b) as u64
    }
}

/// Tracks approximate counts of items in a stream of weighted updates.
pub struct FrequentItemsSketch<T> {
    lg_max_map_size: u8,
    cur_map_cap: usize,
    offset: u64,
    stream_weight: u64,
    sample_size: usize,
    hash_map: ReversePurgeItemHashMap<T>,
    /// The exact count of each item in the stream summarized so far.
    truth: Ghost<Map<Seq<u8>, nat>>,
}

impl<T: HashInput> FrequentItemsSketch<T> {
    /// The stored counts, keyed by the items' byte images.
    pub closed spec fn counts(&self) -> Map<Seq<u8>, u64> {
        self.hash_map.view()
    }

    /// The stored count of `k`, or zero.
    pub open spec fn count_of(&self, k: Seq<u8>) -> u64 {
        if self.counts().contains_key(k) {
            self.counts()[k]
        } else {
            0
        }
    }

    /// The exact count of `k` in the stream that the sketch summarizes.
    pub closed spec fn true_count(&self, k: Seq<u8>) -> nat {
        if self.truth@.contains_key(k) {
            self.truth@[k]
        } else {
            0
        }
    }

    pub closed spec fn offset_spec(&self) -> u64 {
        self.offset
    }

    pub closed spec fn weight_spec(&self) -> u64 {
        self.stream_weight
    }

    pub closed spec fn lg_max_spec(&self) -> int {
        self.lg_max_map_size as int
    }

    pub closed spec fn lg_cur_spec(&self) -> int {
        self.hash_map.lg_spec()
    }

    /// The tracked items, in the map's slot order.
    pub closed spec fn slot_items(&self) -> Seq<Seq<u8>> {
        self.hash_map.slot_keys()
    }

    /// Their stored counts, in the same order.
    pub closed spec fn slot_counts(&self) -> Seq<u64> {
        self.hash_map.slot_values()
    }

    /// The slot order lists every tracked item once, with its stored count.
    pub proof fn lemma_slot_order(&self)
        requires
            self.wf(),
        ensures
            self.slot_items().len() == self.num_active_spec(),
            self.slot_counts().len() == self.num_active_spec(),
            self.counts().dom().len() == self.num_active_spec(),
            self.counts().dom().finite(),
            forall|j: int|
                0 <= j < self.slot_items().len() ==> self.counts().contains_key(
                    #[trigger] self.slot_items()[j],
                ) && self.counts()[self.slot_items()[j]] == self.slot_counts()[j]
                    && self.slot_counts()[j] > 0,
            forall|a: int, b: int|
                0 <= a < self.slot_items().len() && 0 <= b < self.slot_items().len() && a != b
                    ==> #[trigger] self.slot_items()[a] != #[trigger] self.slot_items()[b],
            forall|k: Seq<u8>|
                #[trigger] self.counts().contains_key(k) ==> exists|j: int|
                    0 <= j < self.slot_items().len() && self.slot_items()[j] == k,
    {
        self.hash_map.lemma_slots();
        assert forall|k: Seq<u8>| #[trigger] self.counts().contains_key(k) implies exists|j: int|
            0 <= j < self.slot_items().len() && self.slot_items()[j] == k by {
            assert(self.hash_map.view().contains_key(k));
            let j = choose|j: int| 0 <= j < self.hash_map.slot_keys().len() && self.hash_map.slot_keys()[j] == k;
            assert(self.slot_items()[j] == k);
        }
    }

    pub closed spec fn num_active_spec(&self) -> int {
        self.hash_map.num_active_spec()
    }

    closed spec fn structure(&self) -> bool {
        &&& self.hash_map.wf()
        &&& LG_MIN_MAP_SIZE <= self.hash_map.lg_spec() <= self.lg_max_map_size
        &&& self.lg_max_map_size <= LG_MAX_MAP_SIZE_LIMIT
        &&& self.cur_map_cap == self.hash_map.capacity_spec()
        &&& self.hash_map.num_active_spec() <= self.cur_map_cap
        &&& 1 <= self.sample_size
    }

    closed spec fn bounded(&self) -> bool {
        forall|k: Seq<u8>|
            #![trigger self.true_count(k)]
            self.count_of(k) <= self.true_count(k) <= self.count_of(k) + self.offset
                && self.true_count(k) <= u64::MAX
    }

    pub closed spec fn wf(&self) -> bool {
        &&& self.structure()
        &&& self.bounded()
        &&& forall|k: Seq<u8>| #[trigger] self.true_count(k) <= self.stream_weight
    }

    /// Creates an empty sketch whose map may grow to `max_map_size` slots (a power of two;
    /// sizes below 8 count as 8).
    pub fn new(max_map_size: usize) -> (r: Self)
        requires
            exists|lg: nat| lg <= LG_MAX_MAP_SIZE_LIMIT && pow2_int(lg) == max_map_size,
        ensures
            r.wf(),
            r.counts() == Map::<Seq<u8>, u64>::empty(),
            r.offset_spec() == 0,
            r.weight_spec() == 0,
            r.lg_cur_spec() == LG_MIN_MAP_SIZE,
            r.num_active_spec() == 0,
            pow2_int(r.lg_max_spec() as nat) == if max_map_size < 8 {
                8
            } else {
                max_map_size as int
            },
            forall|k: Seq<u8>| #[trigger] r.true_count(k) == 0,
    {
        let lg = exact_log2(max_map_size);
        proof {
            reveal_with_fuel(pow2_int, 4);
            if lg < LG_MIN_MAP_SIZE {
                crate::frequencies::reverse_purge_item_hash_map::lemma_pow2_le(lg as nat, 2);
                reveal_with_fuel(pow2_int, 4);
            } else {
                crate::frequencies::reverse_purge_item_hash_map::lemma_pow2_le(3, lg as nat);
            }
        }
        Self::with_lg_map_sizes(lg, LG_MIN_MAP_SIZE)
    }

    fn with_lg_map_sizes(lg_max_map_size: u8, lg_cur_map_size: u8) -> (r: Self)
        requires
            lg_max_map_size <= LG_MAX_MAP_SIZE_LIMIT,
            lg_cur_map_size <= lg_max_map_size || lg_cur_map_size <= LG_MIN_MAP_SIZE,
        ensures
            r.wf(),
            r.counts() == Map::<Seq<u8>, u64>::empty(),
            r.offset_spec() == 0,
            r.weight_spec() == 0,
            r.lg_max_spec() == if lg_max_map_size < LG_MIN_MAP_SIZE {
                LG_MIN_MAP_SIZE
            } else {
                lg_max_map_size
            },
            r.lg_cur_spec() == if lg_cur_map_size < LG_MIN_MAP_SIZE {
                LG_MIN_MAP_SIZE
            } else {
                lg_cur_map_size
            },
            r.num_active_spec() == 0,
            forall|k: Seq<u8>| #[trigger] r.true_count(k) == 0,
    {
        let lg_max = if lg_max_map_size < LG_MIN_MAP_SIZE {
            LG_MIN_MAP_SIZE
        } else {
            lg_max_map_size
        };
        let lg_cur = if lg_cur_map_size < LG_MIN_MAP_SIZE {
            LG_MIN_MAP_SIZE
        } else {
            lg_cur_map_size
        };
        let map = ReversePurgeItemHashMap::new(lg_cur);
        let cur_map_cap = map.capacity();
        let max_map_cap = (1usize << lg_max) / 4 * 3;
        proof {
            assert((1usize << lg_max) >= 8) by (bit_vector)
                requires
                    3 <= lg_max <= 30,
            ;
        }
        let sample_size = if SAMPLE_SIZE < max_map_cap {
            SAMPLE_SIZE
        } else {
            max_map_cap
        };
        let r = FrequentItemsSketch {
            lg_max_map_size: lg_max,
            cur_map_cap,
            offset: 0,
            stream_weight: 0,
            sample_size,
            hash_map: map,
            truth: Ghost(Map::empty()),
        };
        r
    }

    /// Whether no item is tracked.
    pub fn is_empty(&self) -> (r: bool)
        requires
            self.wf(),
        ensures
            r == (self.num_active_spec() == 0),
            r == (self.counts().dom().len() == 0),
    {
        self.hash_map.num_active() == 0
    }

    /// The number of items tracked.
    pub fn num_active_items(&self) -> (r: usize)
        requires
            self.wf(),
        ensures
            r == self.num_active_spec(),
            r == self.counts().dom().len(),
    {
        self.hash_map.num_active()
    }

    /// The sum of all counts that the stream carried.
    pub fn total_weight(&self) -> (r: u64)
        ensures
            r == self.weight_spec(),
    {
        self.stream_weight
    }

    /// The estimated count of `item`: its stored count plus the offset when tracked, else zero.
    pub fn estimate(&self, item: &T) -> (r: u64)
        requires
            self.wf(),
        ensures
            r == if self.count_of(item.key()) > 0 {
                sat_add(self.count_of(item.key()), self.offset_spec())
            } else {
                0
            },
    {
        let value = self.hash_map.get(item);
        if value > 0 {
            value.saturating_add(self.offset)
        } else {
            0
        }
    }

    /// A lower bound on the count of `item`: its stored count.
    pub fn lower_bound(&self, item: &T) -> (r: u64)
        requires
            self.wf(),
        ensures
            r == self.count_of(item.key()),
            r <= self.true_count(item.key()),
    {
        self.hash_map.get(item)
    }

    /// An upper bound on the count of `item`: its stored count plus the offset.
    pub fn upper_bound(&self, item: &T) -> (r: u64)
        requires
            self.wf(),
        ensures
            r == sat_add(self.count_of(item.key()), self.offset_spec()),
            self.true_count(item.key()) <= r,
    {
        let r = self.hash_map.get(item).saturating_add(self.offset);
        proof {
            let k = item.key();
            assert(self.true_count(k) <= self.count_of(k) + self.offset);
        }
        r
    }

    /// The largest gap between an item's bounds: the offset.
    pub fn maximum_error(&self) -> (r: u64)
        ensures
            r == self.offset_spec(),
    {
        self.offset
    }

    /// Three quarters of the largest map length.
    pub fn maximum_map_capacity(&self) -> (r: usize)
        requires
            self.wf(),
        ensures
            r == pow2_int(self.lg_max_spec() as nat) * 3 / 4,
    {
        proof {
            crate::frequencies::reverse_purge_item_hash_map::lemma_pow2_shift_pub(
                self.lg_max_map_size,
            );
        }
        (1usize << self.lg_max_map_size) / 4 * 3
    }

    /// The number of items that the map holds before it grows or purges.
    pub fn current_map_capacity(&self) -> (r: usize)
        requires
            self.wf(),
        ensures
            r == pow2_int(self.lg_cur_spec() as nat) * 3 / 4,
    {
        proof {
            self.hash_map.lemma_len_pow2();
        }
        self.hash_map.capacity()
    }

    /// The base-2 logarithm of the largest map length.
    pub fn lg_max_map_size(&self) -> (r: u8)
        ensures
            r == self.lg_max_spec(),
    {
        self.lg_max_map_size
    }

    /// The base-2 logarithm of the current map length.
    pub fn lg_cur_map_size(&self) -> (r: u8)
        requires
            self.wf(),
        ensures
            r == self.lg_cur_spec(),
    {
        self.hash_map.lg_length()
    }

    proof fn lemma_bounded_same(&self, other: &Self)
        requires
            self.bounded(),
            self.hash_map.view() == other.hash_map.view(),
            self.truth@ == other.truth@,
            self.offset <= other.offset,
        ensures
            other.bounded(),
    {
        assert forall|kk: Seq<u8>|
            #![trigger other.true_count(kk)]
            other.count_of(kk) <= other.true_count(kk) <= other.count_of(kk) + other.offset
                && other.true_count(kk) <= u64::MAX by {
            assert(self.true_count(kk) == other.true_count(kk));
            assert(self.count_of(kk) == other.count_of(kk));
        }
    }

    /// For every item, the lower bound (the stored count) is at most its true count, which is
    /// at most the upper bound (stored count plus offset); the two bounds are the maximum error
    /// apart.
    pub proof fn lemma_bounds_sandwich(&self, k: Seq<u8>)
        requires
            self.wf(),
        ensures
            self.count_of(k) <= self.true_count(k) <= sat_add(self.count_of(k), self.offset_spec()),
            sat_add(self.count_of(k), self.offset_spec()) - self.count_of(k) <= self.offset_spec(),
    {
        assert(self.count_of(k) <= self.true_count(k) <= self.count_of(k) + self.offset
            && self.true_count(k) <= u64::MAX);
    }

    /// Adds `count` to the stored count of `item` (and to its exact count), growing or purging
    /// the map when it passes its capacity.
    fn insert_count(&mut self, item: T, count: u64)
        requires
            old(self).structure(),
            old(self).bounded(),
            count > 0,
            old(self).true_count(item.key()) + count <= u64::MAX,
        ensures
            final(self).structure(),
            final(self).bounded(),
            final(self).stream_weight == old(self).stream_weight,
            final(self).lg_max_map_size == old(self).lg_max_map_size,
            final(self).truth@ == old(self).truth@.insert(
                item.key(),
                (old(self).true_count(item.key()) + count) as nat,
            ),
            Self::settled(
                old(self).counts().insert(item.key(), (old(self).count_of(item.key()) + count) as u64),
                old(self).offset,
                final(self).counts(),
                final(self).offset,
            ),
            old(self).counts().insert(item.key(), (old(self).count_of(item.key()) + count) as u64).dom().len()
                <= old(self).max_capacity() ==> final(self).counts() == old(self).counts().insert(
                item.key(),
                (old(self).count_of(item.key()) + count) as u64,
            ) && final(self).offset == old(self).offset,
            final(self).offset >= old(self).offset,
    {
        let ghost k = item.key();
        let ghost old_counts = self.counts();
        proof {
            assert(self.count_of(k) <= self.true_count(k));
            self.truth = Ghost(self.truth@.insert(k, (self.true_count(k) + count) as nat));
        }
        proof {
            self.hash_map.lemma_len_pow2();
        }
        self.hash_map.adjust_or_put_value(item, count);
        proof {
            self.hash_map.lemma_slots();
            assert forall|kk: Seq<u8>|
                #![trigger self.true_count(kk)]
                self.count_of(kk) <= self.true_count(kk) <= self.count_of(kk) + self.offset
                    && self.true_count(kk) <= u64::MAX by {
                if kk != k {
                    assert(old(self).true_count(kk) == self.true_count(kk));
                }
            }
        }
        self.maybe_resize_or_purge();
    }

    /// Counts and offset `(c2, o2)` follow from `(c1, o1)` by either nothing or one purge: a
    /// stored count `m` taken off every count (dropping those that reach zero) and added to
    /// the offset.
    pub open spec fn settled(c1: Map<Seq<u8>, u64>, o1: u64, c2: Map<Seq<u8>, u64>, o2: u64) -> bool {
        (c2 == c1 && o2 == o1) || exists|m: u64|
            (exists|k: Seq<u8>| c1.contains_key(k) && c1[k] == m) && c2
                == ReversePurgeItemHashMap::<T>::reduced(c1, m) && o2 == sat_add(o1, m)
    }

    /// The most items the map holds before a purge: three quarters of its largest length.
    pub open spec fn max_capacity(&self) -> int {
        pow2_int(self.lg_max_spec() as nat) * 3 / 4
    }

    fn maybe_resize_or_purge(&mut self)
        requires
            old(self).hash_map.wf(),
            LG_MIN_MAP_SIZE <= old(self).hash_map.lg_spec() <= old(self).lg_max_map_size,
            old(self).lg_max_map_size <= LG_MAX_MAP_SIZE_LIMIT,
            old(self).cur_map_cap == old(self).hash_map.capacity_spec(),
            old(self).hash_map.num_active_spec() <= old(self).cur_map_cap + 1,
            1 <= old(self).sample_size,
            old(self).bounded(),
        ensures
            final(self).structure(),
            final(self).bounded(),
            final(self).stream_weight == old(self).stream_weight,
            final(self).lg_max_map_size == old(self).lg_max_map_size,
            final(self).truth@ == old(self).truth@,
            Self::settled(old(self).counts(), old(self).offset, final(self).counts(), final(self).offset),
            old(self).hash_map.num_active_spec() <= old(self).max_capacity() ==> final(self).counts()
                == old(self).counts() && final(self).offset == old(self).offset,
    {
        if self.hash_map.num_active() > self.cur_map_cap {
            let lg = self.hash_map.lg_length();
            if lg < self.lg_max_map_size {
                proof {
                    self.hash_map.lemma_len_pow2();
                    crate::frequencies::reverse_purge_item_hash_map::lemma_pow2_shift_pub((lg + 1) as u8);
                    assert(pow2_int((lg + 1) as nat) == 2 * pow2_int(lg as nat));
                }
                let ghost before = *self;
                self.hash_map.resize(lg + 1);
                proof {
                    self.hash_map.lemma_len_pow2();
                }
                self.cur_map_cap = self.hash_map.capacity();
                proof {
                    before.lemma_bounded_same(self);
                }
            } else {
                let ghost before = *self;
                proof {
                    self.hash_map.lemma_len_pow2();
                    assert(lg == self.lg_max_map_size);
                }
                let delta = self.hash_map.purge(self.sample_size);
                self.offset = self.offset.saturating_add(delta);
                proof {
                    assert(self.counts() == ReversePurgeItemHashMap::<T>::reduced(before.counts(), delta));
                    assert(exists|kk: Seq<u8>| before.counts().contains_key(kk) && before.counts()[kk] == delta);
                    assert(self.offset == sat_add(before.offset, delta));
                    assert(Self::settled(before.counts(), before.offset, self.counts(), self.offset));
                    assert forall|kk: Seq<u8>|
                        #![trigger self.true_count(kk)]
                        self.count_of(kk) <= self.true_count(kk) <= self.count_of(kk) + self.offset
                            && self.true_count(kk) <= u64::MAX by {
                        assert(before.true_count(kk) == self.true_count(kk));
                        assert(before.count_of(kk) <= before.true_count(kk) <= before.count_of(kk)
                            + before.offset);
                    }
                }
            }
        }
    }

    /// Adds one occurrence of `item`.
    pub fn update(&mut self, item: T)
        requires
            old(self).wf(),
            old(self).weight_spec() < u64::MAX,
        ensures
            final(self).wf(),
            final(self).weight_spec() == old(self).weight_spec() + 1,
            final(self).lg_max_spec() == old(self).lg_max_spec(),
            forall|k: Seq<u8>|
                #[trigger] final(self).true_count(k) == old(self).true_count(k) + if k
                    == item.key() {
                    1int
                } else {
                    0int
                },
            Self::settled(
                old(self).counts().insert(item.key(), (old(self).count_of(item.key()) + 1) as u64),
                old(self).offset_spec(),
                final(self).counts(),
                final(self).offset_spec(),
            ),
            old(self).counts().insert(item.key(), (old(self).count_of(item.key()) + 1) as u64).dom().len()
                <= old(self).max_capacity() ==> final(self).counts() == old(self).counts().insert(
                item.key(),
                (old(self).count_of(item.key()) + 1) as u64,
            ) && final(self).offset_spec() == old(self).offset_spec(),
    {
        self.update_with_count(item, 1);
    }

    /// Adds `count` occurrences of `item`; a count of zero changes nothing.
    pub fn update_with_count(&mut self, item: T, count: u64)
        requires
            old(self).wf(),
            old(self).weight_spec() + count <= u64::MAX,
        ensures
            final(self).wf(),
            final(self).weight_spec() == old(self).weight_spec() + count,
            final(self).lg_max_spec() == old(self).lg_max_spec(),
            forall|k: Seq<u8>|
                #[trigger] final(self).true_count(k) == old(self).true_count(k) + if k
                    == item.key() {
                    count as int
                } else {
                    0int
                },
            count == 0 ==> final(self).counts() == old(self).counts() && final(self).offset_spec()
                == old(self).offset_spec(),
            count > 0 ==> Self::settled(
                old(self).counts().insert(item.key(), (old(self).count_of(item.key()) + count) as u64),
                old(self).offset_spec(),
                final(self).counts(),
                final(self).offset_spec(),
            ),
            count > 0 && old(self).counts().insert(item.key(), (old(self).count_of(item.key()) + count) as u64).dom().len()
                <= old(self).max_capacity() ==> final(self).counts() == old(self).counts().insert(
                item.key(),
                (old(self).count_of(item.key()) + count) as u64,
            ) && final(self).offset_spec() == old(self).offset_spec(),
    {
        if count == 0 {
            return ;
        }
        let ghost k = item.key();
        proof {
            assert(self.true_count(k) <= self.stream_weight);
        }
        self.insert_count(item, count);
        let ghost before = *self;
        self.stream_weight = self.stream_weight + count;
        proof {
            before.lemma_bounded_same(self);
            assert forall|kk: Seq<u8>| #[trigger] self.true_count(kk) <= self.stream_weight by {
                assert(old(self).true_count(kk) <= old(self).stream_weight);
            }
            assert forall|kk: Seq<u8>|
                #[trigger] self.true_count(kk) == old(self).true_count(kk) + if kk == k {
                    count as int
                } else {
                    0int
                } by {}
        }
    }

    /// Returns the sketch to its state right after construction, keeping its largest map size.
    pub fn reset(&mut self)
        requires
            old(self).wf(),
        ensures
            final(self).wf(),
            final(self).counts() == Map::<Seq<u8>, u64>::empty(),
            final(self).offset_spec() == 0,
            final(self).weight_spec() == 0,
            final(self).lg_max_spec() == old(self).lg_max_spec(),
            final(self).lg_cur_spec() == LG_MIN_MAP_SIZE,
            final(self).num_active_spec() == 0,
            forall|k: Seq<u8>| #[trigger] final(self).true_count(k) == 0,
    {
        *self = Self::with_lg_map_sizes(self.lg_max_map_size, LG_MIN_MAP_SIZE);
    }

    /// Merges `other` into this sketch: its counts are added item by item, its offset is added
    /// to this offset, and the stream weights add up. An empty `other` changes nothing.
    pub fn merge(&mut self, other: &Self)
        requires
            old(self).wf(),
            other.wf(),
            old(self).weight_spec() + other.weight_spec() <= u64::MAX,
        ensures
            final(self).wf(),
            final(self).lg_max_spec() == old(self).lg_max_spec(),
            final(self).weight_spec() == old(self).weight_spec() + other.weight_spec(),
            final(self).offset_spec() >= sat_add(old(self).offset_spec(), other.offset_spec()),
            forall|k: Seq<u8>|
                #[trigger] final(self).true_count(k) == old(self).true_count(k)
                    + other.true_count(k),
            other.num_active_spec() == 0 ==> final(self).counts() == old(self).counts()
                && final(self).offset_spec() == sat_add(old(self).offset_spec(), other.offset_spec()),
    {
        let merged_total = self.stream_weight + other.stream_weight;
        let mut entries = other.hash_map.iter();
        let ghost keys = other.hash_map.slot_keys();
        let ghost vals = other.hash_map.slot_values();
        let ghost total = keys.len();
        let ghost start = *self;
        proof {
            other.hash_map.lemma_slots();
            assert(entries@.map_values(|e: (T, u64)| e.0.key()).len() == entries@.len());
            assert(keys.subrange(0, total as int) =~= keys);
            assert(vals.subrange(0, total as int) =~= vals);
            assert forall|k: Seq<u8>| #[trigger] self.true_count(k) == start.true_count(k) + added(
                keys,
                vals,
                total as int,
                k,
            ) by {}
        }
        while entries.len() > 0
            invariant
                self.structure(),
                self.bounded(),
                self.lg_max_map_size == start.lg_max_map_size,
                self.stream_weight == start.stream_weight,
                self.offset >= start.offset,
                total == 0 ==> self.counts() == start.counts() && self.offset == start.offset,
                other.wf(),
                start.wf(),
                start.stream_weight + other.stream_weight <= u64::MAX,
                keys == other.hash_map.slot_keys(),
                vals == other.hash_map.slot_values(),
                keys.len() == total,
                vals.len() == total,
                entries@.len() <= total,
                entries@.map_values(|e: (T, u64)| e.0.key()) == keys.subrange(
                    0,
                    entries@.len() as int,
                ),
                entries@.map_values(|e: (T, u64)| e.1) == vals.subrange(0, entries@.len() as int),
                forall|j: int|
                    0 <= j < total ==> other.hash_map.view().contains_key(#[trigger] keys[j])
                        && other.hash_map.view()[keys[j]] == vals[j] && vals[j] > 0,
                forall|a: int, b: int|
                    0 <= a < total && 0 <= b < total && a != b ==> #[trigger] keys[a]
                        != #[trigger] keys[b],
                forall|k: Seq<u8>| #[trigger]
                    self.true_count(k) == start.true_count(k) + added(
                        keys,
                        vals,
                        entries@.len() as int,
                        k,
                    ),
            decreases entries@.len(),
        {
            let ghost len = entries@.len() as int;
            let ghost before = entries@;
            let entry = entries.pop();
            match entry {
                Some((item, c)) => {
                    let ghost k = item.key();
                    proof {
                        assert(before.map_values(|e: (T, u64)| e.0.key())[len - 1] == keys[len - 1]);
                        assert(before.map_values(|e: (T, u64)| e.1)[len - 1] == vals[len - 1]);
                        assert(before[len - 1] == (item, c));
                        assert(k == keys[len - 1] && c == vals[len - 1]);
                        assert(added(keys, vals, len, k) == 0) by {
                            if exists|j: int| len <= j < keys.len() && keys[j] == k {
                                let j = choose|j: int| len <= j < keys.len() && keys[j] == k;
                                assert(keys[j] != keys[len - 1]);
                            }
                        }
                        assert(other.count_of(k) == c);
                        assert(c <= other.true_count(k));
                        assert(other.true_count(k) <= other.stream_weight);
                        assert(start.true_count(k) <= start.stream_weight);
                    }
                    let ghost pre = *self;
                    self.insert_count(item, c);
                    proof {
                        assert(entries@ =~= before.subrange(0, len - 1));
                        assert(entries@.map_values(|e: (T, u64)| e.0.key()) =~= keys.subrange(
                            0,
                            len - 1,
                        ));
                        assert(entries@.map_values(|e: (T, u64)| e.1) =~= vals.subrange(
                            0,
                            len - 1,
                        ));
                        assert forall|kk: Seq<u8>| #[trigger]
                            self.true_count(kk) == start.true_count(kk) + added(
                                keys,
                                vals,
                                len - 1,
                                kk,
                            ) by {
                            lemma_added_step(keys, vals, len, kk);
                            assert(pre.true_count(kk) == start.true_count(kk) + added(
                                keys,
                                vals,
                                len,
                                kk,
                            ));
                            if kk == k {
                                assert(self.true_count(kk) == pre.true_count(k) + c);
                            } else {
                                assert(self.true_count(kk) == pre.true_count(kk));
                            }
                        }
                    }
                },
                None => {},
            }
        }
        let ghost mid = *self;
        proof {
            assert forall|k: Seq<u8>| #[trigger] added(keys, vals, 0, k) == other.count_of(k) by {
                if other.counts().contains_key(k) {
                    let j = choose|j: int| 0 <= j < keys.len() && keys[j] == k;
                    let j2 = choose|j2: int| 0 <= j2 < keys.len() && keys[j2] == k;
                    assert(j == j2) by {
                        if j != j2 {
                            assert(keys[j] != keys[j2]);
                        }
                    }
                } else {
                    if exists|j: int| 0 <= j < keys.len() && keys[j] == k {
                        let j = choose|j: int| 0 <= j < keys.len() && keys[j] == k;
                        assert(other.hash_map.view().contains_key(keys[j]));
                    }
                }
            }
        }
        self.offset = self.offset.saturating_add(other.offset);
        self.stream_weight = merged_total;
        proof {
            self.truth = Ghost(
                Map::new(
                    |k: Seq<u8>| true,
                    |k: Seq<u8>| start.true_count(k) + other.true_count(k),
                ),
            );
            assert forall|k: Seq<u8>|
                #![trigger self.true_count(k)]
                self.count_of(k) <= self.true_count(k) <= self.count_of(k) + self.offset
                    && self.true_count(k) <= u64::MAX by {
                assert(self.true_count(k) == start.true_count(k) + other.true_count(k));
                assert(mid.true_count(k) == start.true_count(k) + other.count_of(k));
                assert(mid.count_of(k) <= mid.true_count(k) <= mid.count_of(k) + mid.offset);
                assert(other.count_of(k) <= other.true_count(k) <= other.count_of(k) + other.offset);
                assert(start.true_count(k) <= start.stream_weight);
                assert(other.true_count(k) <= other.stream_weight);
                assert(self.count_of(k) == mid.count_of(k));
            }
            assert forall|k: Seq<u8>| #[trigger] self.true_count(k) <= self.stream_weight by {
                assert(start.true_count(k) <= start.stream_weight);
                assert(other.true_count(k) <= other.stream_weight);
            }
        }
    }

    /// The frequent items with the offset as threshold; see
    /// [`FrequentItemsSketch::frequent_items_with_threshold`].
    pub fn frequent_items(&self, error_type: ErrorType) -> (r: Vec<Row<T>>)
        requires
            self.wf(),
        ensures
            self.answers(r@, error_type, self.offset_spec()),
    {
        self.frequent_items_with_threshold(error_type, self.offset)
    }

    /// The rows answer a frequent-items query at threshold `threshold`: sorted by estimate,
    /// largest first; each row an item with its bounds that passes the test; every item that
    /// passes the test present.
    pub open spec fn answers(&self, rows: Seq<Row<T>>, error_type: ErrorType, threshold: u64) -> bool {
        let t = if threshold < self.offset_spec() {
            self.offset_spec()
        } else {
            threshold
        };
        &&& forall|a: int, b: int|
            0 <= a < b < rows.len() ==> #[trigger] rows[a].estimate_spec()
                >= #[trigger] rows[b].estimate_spec()
        &&& forall|q: int|
            0 <= q < rows.len() ==> self.counts().contains_key(#[trigger] rows[q].item_spec().key())
                && rows[q].lower_spec() == self.counts()[rows[q].item_spec().key()]
                && rows[q].upper_spec() == sat_add(rows[q].lower_spec(), self.offset_spec())
                && rows[q].estimate_spec() == rows[q].upper_spec() && qualifies(
                error_type,
                rows[q].lower_spec(),
                rows[q].upper_spec(),
                t,
            )
        &&& forall|k: Seq<u8>|
            #![trigger self.counts().contains_key(k)]
            self.counts().contains_key(k) && qualifies(
                error_type,
                self.counts()[k],
                sat_add(self.counts()[k], self.offset_spec()),
                t,
            ) ==> exists|q: int| 0 <= q < rows.len() && rows[q].item_spec().key() == k
        &&& forall|a: int, b: int|
            0 <= a < rows.len() && 0 <= b < rows.len() && a != b ==> #[trigger] rows[a].item_spec().key()
                != #[trigger] rows[b].item_spec().key()
    }

    /// `k` is one of the first `i` keys.
    pub open spec fn among(k: Seq<u8>, keys: Seq<Seq<u8>>, i: int) -> bool {
        exists|j: int| 0 <= j < i && keys[j] == k
    }

    /// The items whose bounds pass the test of `error_type` against `max(threshold, offset)`:
    /// the upper bound must exceed it (no false negatives) or the lower bound must (no false
    /// positives). Rows come largest estimate first.
    #[verifier::rlimit(60)]
    pub fn frequent_items_with_threshold(&self, error_type: ErrorType, threshold: u64) -> (r: Vec<
        Row<T>,
    >)
        requires
            self.wf(),
        ensures
            self.answers(r@, error_type, threshold),
    {
        let t = if threshold < self.offset {
            self.offset
        } else {
            threshold
        };
        let entries = self.hash_map.iter();
        let ghost keys = self.hash_map.slot_keys();
        let ghost vals = self.hash_map.slot_values();
        proof {
            self.hash_map.lemma_slots();
            assert(entries@.map_values(|e: (T, u64)| e.0.key()).len() == entries@.len());
        }
        let mut rows: Vec<Row<T>> = Vec::new();
        let mut i: usize = 0;
        while i < entries.len()
            invariant
                self.wf(),
                i <= entries@.len(),
                keys == self.hash_map.slot_keys(),
                vals == self.hash_map.slot_values(),
                entries@.map_values(|e: (T, u64)| e.0.key()) == keys,
                entries@.map_values(|e: (T, u64)| e.1) == vals,
                keys.len() == vals.len(),
                forall|j: int|
                    0 <= j < keys.len() ==> self.hash_map.view().contains_key(#[trigger] keys[j])
                        && self.hash_map.view()[keys[j]] == vals[j],
                t == if threshold < self.offset {
                    self.offset
                } else {
                    threshold
                },
                forall|a: int, b: int|
                    0 <= a < b < rows@.len() ==> #[trigger] rows@[a].estimate_spec()
                        >= #[trigger] rows@[b].estimate_spec(),
                forall|q: int|
                    0 <= q < rows@.len() ==> self.counts().contains_key(
                        #[trigger] rows@[q].item_spec().key(),
                    ) && rows@[q].lower_spec() == self.counts()[rows@[q].item_spec().key()]
                        && rows@[q].upper_spec() == sat_add(rows@[q].lower_spec(), self.offset)
                        && rows@[q].estimate_spec() == rows@[q].upper_spec() && qualifies(
                        error_type,
                        rows@[q].lower_spec(),
                        rows@[q].upper_spec(),
                        t,
                    ),
                forall|j: int|
                    0 <= j < i && qualifies(
                        error_type,
                        #[trigger] vals[j],
                        sat_add(vals[j], self.offset),
                        t,
                    ) ==> exists|q: int| 0 <= q < rows@.len() && rows@[q].item_spec().key() == keys[j],
                forall|a: int, b: int|
                    0 <= a < keys.len() && 0 <= b < keys.len() && a != b ==> #[trigger] keys[a] != #[trigger] keys[b],
                forall|q: int| 0 <= q < rows@.len() ==> Self::among(#[trigger] rows@[q].item_spec().key(), keys, i as int),
                forall|a: int, b: int|
                    0 <= a < rows@.len() && 0 <= b < rows@.len() && a != b ==> #[trigger] rows@[a].item_spec().key()
                        != #[trigger] rows@[b].item_spec().key(),
            decreases entries@.len() - i,
        {
            let count = entries[i].1;
            let lower = count;
            let upper = count.saturating_add(self.offset);
            let passes = match error_type {
                ErrorType::NoFalseNegatives => upper > t,
                ErrorType::NoFalsePositives => lower > t,
            };
            proof {
                assert(entries@.map_values(|e: (T, u64)| e.0.key())[i as int] == keys[i as int]);
                assert(entries@.map_values(|e: (T, u64)| e.1)[i as int] == vals[i as int]);
            }
            if passes {
                let item = entries[i].0.clone_item();
                let row = Row { item, estimate: upper, upper_bound: upper, lower_bound: lower };
                let mut pos: usize = 0;
                while pos < rows.len() && rows[pos].estimate >= upper
                    invariant
                        pos <= rows@.len(),
                        forall|q: int| 0 <= q < pos ==> #[trigger] rows@[q].estimate_spec() >= upper,
                    decreases rows@.len() - pos,
                {
                    pos = pos + 1;
                }
                let ghost old_rows = rows@;
                rows.insert(pos, row);
                proof {
                    assert forall|q: int| 0 <= q < rows@.len() implies (q < pos ==> rows@[q]
                        == old_rows[q]) && (q > pos ==> rows@[q] == old_rows[q - 1]) && (q == pos
                        ==> rows@[q] == row) by {}
                    assert forall|a: int, b: int|
                        0 <= a < b < rows@.len() implies #[trigger] rows@[a].estimate_spec()
                        >= #[trigger] rows@[b].estimate_spec() by {
                        if b > pos && a == pos {
                            assert(old_rows[pos as int].estimate_spec() < upper);
                            if b - 1 > pos {
                                assert(old_rows[pos as int].estimate_spec() >= old_rows[b
                                    - 1].estimate_spec());
                            }
                        } else if b > pos && a < pos {
                            assert(old_rows[a].estimate_spec() >= old_rows[b - 1].estimate_spec());
                        } else if b > pos && a > pos {
                            assert(old_rows[a - 1].estimate_spec() >= old_rows[b - 1].estimate_spec());
                        } else if b == pos {
                            assert(old_rows[a].estimate_spec() >= upper);
                        } else {
                            assert(old_rows[a].estimate_spec() >= old_rows[b].estimate_spec());
                        }
                    }
                    assert forall|q: int|
                        0 <= q < rows@.len() implies self.counts().contains_key(
                        #[trigger] rows@[q].item_spec().key(),
                    ) && rows@[q].lower_spec() == self.counts()[rows@[q].item_spec().key()]
                        && rows@[q].upper_spec() == sat_add(rows@[q].lower_spec(), self.offset)
                        && rows@[q].estimate_spec() == rows@[q].upper_spec() && qualifies(
                        error_type,
                        rows@[q].lower_spec(),
                        rows@[q].upper_spec(),
                        t,
                    ) by {
                        if q < pos {
                            assert(rows@[q] == old_rows[q]);
                        } else if q > pos {
                            assert(rows@[q] == old_rows[q - 1]);
                        } else {
                            assert(row.item_spec().key() == keys[i as int]);
                        }
                    }
                    assert forall|j: int|
                        0 <= j < i + 1 && qualifies(
                            error_type,
                            #[trigger] vals[j],
                            sat_add(vals[j], self.offset),
                            t,
                        ) implies exists|q: int|
                        0 <= q < rows@.len() && rows@[q].item_spec().key() == keys[j] by {
                        if j == i {
                            assert(rows@[pos as int].item_spec().key() == keys[j]);
                        } else {
                            let q = choose|q: int|
                                0 <= q < old_rows.len() && old_rows[q].item_spec().key() == keys[j];
                            if q < pos {
                                assert(rows@[q] == old_rows[q]);
                            } else {
                                assert(rows@[q + 1] == old_rows[q]);
                            }
                        }
                    }
                    assert forall|q: int| 0 <= q < rows@.len() implies Self::among(#[trigger] rows@[q].item_spec().key(), keys, i + 1) by {
                        if q == pos {
                            assert(keys[i as int] == rows@[q].item_spec().key());
                        } else {
                            let qq = if q < pos { q } else { q - 1 };
                            assert(rows@[q] == old_rows[qq]);
                            assert(Self::among(old_rows[qq].item_spec().key(), keys, i as int));
                            let j = choose|j: int| 0 <= j < i && keys[j] == old_rows[qq].item_spec().key();
                            assert(keys[j] == rows@[q].item_spec().key());
                        }
                    }
                    assert forall|a: int, b: int|
                        0 <= a < rows@.len() && 0 <= b < rows@.len() && a != b implies #[trigger] rows@[a].item_spec().key()
                            != #[trigger] rows@[b].item_spec().key() by {
                        if a != pos && b != pos {
                            let qa = if a < pos { a } else { a - 1 };
                            let qb = if b < pos { b } else { b - 1 };
                            assert(rows@[a] == old_rows[qa] && rows@[b] == old_rows[qb]);
                            assert(old_rows[qa].item_spec().key() != old_rows[qb].item_spec().key());
                        } else {
                            let o = if a == pos { b } else { a };
                            let qo = if o < pos { o } else { o - 1 };
                            assert(rows@[o] == old_rows[qo]);
                            assert(Self::among(old_rows[qo].item_spec().key(), keys, i as int));
                            let j = choose|j: int| 0 <= j < i && keys[j] == old_rows[qo].item_spec().key();
                            assert(keys[j] != keys[i as int]);
                            assert(rows@[pos as int].item_spec().key() == keys[i as int]);
                        }
                    }
                }
            } else {
                proof {
                    assert forall|q: int| 0 <= q < rows@.len() implies Self::among(#[trigger] rows@[q].item_spec().key(), keys, i + 1) by {
                        assert(Self::among(rows@[q].item_spec().key(), keys, i as int));
                        let j = choose|j: int| 0 <= j < i && keys[j] == rows@[q].item_spec().key();
                    }
                }
            }
            i = i + 1;
        }
        proof {
            assert forall|k: Seq<u8>|
                #![trigger self.counts().contains_key(k)]
                self.counts().contains_key(k) && qualifies(
                    error_type,
                    self.counts()[k],
                    sat_add(self.counts()[k], self.offset),
                    t,
                ) implies exists|q: int| 0 <= q < rows@.len() && rows@[q].item_spec().key() == k by {
                let j = choose|j: int| 0 <= j < keys.len() && keys[j] == k;
                assert(qualifies(error_type, vals[j], sat_add(vals[j], self.offset), t));
            }
        }
        rows
    }

    /// The image of this sketch, with `items_bytes` as the encoded items in slot order.
    /// `r` is the image of this sketch with `items` as the encoded items in slot order.
    pub open spec fn serialized(&self, r: Seq<u8>, items: Seq<u8>) -> bool {
        let n = self.num_active_spec();
        &&& r.len() >= 8
        &&& r[0] == if n == 0 {
            PREAMBLE_LONGS_EMPTY
        } else {
            PREAMBLE_LONGS_NONEMPTY
        }
        &&& r[1] == SER_VER
        &&& r[2] == FAMILY_ID
        &&& r[3] == self.lg_max_spec()
        &&& r[4] == self.lg_cur_spec()
        &&& r[5] == if n == 0 {
            EMPTY_FLAG_MASK
        } else {
            0
        }
        &&& r[6] == 0 && r[7] == 0
        &&& n == 0 ==> r.len() == 8
        &&& n > 0 ==> {
            &&& r.len() == 32 + 8 * n + items.len()
            &&& le_nat(r.subrange(8, 12)) == n
            &&& r[12] == 0 && r[13] == 0 && r[14] == 0 && r[15] == 0
            &&& le_nat(r.subrange(16, 24)) == self.weight_spec()
            &&& le_nat(r.subrange(24, 32)) == self.offset_spec()
            &&& forall|j: int| 0 <= j < n ==> le_nat(#[trigger] r.subrange(32 + 8 * j, 40 + 8 * j)) == self.slot_counts()[j]
            &&& r.subrange(32 + 8 * n, r.len() as int) == items
        }
    }

    fn serialize_inner(&self, items_bytes: &Vec<u8>) -> (r: Vec<u8>)
        requires
            self.wf(),
        ensures
            self.serialized(r@, items_bytes@),
    {
        let lg_cur = self.hash_map.lg_length();
        if self.is_empty() {
            let mut out: Vec<u8> = Vec::new();
            out.push(PREAMBLE_LONGS_EMPTY);
            out.push(SER_VER);
            out.push(FAMILY_ID);
            out.push(self.lg_max_map_size);
            out.push(lg_cur);
            out.push(EMPTY_FLAG_MASK);
            out.push(0);
            out.push(0);
            return out;
        }
        let active_items = self.hash_map.num_active();
        let values = self.hash_map.active_values();
        proof {
            self.hash_map.lemma_slots();
            self.hash_map.lemma_len_pow2();
            crate::frequencies::reverse_purge_item_hash_map::lemma_pow2_le(
                self.hash_map.lg_spec() as nat,
                26,
            );
        }
        let head = 32 + 8 * active_items;
        let ghost total = head + items_bytes@.len();
        let mut out: Vec<u8> = Vec::new();
        while out.len() < head
            invariant
                out@.len() <= head,
                forall|q: int| 0 <= q < out@.len() ==> #[trigger] out@[q] == 0,
            decreases head - out@.len(),
        {
            out.push(0);
        }
        let mut t: usize = 0;
        while t < items_bytes.len()
            invariant
                forall|q: int| 0 <= q < head ==> #[trigger] out@[q] == 0,
                out@.len() == head + t,
                t <= items_bytes@.len(),
                out@.subrange(head as int, head + t) == items_bytes@.subrange(0, t as int),
            decreases items_bytes@.len() - t,
        {
            out.push(items_bytes[t]);
            t = t + 1;
            assert(out@.subrange(head as int, head + t) =~= items_bytes@.subrange(0, t as int));
        }
        assert(items_bytes@.subrange(0, items_bytes@.len() as int) =~= items_bytes@);
        let ghost copied = out@.subrange(head as int, total as int);
        out.set(0, PREAMBLE_LONGS_NONEMPTY);
        out.set(1, SER_VER);
        out.set(2, FAMILY_ID);
        out.set(3, self.lg_max_map_size);
        out.set(4, lg_cur);
        out.set(5, 0);
        let ghost tail = out@.subrange(head as int, total as int);
        assert(tail =~= copied);
        write_u32_le(&mut out, 8, active_items as u32);
        let ghost s1 = out@;
        write_u64_le(&mut out, 16, self.stream_weight);
        let ghost s2 = out@;
        write_u64_le(&mut out, 24, self.offset);
        proof {
            assert(out@.subrange(8, 12) =~= s1.subrange(8, 12));
            assert(out@.subrange(16, 24) =~= s2.subrange(16, 24));
            assert(out@.subrange(head as int, total as int) =~= tail);
            assert(out@[6] == 0 && out@[7] == 0 && out@[12] == 0 && out@[13] == 0 && out@[14] == 0 && out@[15] == 0);
        }
        let mut j: usize = 0;
        let nvals = values.len();
        while j < nvals && j < active_items
            invariant
                out@.len() == total,
                nvals == values@.len(),
                total == head + items_bytes@.len(),
                head == 32 + 8 * active_items,
                j <= active_items,
                out@[0] == PREAMBLE_LONGS_NONEMPTY,
                out@[1] == SER_VER,
                out@[2] == FAMILY_ID,
                out@[3] == self.lg_max_map_size,
                out@[4] == lg_cur,
                out@[5] == 0,
                le_nat(out@.subrange(8, 12)) == active_items,
                le_nat(out@.subrange(16, 24)) == self.stream_weight,
                le_nat(out@.subrange(24, 32)) == self.offset,
                out@.subrange(head as int, total as int) == items_bytes@,
                out@[6] == 0 && out@[7] == 0 && out@[12] == 0 && out@[13] == 0 && out@[14] == 0 && out@[15] == 0,
                values@ == self.slot_counts(),
                nvals == active_items,
                active_items == self.num_active_spec(),
                forall|q: int| 0 <= q < j ==> le_nat(#[trigger] out@.subrange(32 + 8 * q, 40 + 8 * q)) == values@[q],
            decreases active_items - j,
        {
            let ghost before = out@;
            write_u64_le(&mut out, 32 + 8 * j, values[j]);
            proof {
                assert(out@.subrange(8, 12) =~= before.subrange(8, 12));
                assert(out@.subrange(16, 24) =~= before.subrange(16, 24));
                assert(out@.subrange(24, 32) =~= before.subrange(24, 32));
                assert(out@.subrange(head as int, total as int) =~= before.subrange(head as int, total as int));
                assert forall|q: int| 0 <= q < j + 1 implies le_nat(#[trigger] out@.subrange(32 + 8 * q, 40 + 8 * q)) == values@[q] by {
                    if q < j {
                        assert(out@.subrange(32 + 8 * q, 40 + 8 * q) =~= before.subrange(32 + 8 * q, 40 + 8 * q));
                    }
                }
            }
            j = j + 1;
        }
        proof {
            assert(items_bytes@.subrange(0, items_bytes@.len() as int) =~= items_bytes@);
        }
        out
    }

    /// Builds a sketch from a decoded image: the counts of `items` (zero counts skipped), then
    /// the stored stream weight and offset.
    fn assemble(pre: &Preamble, values: &Vec<u64>, items: Vec<T>) -> (r: Result<Self, Error>)
        requires
            pre.lg_cur <= pre.lg_max <= LG_MAX_MAP_SIZE_LIMIT,
            values@.len() == items@.len(),
        ensures
            r.is_ok() <==> seq_sum(values@) <= pre.stream_weight,
            r matches Ok(s) ==> s.wf() && s.weight_spec() == pre.stream_weight && s.offset_spec()
                == pre.offset && s.lg_max_spec() == if pre.lg_max < LG_MIN_MAP_SIZE {
                LG_MIN_MAP_SIZE
            } else {
                pre.lg_max
            },
            r matches Ok(s) ==> (distinct(items@.map_values(|t: T| t.key())) && values@.len()
                <= s.max_capacity() ==> s.counts() == pairs(
                items@.map_values(|t: T| t.key()),
                values@,
                values@.len() as int,
            )),
            r matches Err(e) ==> e.kind == ErrorKind::InvalidData,
    {
        let mut sketch = Self::with_lg_map_sizes(pre.lg_max, pre.lg_cur);
        let ghost keys = items@.map_values(|t: T| t.key());
        let ghost cap = sketch.max_capacity();
        let n = items.len();
        let mut i: usize = 0;
        proof {
            assert(pairs(keys, values@, 0) =~= Map::<Seq<u8>, u64>::empty());
            assert(values@.subrange(0, 0) =~= Seq::<u64>::empty());
        }
        while i < n
            invariant
                sketch.wf(),
                sketch.lg_max_spec() == if pre.lg_max < LG_MIN_MAP_SIZE {
                    LG_MIN_MAP_SIZE
                } else {
                    pre.lg_max
                },
                cap == sketch.max_capacity(),
                n == items@.len(),
                n == values@.len(),
                keys == items@.map_values(|t: T| t.key()),
                i <= n,
                sketch.weight_spec() == seq_sum(values@.subrange(0, i as int)),
                distinct(keys) && n <= cap ==> sketch.counts() == pairs(keys, values@, i as int)
                    && sketch.counts().dom().len() <= i,
            decreases n - i,
        {
            let value = values[i];
            let ghost prev = sketch;
            proof {
                assert(values@.subrange(0, i + 1).drop_last() =~= values@.subrange(0, i as int));
                lemma_seq_sum_prefix(values@, i + 1);
            }
            if value > 0 {
                if sketch.stream_weight > u64::MAX - value {
                    return Err(Error::deserial("counts exceed stream weight"));
                }
                let item = items[i].clone_item();
                proof {
                    assert(item.key() == keys[i as int]);
                    prev.lemma_slot_order();
                }
                sketch.update_with_count(item, value);
                proof {
                    if distinct(keys) && n <= cap {
                        assert(!prev.counts().contains_key(keys[i as int])) by {
                            if prev.counts().contains_key(keys[i as int]) {
                                let j = choose|j: int| 0 <= j < i && keys[j] == keys[i as int] && values@[j] > 0;
                                assert(keys[j] != keys[i as int]);
                            }
                        }
                        assert(prev.count_of(keys[i as int]) == 0);
                        let m = prev.counts().insert(keys[i as int], value);
                        assert(m.dom() =~= prev.counts().dom().insert(keys[i as int]));
                        assert(m.dom().len() == prev.counts().dom().len() + 1);
                        assert(m.dom().len() <= prev.max_capacity());
                        assert(sketch.counts() == m);
                        assert(m =~= pairs(keys, values@, i + 1)) by {
                            assert forall|k: Seq<u8>| m.contains_key(k) == pairs(keys, values@, i + 1).contains_key(k) by {
                                if pairs(keys, values@, i + 1).contains_key(k) && k != keys[i as int] {
                                    let j = choose|j: int| 0 <= j < i + 1 && keys[j] == k && values@[j] > 0;
                                    assert(j != i);
                                }
                            }
                            assert forall|k: Seq<u8>| m.contains_key(k) implies m[k] == pairs(keys, values@, i + 1)[k] by {
                                let j = choose|j: int| 0 <= j < i + 1 && keys[j] == k && values@[j] > 0;
                                if k == keys[i as int] {
                                    if j != i {
                                        assert(keys[j] != keys[i as int]);
                                    }
                                } else {
                                    assert(j != i);
                                    let j2 = choose|j2: int| 0 <= j2 < i && keys[j2] == k && values@[j2] > 0;
                                    if j2 != j {
                                        assert(keys[j2] != keys[j]);
                                    }
                                }
                            }
                        }
                    }
                }
            } else {
                proof {
                    if distinct(keys) && n <= cap {
                        assert(pairs(keys, values@, i + 1) =~= pairs(keys, values@, i as int)) by {
                            assert forall|k: Seq<u8>| #[trigger] pairs(keys, values@, i + 1).contains_key(k) implies pairs(keys, values@, i as int).contains_key(k) by {
                                let j = choose|j: int| 0 <= j < i + 1 && keys[j] == k && values@[j] > 0;
                                assert(j != i);
                            }
                            assert forall|k: Seq<u8>| #[trigger] pairs(keys, values@, i as int).contains_key(k) implies pairs(keys, values@, i + 1)[k] == pairs(keys, values@, i as int)[k] by {
                                let j = choose|j: int| 0 <= j < i + 1 && keys[j] == k && values@[j] > 0;
                                let j2 = choose|j2: int| 0 <= j2 < i && keys[j2] == k && values@[j2] > 0;
                                if j != j2 {
                                    assert(keys[j2] != keys[j]);
                                }
                            }
                        }
                    }
                }
            }
            i = i + 1;
        }
        proof {
            assert(values@.subrange(0, n as int) =~= values@);
        }
        if sketch.stream_weight > pre.stream_weight {
            return Err(Error::deserial("counts exceed stream weight"));
        }
        let ghost before = sketch;
        sketch.stream_weight = pre.stream_weight;
        sketch.offset = pre.offset;
        let ghost snap = sketch;
        sketch.truth = Ghost(Map::new(|k: Seq<u8>| true, |k: Seq<u8>| snap.count_of(k) as nat));
        proof {
            assert forall|k: Seq<u8>|
                #![trigger sketch.true_count(k)]
                sketch.count_of(k) <= sketch.true_count(k) <= sketch.count_of(k) + sketch.offset
                    && sketch.true_count(k) <= u64::MAX by {}
            assert forall|k: Seq<u8>| #[trigger] sketch.true_count(k) <= sketch.stream_weight by {
                assert(before.count_of(k) <= before.true_count(k));
                assert(before.true_count(k) <= before.stream_weight);
                assert(sketch.count_of(k) == before.count_of(k));
            }
        }
        Ok(sketch)
    }
}

/// The fields of a Frequent-Items preamble.
pub struct Preamble {
    pub lg_max: u8,
    pub lg_cur: u8,
    pub empty: bool,
    pub active_items: usize,
    pub stream_weight: u64,
    pub offset: u64,
}

/// The preamble of `b` passes the format's checks.
pub open spec fn valid_preamble(b: Seq<u8>) -> bool {
    &&& b.len() >= 8
    &&& b[1] == SER_VER
    &&& b[2] == FAMILY_ID
    &&& b[4] <= b[3] <= LG_MAX_MAP_SIZE_LIMIT
    &&& if b[5] & EMPTY_FLAG_MASK != 0 {
        b[0] & 0x3f == PREAMBLE_LONGS_EMPTY
    } else {
        b[0] & 0x3f == PREAMBLE_LONGS_NONEMPTY && b.len() >= 32
    }
}

/// Reads and checks the preamble of a Frequent-Items image.
pub fn read_preamble(bytes: &[u8]) -> (r: Result<Preamble, Error>)
    ensures
        r.is_ok() <==> valid_preamble(bytes@),
        bytes@.len() < 8 ==> (r matches Err(e) && e.kind == ErrorKind::InsufficientData),
        r matches Ok(p) ==> {
            &&& p.lg_max == bytes@[3]
            &&& p.lg_cur == bytes@[4]
            &&& p.empty == (bytes@[5] & EMPTY_FLAG_MASK != 0)
            &&& !p.empty ==> p.active_items == le_nat(bytes@.subrange(8, 12))
                && p.stream_weight == le_nat(bytes@.subrange(16, 24)) && p.offset == le_nat(
                bytes@.subrange(24, 32),
            )
        },
{
    if bytes.len() < 8 {
        return Err(Error::insufficient_data("preamble"));
    }
    let pre_longs = bytes[0] & 0x3f;
    let ser_ver = bytes[1];
    let family = bytes[2];
    let lg_max = bytes[3];
    let lg_cur = bytes[4];
    let flags = bytes[5];
    let empty = (flags & EMPTY_FLAG_MASK) != 0;
    if ser_ver != SER_VER {
        return Err(Error::deserial("unsupported serial version"));
    }
    if family != FAMILY_ID {
        return Err(Error::deserial("invalid family"));
    }
    if lg_cur > lg_max {
        return Err(Error::deserial("lg_cur_map_size exceeds lg_max_map_size"));
    }
    if lg_max > LG_MAX_MAP_SIZE_LIMIT {
        return Err(Error::deserial("lg_max_map_size too large"));
    }
    if empty {
        if pre_longs != PREAMBLE_LONGS_EMPTY {
            return Err(Error::deserial("invalid preamble longs"));
        }
        return Ok(
            Preamble { lg_max, lg_cur, empty, active_items: 0, stream_weight: 0, offset: 0 },
        );
    }
    if pre_longs != PREAMBLE_LONGS_NONEMPTY {
        return Err(Error::deserial("invalid preamble longs"));
    }
    if bytes.len() < 32 {
        return Err(Error::insufficient_data("full preamble"));
    }
    let active_items = read_u32_le(bytes, 8) as usize;
    let stream_weight = read_u64_le(bytes, 16);
    let offset = read_u64_le(bytes, 24);
    Ok(Preamble { lg_max, lg_cur, empty, active_items, stream_weight, offset })
}

/// Reads the counts of a non-empty image and copies out the bytes that follow them.
fn read_values(bytes: &[u8], n: usize) -> (r: Result<(Vec<u64>, Vec<u8>), Error>)
    requires
        bytes@.len() >= 32,
    ensures
        r.is_ok() <==> 32 + 8 * n <= bytes@.len(),
        r matches Err(e) ==> e.kind == ErrorKind::InsufficientData,
        r matches Ok((values, rest)) ==> values@.len() == n && rest@ == bytes@.subrange(
            32 + 8 * n,
            bytes@.len() as int,
        ) && forall|i: int|
            0 <= i < n ==> #[trigger] values@[i] as nat == le_nat(
                bytes@.subrange(32 + 8 * i, 40 + 8 * i),
            ),
{
    let len = bytes.len();
    if n > (len - 32) / 8 {
        return Err(Error::insufficient_data("values"));
    }
    let mut values: Vec<u64> = Vec::new();
    let mut i: usize = 0;
    while i < n
        invariant
            len == bytes@.len(),
            32 + 8 * n <= len,
            i <= n,
            values@.len() == i,
            forall|j: int|
                0 <= j < i ==> #[trigger] values@[j] as nat == le_nat(
                    bytes@.subrange(32 + 8 * j, 40 + 8 * j),
                ),
        decreases n - i,
    {
        values.push(read_u64_le(bytes, 32 + 8 * i));
        i = i + 1;
    }
    let start = 32 + 8 * n;
    let mut rest: Vec<u8> = Vec::new();
    let mut t: usize = start;
    while t < len
        invariant
            len == bytes@.len(),
            start <= t <= len,
            rest@ == bytes@.subrange(start as int, t as int),
        decreases len - t,
    {
        rest.push(bytes[t]);
        t = t + 1;
        assert(rest@ =~= bytes@.subrange(start as int, t as int));
    }
    Ok((values, rest))
}

impl FrequentItemsSketch<i64> {
    /// The image of this sketch: the preamble, the stored counts, then each item as eight
    /// little-endian bytes, all in slot order.
    pub fn serialize(&self) -> (r: Vec<u8>)
        requires
            self.wf(),
        ensures
            exists|items: Seq<i64>|
                items.map_values(|x: i64| x.key()) == self.slot_items() && self.serialized(
                    r@,
                    i64s_bytes(items),
                ),
    {
        let keys = self.hash_map.active_keys();
        let items = serialize_i64_items(keys.as_slice());
        let r = self.serialize_inner(&items);
        proof {
            assert(keys@.map_values(|x: i64| x.key()) == self.slot_items());
        }
        r
    }

    /// Reads a sketch from its image.
    pub fn deserialize(bytes: &[u8]) -> (r: Result<Self, Error>)
        ensures
            !valid_preamble(bytes@) ==> r.is_err(),
            bytes@.len() < 8 ==> (r matches Err(e) && e.kind == ErrorKind::InsufficientData),
            r.is_ok() <==> valid_preamble(bytes@) && (bytes@[5] & EMPTY_FLAG_MASK != 0 || (
            image_values_fit(bytes@) && 8 * image_count(bytes@) <= image_rest(bytes@).len()
                && seq_sum(image_values(bytes@)) <= le_nat(bytes@.subrange(16, 24)))),
            r matches Ok(s) ==> s.wf() && (bytes@[5] & EMPTY_FLAG_MASK != 0 ==> s.counts()
                == Map::<Seq<u8>, u64>::empty() && s.offset_spec() == 0) && (bytes@[5]
                & EMPTY_FLAG_MASK == 0 ==> s.weight_spec() == le_nat(bytes@.subrange(16, 24))
                && s.offset_spec() == le_nat(bytes@.subrange(24, 32)) && (distinct(
                image_i64_keys(bytes@),
            ) && image_count(bytes@) <= s.max_capacity() ==> s.counts() == pairs(
                image_i64_keys(bytes@),
                image_values(bytes@),
                image_count(bytes@),
            ))),
    {
        let pre = match read_preamble(bytes) {
            Ok(p) => p,
            Err(e) => {
                return Err(e);
            },
        };
        if pre.empty {
            return Ok(Self::with_lg_map_sizes(pre.lg_max, pre.lg_cur));
        }
        let (values, rest) = match read_values(bytes, pre.active_items) {
            Ok(v) => v,
            Err(e) => {
                return Err(e);
            },
        };
        proof {
            assert(values@ =~= image_values(bytes@));
            assert(rest@ == image_rest(bytes@));
        }
        let (items, consumed) = match deserialize_i64_items(rest.as_slice(), pre.active_items) {
            Ok(v) => v,
            Err(e) => {
                return Err(e);
            },
        };
        proof {
            let ks = items@.map_values(|t: i64| t.key());
            assert(ks =~= image_i64_keys(bytes@)) by {
                assert forall|i: int| 0 <= i < items@.len() implies #[trigger] ks[i] == image_i64_keys(bytes@)[i] by {
                    let u = le_nat(rest@.subrange(8 * i, 8 * i + 8)) as u64;
                    assert(((u as i64) as u64) == u) by (bit_vector);
                    assert(items@[i] == u as i64);
                }
            }
        }
        if items.len() != values.len() {
            return Err(Error::deserial("item count mismatch during deserialization"));
        }
        if consumed > rest.len() {
            return Err(Error::insufficient_data("items"));
        }
        Self::assemble(&pre, &values, items)
    }
}

impl FrequentItemsSketch<String> {
    /// The image of this sketch.
    pub fn serialize(&self) -> (r: Vec<u8>)
        requires
            self.wf(),
            forall|k: Seq<u8>| #[trigger] self.counts().contains_key(k) ==> k.len() <= u32::MAX,
        ensures
            self.serialized(r@, strings_bytes(self.slot_items())),
    {
        let keys = self.hash_map.active_keys();
        proof {
            self.hash_map.lemma_slots();
            assert forall|i: int| 0 <= i < keys@.len() implies (#[trigger] keys@[i]).key().len()
                <= u32::MAX by {
                assert(keys@.map_values(|t: String| t.key())[i] == self.hash_map.slot_keys()[i]);
                assert(self.counts().contains_key(self.hash_map.slot_keys()[i]));
            }
        }
        let items = serialize_string_items(keys.as_slice());
        self.serialize_inner(&items)
    }

    /// Reads a sketch from its image; item bytes must be valid UTF-8.
    pub fn deserialize(bytes: &[u8]) -> (r: Result<Self, Error>)
        ensures
            !valid_preamble(bytes@) ==> r.is_err(),
            bytes@.len() < 8 ==> (r matches Err(e) && e.kind == ErrorKind::InsufficientData),
            r.is_ok() <==> valid_preamble(bytes@) && (bytes@[5] & EMPTY_FLAG_MASK != 0 || (
            image_values_fit(bytes@) && strings_ok(image_rest(bytes@), 0, image_count(bytes@) as nat)
                && seq_sum(image_values(bytes@)) <= le_nat(bytes@.subrange(16, 24)))),
            r matches Ok(s) ==> s.wf() && (bytes@[5] & EMPTY_FLAG_MASK != 0 ==> s.counts()
                == Map::<Seq<u8>, u64>::empty() && s.offset_spec() == 0) && (bytes@[5]
                & EMPTY_FLAG_MASK == 0 ==> s.weight_spec() == le_nat(bytes@.subrange(16, 24))
                && s.offset_spec() == le_nat(bytes@.subrange(24, 32)) && exists|keys: Seq<Seq<u8>>|
                keys.len() == image_count(bytes@) && (forall|i: int| 0 <= i < keys.len() ==> (#[trigger] keys[i]).len() < 0x1_0000_0000)
                    && strings_bytes(keys) == image_rest(bytes@).subrange(
                    0,
                    strings_end(image_rest(bytes@), 0, image_count(bytes@) as nat),
                ) && (distinct(keys) && image_count(bytes@) <= s.max_capacity() ==> s.counts()
                    == pairs(keys, image_values(bytes@), image_count(bytes@)))),
    {
        let pre = match read_preamble(bytes) {
            Ok(p) => p,
            Err(e) => {
                return Err(e);
            },
        };
        if pre.empty {
            return Ok(Self::with_lg_map_sizes(pre.lg_max, pre.lg_cur));
        }
        let (values, rest) = match read_values(bytes, pre.active_items) {
            Ok(v) => v,
            Err(e) => {
                return Err(e);
            },
        };
        proof {
            assert(values@ =~= image_values(bytes@));
            assert(rest@ == image_rest(bytes@));
        }
        let (items, consumed) = match deserialize_string_items(rest.as_slice(), pre.active_items) {
            Ok(v) => v,
            Err(e) => {
                return Err(e);
            },
        };
        if items.len() != values.len() {
            return Err(Error::deserial("item count mismatch during deserialization"));
        }
        if consumed > rest.len() {
            return Err(Error::insufficient_data("items"));
        }
        Self::assemble(&pre, &values, items)
    }
}

proof fn lemma_i64s_bytes(items: Seq<i64>)
    ensures
        i64s_bytes(items).len() == 8 * items.len(),
        forall|i: int| 0 <= i < items.len() ==> #[trigger] i64s_bytes(items).subrange(8 * i, 8 * i + 8)
            == crate::hash::word_bytes(items[i] as u64),
    decreases items.len(),
{
    if items.len() > 0 {
        let p = items.drop_last();
        lemma_i64s_bytes(p);
        let b = i64s_bytes(items);
        assert forall|i: int| 0 <= i < items.len() implies #[trigger] i64s_bytes(items).subrange(8 * i, 8 * i + 8)
            == crate::hash::word_bytes(items[i] as u64) by {
            if i < p.len() {
                assert(b.subrange(8 * i, 8 * i + 8) =~= i64s_bytes(p).subrange(8 * i, 8 * i + 8));
            } else {
                assert(b.subrange(8 * i, 8 * i + 8) =~= crate::hash::word_bytes(items.last() as u64));
            }
        }
    }
}

/// The image of an `i64` sketch reads back as the same items with the same counts: the
/// decoder's keys and values are the sketch's, they are distinct, and as pairs they are its
/// counts.
pub proof fn lemma_i64_image_round_trip(s: FrequentItemsSketch<i64>, r: Seq<u8>, items: Seq<i64>)
    requires
        s.wf(),
        s.num_active_spec() > 0,
        items.map_values(|x: i64| x.key()) == s.slot_items(),
        s.serialized(r, i64s_bytes(items)),
    ensures
        image_count(r) == s.num_active_spec(),
        image_values_fit(r),
        8 * image_count(r) <= image_rest(r).len(),
        image_values(r) == s.slot_counts(),
        image_i64_keys(r) == s.slot_items(),
        distinct(image_i64_keys(r)),
        pairs(image_i64_keys(r), image_values(r), image_count(r)) == s.counts(),
{
    s.lemma_slot_order();
    lemma_i64s_bytes(items);
    let n = s.num_active_spec();
    let keys = s.slot_items();
    let vals = s.slot_counts();
    assert(image_rest(r) =~= i64s_bytes(items));
    assert(image_values(r) =~= vals) by {
        assert forall|j: int| 0 <= j < n implies image_values(r)[j] == vals[j] by {
            assert(le_nat(r.subrange(32 + 8 * j, 40 + 8 * j)) == vals[j]);
        }
    }
    assert(image_i64_keys(r) =~= keys) by {
        assert forall|j: int| 0 <= j < n implies image_i64_keys(r)[j] == keys[j] by {
            assert(image_rest(r).subrange(8 * j, 8 * j + 8) == crate::hash::word_bytes(items[j] as u64));
            crate::hash::lemma_word_bytes_value(items[j] as u64);
            assert(items.map_values(|x: i64| x.key())[j] == keys[j]);
        }
    }
    assert(pairs(keys, vals, n) =~= s.counts()) by {
        assert forall|k: Seq<u8>| #[trigger] pairs(keys, vals, n).contains_key(k) == s.counts().contains_key(k) by {
            if s.counts().contains_key(k) {
                let j = choose|j: int| 0 <= j < keys.len() && keys[j] == k;
                assert(vals[j] > 0);
            }
        }
        assert forall|k: Seq<u8>| s.counts().contains_key(k) implies pairs(keys, vals, n)[k] == s.counts()[k] by {
            let j = choose|j: int| 0 <= j < n && keys[j] == k && vals[j] > 0;
        }
    }
}

/// The image of a `String` sketch reads back as the same items with the same counts: the reader
/// accepts the item bytes and ends at their end, any list of items that encodes to them is
/// the sketch's own, and as pairs with the image's counts they are the sketch's counts.
pub proof fn lemma_string_image_round_trip(s: FrequentItemsSketch<String>, r: Seq<u8>)
    requires
        s.wf(),
        s.num_active_spec() > 0,
        forall|i: int| 0 <= i < s.slot_items().len() ==> (#[trigger] s.slot_items()[i]).len() < 0x1_0000_0000
            && vstd::utf8::valid_utf8(s.slot_items()[i]),
        s.serialized(r, strings_bytes(s.slot_items())),
    ensures
        image_count(r) == s.num_active_spec(),
        image_values_fit(r),
        strings_ok(image_rest(r), 0, image_count(r) as nat),
        strings_end(image_rest(r), 0, image_count(r) as nat) == image_rest(r).len(),
        image_values(r) == s.slot_counts(),
        forall|keys: Seq<Seq<u8>>|
            keys.len() == image_count(r) && (forall|i: int| 0 <= i < keys.len() ==> (#[trigger] keys[i]).len() < 0x1_0000_0000)
                && strings_bytes(keys) == image_rest(r).subrange(0, strings_end(image_rest(r), 0, image_count(r) as nat))
                ==> keys == s.slot_items(),
        distinct(s.slot_items()),
        pairs(s.slot_items(), image_values(r), image_count(r)) == s.counts(),
{
    s.lemma_slot_order();
    let n = s.num_active_spec();
    let keys = s.slot_items();
    let vals = s.slot_counts();
    let rest = image_rest(r);
    assert(rest =~= strings_bytes(keys));
    crate::frequencies::serde::lemma_strings_readable(keys, Seq::<u8>::empty());
    assert(strings_bytes(keys) + Seq::<u8>::empty() =~= strings_bytes(keys));
    assert(image_values(r) =~= vals) by {
        assert forall|j: int| 0 <= j < n implies image_values(r)[j] == vals[j] by {
            assert(le_nat(r.subrange(32 + 8 * j, 40 + 8 * j)) == vals[j]);
        }
    }
    assert forall|k2: Seq<Seq<u8>>|
        k2.len() == image_count(r) && (forall|i: int| 0 <= i < k2.len() ==> (#[trigger] k2[i]).len() < 0x1_0000_0000)
            && strings_bytes(k2) == rest.subrange(0, strings_end(rest, 0, image_count(r) as nat))
            implies k2 == keys by {
        assert(rest.subrange(0, rest.len() as int) =~= rest);
        crate::frequencies::serde::lemma_strings_injective(keys, k2);
    }
    assert(pairs(keys, vals, n) =~= s.counts()) by {
        assert forall|k: Seq<u8>| #[trigger] pairs(keys, vals, n).contains_key(k) == s.counts().contains_key(k) by {
            if s.counts().contains_key(k) {
                let j = choose|j: int| 0 <= j < keys.len() && keys[j] == k;
                assert(vals[j] > 0);
            }
        }
        assert forall|k: Seq<u8>| s.counts().contains_key(k) implies pairs(keys, vals, n)[k] == s.counts()[k] by {
            let j = choose|j: int| 0 <= j < n && keys[j] == k && vals[j] > 0;
        }
    }
}

/// The number of items a non-empty image declares.
pub open spec fn image_count(b: Seq<u8>) -> int {
    le_nat(b.subrange(8, 12)) as int
}

/// The image is long enough for its preamble and its counts.
pub open spec fn image_values_fit(b: Seq<u8>) -> bool {
    32 + 8 * image_count(b) <= b.len()
}

/// The counts of a non-empty image.
pub open spec fn image_values(b: Seq<u8>) -> Seq<u64> {
    Seq::new(image_count(b) as nat, |i: int| le_nat(b.subrange(32 + 8 * i, 40 + 8 * i)) as u64)
}

/// The bytes after the counts.
pub open spec fn image_rest(b: Seq<u8>) -> Seq<u8> {
    b.subrange(32 + 8 * image_count(b), b.len() as int)
}

/// The byte images of the `i64` items of a non-empty image.
pub open spec fn image_i64_keys(b: Seq<u8>) -> Seq<Seq<u8>> {
    Seq::new(image_count(b) as nat, |i: int| crate::hash::word_bytes(le_nat(image_rest(b).subrange(8 * i, 8 * i + 8)) as u64))
}

/// The sum of `v`.
pub open spec fn seq_sum(v: Seq<u64>) -> int
    decreases v.len(),
{
    if v.len() == 0 {
        0
    } else {
        seq_sum(v.drop_last()) + v.last()
    }
}

proof fn lemma_seq_sum_prefix(v: Seq<u64>, i: int)
    requires
        0 <= i <= v.len(),
    ensures
        0 <= seq_sum(v.subrange(0, i)) <= seq_sum(v),
    decreases v.len(),
{
    if i < v.len() {
        assert(v.subrange(0, i) =~= v.drop_last().subrange(0, i));
        lemma_seq_sum_prefix(v.drop_last(), i);
    } else {
        assert(v.subrange(0, i) =~= v);
        lemma_seq_sum_nonneg(v);
    }
}

proof fn lemma_seq_sum_nonneg(v: Seq<u64>)
    ensures
        seq_sum(v) >= 0,
    decreases v.len(),
{
    if v.len() > 0 {
        lemma_seq_sum_nonneg(v.drop_last());
    }
}

/// No key occurs twice.
pub open spec fn distinct(keys: Seq<Seq<u8>>) -> bool {
    forall|a: int, b: int| 0 <= a < keys.len() && 0 <= b < keys.len() && a != b ==> #[trigger] keys[a] != #[trigger] keys[b]
}

/// The first `i` keys with a positive value, each mapped to its value.
pub open spec fn pairs(keys: Seq<Seq<u8>>, vals: Seq<u64>, i: int) -> Map<Seq<u8>, u64> {
    Map::new(
        |k: Seq<u8>| exists|j: int| 0 <= j < i && keys[j] == k && vals[j] > 0,
        |k: Seq<u8>| vals[choose|j: int| 0 <= j < i && keys[j] == k && vals[j] > 0],
    )
}

/// Whether bounds `lower ..= upper` pass the test of `error_type` against `threshold`.
pub open spec fn qualifies(error_type: ErrorType, lower: u64, upper: u64, threshold: u64) -> bool {
    match error_type {
        ErrorType::NoFalseNegatives => upper > threshold,
        ErrorType::NoFalsePositives => lower > threshold,
    }
}

/// What the entries `lo..` of a slot listing add to item `k`.
pub open spec fn added(keys: Seq<Seq<u8>>, vals: Seq<u64>, lo: int, k: Seq<u8>) -> int {
    if exists|j: int| lo <= j < keys.len() && keys[j] == k {
        vals[choose|j: int| lo <= j < keys.len() && keys[j] == k] as int
    } else {
        0
    }
}

proof fn lemma_added_step(keys: Seq<Seq<u8>>, vals: Seq<u64>, len: int, k: Seq<u8>)
    requires
        1 <= len <= keys.len(),
        forall|a: int, b: int|
            0 <= a < keys.len() && 0 <= b < keys.len() && a != b ==> #[trigger] keys[a]
                != #[trigger] keys[b],
    ensures
        added(keys, vals, len - 1, k) == added(keys, vals, len, k) + if k == keys[len - 1] {
            vals[len - 1] as int
        } else {
            0int
        },
{
    if k == keys[len - 1] {
        assert(exists|j: int| len - 1 <= j < keys.len() && keys[j] == k) by {
            assert(keys[len - 1] == k);
        }
        let j = choose|j: int| len - 1 <= j < keys.len() && keys[j] == k;
        if j != len - 1 {
            assert(keys[j] != keys[len - 1]);
        }
        if exists|j2: int| len <= j2 < keys.len() && keys[j2] == k {
            let j2 = choose|j2: int| len <= j2 < keys.len() && keys[j2] == k;
            assert(keys[j2] != keys[len - 1]);
        }
    } else {
        if exists|j: int| len - 1 <= j < keys.len() && keys[j] == k {
            let j = choose|j: int| len - 1 <= j < keys.len() && keys[j] == k;
            assert(j != len - 1);
            assert(exists|j2: int| len <= j2 < keys.len() && keys[j2] == k);
            let j2 = choose|j2: int| len <= j2 < keys.len() && keys[j2] == k;
            if j != j2 {
                assert(keys[j] != keys[j2]);
            }
        }
        if exists|j2: int| len <= j2 < keys.len() && keys[j2] == k {
            let j2 = choose|j2: int| len <= j2 < keys.len() && keys[j2] == k;
            assert(len - 1 <= j2 < keys.len() && keys[j2] == k);
        }
    }
}

/// The base-2 logarithm of a power of two.
fn exact_log2(value: usize) -> (r: u8)
    requires
        exists|lg: nat| lg <= LG_MAX_MAP_SIZE_LIMIT && pow2_int(lg) == value,
    ensures
        r <= LG_MAX_MAP_SIZE_LIMIT,
        pow2_int(r as nat) == value,
{
    let mut v = value;
    let mut lg: u8 = 0;
    let ghost target = choose|lg: nat| lg <= LG_MAX_MAP_SIZE_LIMIT && pow2_int(lg) == value;
    while v > 1
        invariant
            lg <= target,
            target <= LG_MAX_MAP_SIZE_LIMIT,
            pow2_int((target - lg) as nat) == v,
            pow2_int(lg as nat) * v == value,
        decreases v,
    {
        proof {
            if target == lg {
                assert(pow2_int(0) == 1);
            }
            assert(pow2_int((target - lg) as nat) == 2 * pow2_int((target - lg - 1) as nat));
            assert(pow2_int((lg + 1) as nat) == 2 * pow2_int(lg as nat));
            assert(pow2_int(lg as nat) * v == pow2_int((lg + 1) as nat) * (v / 2)) by (nonlinear_arith)
                requires
                    v == 2 * pow2_int((target - lg - 1) as nat),
                    pow2_int((lg + 1) as nat) == 2 * pow2_int(lg as nat),
            ;
        }
        v = v / 2;
        lg = lg + 1;
    }
    proof {
        if v == 0 {
            crate::frequencies::reverse_purge_item_hash_map::lemma_pow2_pos((target - lg) as nat);
        }
    }
    lg
}

} // verus!
