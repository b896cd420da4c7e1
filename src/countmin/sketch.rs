//! The Count-Min sketch: `d` rows of `w` counters; an item adds its weight to one counter in
//! each row, chosen by hashing, and its estimate is the smallest of those counters.
use vstd::prelude::*;

use crate::codec::le_nat;
use crate::codec::read_u32_le;
use crate::codec::read_u64_le;
use crate::codec::write_u32_le;
use crate::codec::write_u64_le;
use crate::countmin::value::trunc_div;
use crate::countmin::value::word_value;
use crate::countmin::value::CountMinValue;
use crate::error::Error;
use crate::error::ErrorKind;
use crate::hash::murmur3_spec;
use crate::hash::murmur3_x64_128;
use crate::hash::HashInput;
use crate::hash::DEFAULT_UPDATE_SEED;

verus! {

/// Family byte of a serialized Count-Min sketch.
pub const FAMILY_ID: u8 = 18;

/// Serial version written and read.
pub const SER_VER: u8 = 1;

/// Preamble size in 8-byte words.
pub const PREAMBLE_LONGS: u8 = 3;

/// Most counters a sketch holds.
pub const MAX_CELLS: usize = 0x1000_0000;

/// Flag bit of an image without counters.
pub const EMPTY_FLAG: u8 = 1;

/// `e`, scaled by `10^18` and rounded down.
pub const E_NUM: u128 = 2_718_281_828_459_045_235;

/// The scale of [`E_NUM`].
pub const E_DEN: u128 = 1_000_000_000_000_000_000;

/// The counter of row `i` that item `k` maps to, among `w`.
pub open spec fn bucket_spec(k: Seq<u8>, seed: u64, i: int, w: int) -> int {
    let h = murmur3_spec(k, seed);
    (h.0.wrapping_add((i as u64).wrapping_mul(h.1)) as int) % w
}

/// The slack that the bounds add to an estimate: `e * total / w`, rounded down.
pub open spec fn error_term(total: int, w: int) -> int {
    (total * E_NUM) / (w * E_DEN)
}

pub open spec fn abs_int(x: int) -> int {
    if x >= 0 {
        x
    } else {
        -x
    }
}

/// A Count-Min sketch over counters of type `V`.
pub struct CountMinSketch<V> {
    num_hashes: u8,
    num_buckets: u32,
    seed: u64,
    total_weight: V,
    counts: Vec<V>,
    /// The exact weight of each item in the stream so far.
    truth: Ghost<Map<Seq<u8>, int>>,
    /// Whether every weight so far was non-negative.
    nonneg: Ghost<bool>,
}

impl<V: CountMinValue> CountMinSketch<V> {
    pub closed spec fn d(&self) -> int {
        self.num_hashes as int
    }

    pub closed spec fn w(&self) -> int {
        self.num_buckets as int
    }

    pub closed spec fn seed_spec(&self) -> u64 {
        self.seed
    }

    pub closed spec fn total(&self) -> int {
        self.total_weight.v()
    }

    /// Counter `b` of row `i`.
    pub closed spec fn counter(&self, i: int, b: int) -> int {
        self.counts@[i * self.w() + b].v()
    }

    /// The total weight as a 64-bit two's-complement word.
    pub closed spec fn total_word(&self) -> u64 {
        self.total_weight.to_word_spec()
    }

    /// Counter `j` of the matrix, row after row, as a 64-bit two's-complement word.
    pub closed spec fn counter_word(&self, j: int) -> u64 {
        self.counts@[j].to_word_spec()
    }

    /// The exact weight of `k` in the stream so far.
    pub closed spec fn true_count(&self, k: Seq<u8>) -> int {
        if self.truth@.contains_key(k) {
            self.truth@[k]
        } else {
            0
        }
    }

    /// Whether every weight so far was non-negative.
    pub closed spec fn all_nonneg(&self) -> bool {
        self.nonneg@
    }

    /// The counter of row `i` that `k` maps to.
    pub open spec fn cell(&self, k: Seq<u8>, i: int) -> int {
        self.counter(i, bucket_spec(k, self.seed_spec(), i, self.w()))
    }

    pub closed spec fn wf(&self) -> bool {
        &&& 1 <= self.num_hashes
        &&& 3 <= self.num_buckets
        &&& self.num_hashes as int * self.num_buckets as int <= MAX_CELLS
        &&& self.counts@.len() == self.d() * self.w()
        &&& self.total() >= 0
        &&& forall|j: int|
            0 <= j < self.counts@.len() ==> abs_int(#[trigger] self.counts@[j].v()) <= self.total()
        &&& V::min_v() == 0 ==> self.nonneg@
        &&& self.nonneg@ ==> forall|j: int|
            0 <= j < self.counts@.len() ==> #[trigger] self.counts@[j].v() >= 0
        &&& self.nonneg@ ==> forall|k: Seq<u8>, i: int|
            0 <= i < self.d() ==> #[trigger] self.cell(k, i) >= self.true_count(k)
        &&& self.nonneg@ ==> forall|k: Seq<u8>| #[trigger] self.true_count(k) >= 0
    }

    /// The cell of smallest magnitude among the first `n` rows for `k`; the first on ties.
    pub open spec fn est_upto(&self, k: Seq<u8>, n: int) -> int
        decreases n,
    {
        if n <= 1 {
            self.cell(k, 0)
        } else {
            let p = self.est_upto(k, n - 1);
            if abs_int(self.cell(k, n - 1)) < abs_int(p) {
                self.cell(k, n - 1)
            } else {
                p
            }
        }
    }

    /// The estimate for `k`.
    pub open spec fn estimate_spec(&self, k: Seq<u8>) -> int {
        self.est_upto(k, self.d())
    }

    /// The estimate is one of the item's cells and has the smallest magnitude among them.
    pub proof fn lemma_estimate_is_min(&self, k: Seq<u8>, n: int)
        requires
            1 <= n,
        ensures
            exists|i: int| 0 <= i < n && self.est_upto(k, n) == self.cell(k, i),
            forall|i: int| 0 <= i < n ==> abs_int(self.est_upto(k, n)) <= abs_int(#[trigger] self.cell(k, i)),
        decreases n,
    {
        if n > 1 {
            self.lemma_estimate_is_min(k, n - 1);
            let p = self.est_upto(k, n - 1);
            if abs_int(self.cell(k, n - 1)) < abs_int(p) {
                assert(self.est_upto(k, n) == self.cell(k, n - 1));
            } else {
                let i = choose|i: int| 0 <= i < n - 1 && p == self.cell(k, i);
                assert(self.est_upto(k, n) == self.cell(k, i));
            }
        } else {
            assert(self.est_upto(k, n) == self.cell(k, 0));
        }
    }

    /// A sketch with `num_hashes` rows of `num_buckets` counters, hashing with the default seed.
    pub fn new(num_hashes: u8, num_buckets: u32) -> (r: Self)
        requires
            num_hashes >= 1,
            num_buckets >= 3,
            num_hashes as int * num_buckets as int <= MAX_CELLS,
        ensures
            r.wf(),
            r.d() == num_hashes,
            r.w() == num_buckets,
            r.seed_spec() == DEFAULT_UPDATE_SEED,
            r.total() == 0,
            r.all_nonneg(),
            forall|k: Seq<u8>| #[trigger] r.true_count(k) == 0,
            forall|i: int, b: int| 0 <= i < r.d() && 0 <= b < r.w() ==> #[trigger] r.counter(i, b) == 0,
    {
        Self::with_seed(num_hashes, num_buckets, DEFAULT_UPDATE_SEED)
    }

    /// A sketch with `num_hashes` rows of `num_buckets` counters, hashing with `seed`.
    pub fn with_seed(num_hashes: u8, num_buckets: u32, seed: u64) -> (r: Self)
        requires
            num_hashes >= 1,
            num_buckets >= 3,
            num_hashes as int * num_buckets as int <= MAX_CELLS,
        ensures
            r.wf(),
            r.d() == num_hashes,
            r.w() == num_buckets,
            r.seed_spec() == seed,
            r.total() == 0,
            r.all_nonneg(),
            forall|k: Seq<u8>| #[trigger] r.true_count(k) == 0,
            forall|i: int, b: int| 0 <= i < r.d() && 0 <= b < r.w() ==> #[trigger] r.counter(i, b) == 0,
    {
        let n = num_hashes as usize * num_buckets as usize;
        let mut counts: Vec<V> = Vec::new();
        while counts.len() < n
            invariant
                counts@.len() <= n,
                forall|j: int| 0 <= j < counts@.len() ==> #[trigger] counts@[j].v() == 0,
            decreases n - counts@.len(),
        {
            counts.push(V::zero());
        }
        let r = CountMinSketch {
            num_hashes,
            num_buckets,
            seed,
            total_weight: V::zero(),
            counts,
            truth: Ghost(Map::empty()),
            nonneg: Ghost(true),
        };
        proof {
            assert forall|i: int, b: int| 0 <= i < r.d() && 0 <= b < r.w() implies #[trigger] r.counter(i, b) == 0 by {
                lemma_index(i, b, r.d(), r.w());
            }
            assert forall|k: Seq<u8>| #[trigger] r.true_count(k) >= 0 by {}
            assert forall|k: Seq<u8>, i: int|
                0 <= i < r.d() implies #[trigger] r.cell(k, i) >= r.true_count(k) by {
                lemma_bucket(k, seed, i, r.w());
                lemma_index(i, bucket_spec(k, seed, i, r.w()), r.d(), r.w());
            }
        }
        r
    }

    /// The number of rows.
    pub fn num_hashes(&self) -> (r: u8)
        ensures
            r == self.d(),
    {
        self.num_hashes
    }

    /// The number of counters in a row.
    pub fn num_buckets(&self) -> (r: u32)
        ensures
            r == self.w(),
    {
        self.num_buckets
    }

    /// The hash seed.
    pub fn seed(&self) -> (r: u64)
        ensures
            r == self.seed_spec(),
    {
        self.seed
    }

    /// The sum of the absolute weights of all updates.
    pub fn total_weight(&self) -> (r: V)
        ensures
            r.v() == self.total(),
    {
        self.total_weight
    }

    /// Whether no weight has been added.
    pub fn is_empty(&self) -> (r: bool)
        ensures
            r == (self.total() == 0),
    {
        !V::zero().lt(self.total_weight) && !self.total_weight.lt(V::zero())
    }

    /// Adds one occurrence of `item`.
    pub fn update<T: HashInput>(&mut self, item: T)
        requires
            old(self).wf(),
            old(self).total() + 1 <= V::max_v(),
        ensures
            final(self).wf(),
            final(self).d() == old(self).d(),
            final(self).w() == old(self).w(),
            final(self).seed_spec() == old(self).seed_spec(),
            final(self).total() == old(self).total() + 1,
            final(self).all_nonneg() == old(self).all_nonneg(),
            forall|k: Seq<u8>|
                #[trigger] final(self).true_count(k) == old(self).true_count(k) + if k == item.key() {
                    1int
                } else {
                    0int
                },
    {
        self.update_with_weight(item, V::one());
    }

    /// Adds `weight` to the counter that `item` maps to in every row, and `|weight|` to the
    /// total weight.
    pub fn update_with_weight<T: HashInput>(&mut self, item: T, weight: V)
        requires
            old(self).wf(),
            weight.v() > V::min_v() || weight.v() >= 0,
            old(self).total() + abs_int(weight.v()) <= V::max_v(),
        ensures
            final(self).wf(),
            final(self).d() == old(self).d(),
            final(self).w() == old(self).w(),
            final(self).seed_spec() == old(self).seed_spec(),
            final(self).total() == old(self).total() + abs_int(weight.v()),
            final(self).all_nonneg() == (old(self).all_nonneg() && weight.v() >= 0),
            forall|i: int|
                0 <= i < old(self).d() ==> #[trigger] final(self).cell(item.key(), i) == old(
                    self,
                ).cell(item.key(), i) + weight.v(),
            forall|k: Seq<u8>|
                #[trigger] final(self).true_count(k) == old(self).true_count(k) + if k == item.key() {
                    weight.v()
                } else {
                    0
                },
    {
        let ghost k = item.key();
        let ghost start = *self;
        let kb = item.key_bytes();
        let hash = murmur3_x64_128(kb.as_slice(), self.seed);
        proof {
            V::lemma_range(weight);
            V::lemma_range(self.total_weight);
        }
        let mut i: u8 = 0;
        while i < self.num_hashes
            invariant
                start.wf(),
                hash == murmur3_spec(k, start.seed),
                self.num_hashes == start.num_hashes,
                self.num_buckets == start.num_buckets,
                self.seed == start.seed,
                self.total_weight == start.total_weight,
                self.truth == start.truth,
                self.nonneg == start.nonneg,
                i <= self.num_hashes,
                self.counts@.len() == start.counts@.len(),
                weight.v() > V::min_v() || weight.v() >= 0,
                start.total() + abs_int(weight.v()) <= V::max_v(),
                forall|r: int, b: int|
                    0 <= r < start.d() && 0 <= b < start.w() ==> #[trigger] self.counter(r, b)
                        == start.counter(r, b) + if r < i && b == bucket_spec(
                        k,
                        start.seed,
                        r,
                        start.w(),
                    ) {
                        weight.v()
                    } else {
                        0
                    },
                forall|j: int|
                    0 <= j < self.counts@.len() ==> V::min_v() <= #[trigger] self.counts@[j].v()
                        <= V::max_v(),
            decreases self.num_hashes - i,
        {
            let idx = cell_index(hash, i, self.num_hashes, self.num_buckets, Ghost(k), Ghost(start.seed));
            let c = self.counts[idx];
            proof {
                let b = bucket_spec(k, start.seed, i as int, start.w());
                lemma_index(i as int, b, start.d(), start.w());
                assert(self.counter(i as int, b) == start.counter(i as int, b));
                assert(abs_int(start.counts@[idx as int].v()) <= start.total());
                V::lemma_range(c);
            }
            let nc = c.add(weight);
            let ghost before = *self;
            self.counts.set(idx, nc);
            proof {
                assert forall|r: int, b: int|
                    0 <= r < start.d() && 0 <= b < start.w() implies #[trigger] self.counter(r, b)
                        == start.counter(r, b) + if r < i + 1 && b == bucket_spec(
                        k,
                        start.seed,
                        r,
                        start.w(),
                    ) {
                        weight.v()
                    } else {
                        0
                    } by {
                    lemma_index(r, b, start.d(), start.w());
                    lemma_index_distinct(r, b, i as int, bucket_spec(k, start.seed, i as int, start.w()), start.w());
                    assert(before.counter(r, b) == start.counter(r, b) + if r < i && b == bucket_spec(
                        k,
                        start.seed,
                        r,
                        start.w(),
                    ) {
                        weight.v()
                    } else {
                        0
                    });
                }
                assert forall|j: int| 0 <= j < self.counts@.len() implies V::min_v() <= #[trigger] self.counts@[j].v()
                    <= V::max_v() by {
                    V::lemma_range(self.counts@[j]);
                }
            }
            i = i + 1;
        }
        let aw = weight.abs();
        let ghost mid = *self;
        self.total_weight = self.total_weight.add(aw);
        proof {
            self.truth = Ghost(self.truth@.insert(k, start.true_count(k) + weight.v()));
            self.nonneg = Ghost(start.nonneg@ && weight.v() >= 0);
            if self.nonneg@ {
                assert(start.true_count(k) >= 0);
            }
            assert forall|r: int, b: int|
                0 <= r < start.d() && 0 <= b < start.w() implies #[trigger] self.counter(r, b)
                    == start.counter(r, b) + if b == bucket_spec(k, start.seed, r, start.w()) {
                    weight.v()
                } else {
                    0
                } by {
                assert(self.counter(r, b) == mid.counter(r, b));
            }
            self.lemma_after_update(start, k, weight.v());
        }
    }

    /// The estimate for `item`: of the counters it maps to, the one of smallest magnitude (the
    /// minimum, when no weight was negative).
    pub fn estimate<T: HashInput>(&self, item: T) -> (r: V)
        requires
            self.wf(),
        ensures
            r.v() == self.estimate_spec(item.key()),
            abs_int(r.v()) <= self.total(),
            self.all_nonneg() ==> r.v() >= self.true_count(item.key()),
    {
        let ghost k = item.key();
        let kb = item.key_bytes();
        let hash = murmur3_x64_128(kb.as_slice(), self.seed);
        let idx0 = cell_index(hash, 0, self.num_hashes, self.num_buckets, Ghost(k), Ghost(self.seed));
        let mut best = self.counts[idx0];
        proof {
            assert(abs_int(self.counts@[idx0 as int].v()) <= self.total());
            V::lemma_range(best);
        }
        let mut i: u8 = 1;
        while i < self.num_hashes
            invariant
                self.wf(),
                hash == murmur3_spec(k, self.seed),
                1 <= i <= self.num_hashes,
                best.v() == self.est_upto(k, i as int),
                abs_int(best.v()) <= self.total(),
            decreases self.num_hashes - i,
        {
            let idx = cell_index(hash, i, self.num_hashes, self.num_buckets, Ghost(k), Ghost(self.seed));
            let c = self.counts[idx];
            proof {
                assert(abs_int(self.counts@[idx as int].v()) <= self.total());
                V::lemma_range(c);
                V::lemma_range(best);
                V::lemma_range(self.total_weight);
            }
            if c.abs().lt(best.abs()) {
                best = c;
            }
            i = i + 1;
        }
        proof {
            self.lemma_estimate_is_min(k, self.d());
            if self.nonneg@ {
                let i = choose|i: int| 0 <= i < self.d() && self.est_upto(k, self.d()) == self.cell(k, i);
                assert(self.cell(k, i) >= self.true_count(k));
            }
        }
        best
    }

    /// The estimate less the error term `e * total / w`, floored at the type's minimum.
    pub fn lower_bound<T: HashInput>(&self, item: T) -> (r: V)
        requires
            self.wf(),
        ensures
            r.v() == if self.estimate_spec(item.key()) - error_term(self.total(), self.w())
                < V::min_v() {
                V::min_v()
            } else {
                self.estimate_spec(item.key()) - error_term(self.total(), self.w())
            },
            r.v() <= self.estimate_spec(item.key()),
    {
        let err = self.error_bound();
        let est = self.estimate(item);
        proof {
            V::lemma_range(est);
        }
        est.sub_sat(err)
    }

    /// The estimate plus the error term `e * total / w`, capped at the type's maximum.
    pub fn upper_bound<T: HashInput>(&self, item: T) -> (r: V)
        requires
            self.wf(),
        ensures
            r.v() == if self.estimate_spec(item.key()) + error_term(self.total(), self.w())
                > V::max_v() {
                V::max_v()
            } else {
                self.estimate_spec(item.key()) + error_term(self.total(), self.w())
            },
            r.v() >= self.estimate_spec(item.key()),
    {
        let err = self.error_bound();
        let est = self.estimate(item);
        proof {
            V::lemma_range(est);
        }
        est.add_sat(err)
    }

    fn error_bound(&self) -> (r: u128)
        requires
            self.wf(),
        ensures
            r == error_term(self.total(), self.w()),
    {
        proof {
            V::lemma_range(self.total_weight);
        }
        let t = self.total_weight.magnitude();
        proof {
            assert(t * E_NUM <= 0xffff_ffff_ffff_ffff * E_NUM) by (nonlinear_arith)
                requires
                    t <= 0xffff_ffff_ffff_ffff,
            ;
            assert(self.num_buckets as int * E_DEN <= 0xffff_ffff * E_DEN) by (nonlinear_arith)
                requires
                    self.num_buckets <= 0xffff_ffff,
            ;
            assert(self.num_buckets as int * E_DEN > 0) by (nonlinear_arith)
                requires
                    self.num_buckets >= 3,
            ;
        }
        (t * E_NUM) / (self.num_buckets as u128 * E_DEN)
    }

    /// Halves every counter and the total weight, rounding toward zero.
    pub fn halve(&mut self)
        requires
            old(self).wf(),
        ensures
            final(self).wf(),
            final(self).d() == old(self).d(),
            final(self).w() == old(self).w(),
            final(self).seed_spec() == old(self).seed_spec(),
            final(self).total() == trunc_div(old(self).total(), 2),
            final(self).all_nonneg() == old(self).all_nonneg(),
            forall|i: int, b: int|
                0 <= i < old(self).d() && 0 <= b < old(self).w() ==> #[trigger] final(self).counter(i, b)
                    == trunc_div(old(self).counter(i, b), 2),
            forall|k: Seq<u8>|
                #[trigger] final(self).true_count(k) == trunc_div(old(self).true_count(k), 2),
    {
        self.scale_all(1, 2);
    }

    /// Multiplies every counter and the total weight by `num / den`, rounding toward zero.
    pub fn decay(&mut self, num: u64, den: u64)
        requires
            old(self).wf(),
            0 < num <= den,
        ensures
            final(self).wf(),
            final(self).d() == old(self).d(),
            final(self).w() == old(self).w(),
            final(self).seed_spec() == old(self).seed_spec(),
            final(self).total() == trunc_div(old(self).total() * num, den as int),
            final(self).all_nonneg() == old(self).all_nonneg(),
            forall|i: int, b: int|
                0 <= i < old(self).d() && 0 <= b < old(self).w() ==> #[trigger] final(self).counter(i, b)
                    == trunc_div(old(self).counter(i, b) * num, den as int),
            forall|k: Seq<u8>|
                #[trigger] final(self).true_count(k) == trunc_div(old(self).true_count(k) * num, den as int),
    {
        self.scale_all(num, den);
    }

    fn scale_all(&mut self, num: u64, den: u64)
        requires
            old(self).wf(),
            0 < num <= den,
        ensures
            final(self).wf(),
            final(self).d() == old(self).d(),
            final(self).w() == old(self).w(),
            final(self).seed_spec() == old(self).seed_spec(),
            final(self).total() == trunc_div(old(self).total() * num, den as int),
            final(self).all_nonneg() == old(self).all_nonneg(),
            forall|i: int, b: int|
                0 <= i < old(self).d() && 0 <= b < old(self).w() ==> #[trigger] final(self).counter(i, b)
                    == trunc_div(old(self).counter(i, b) * num, den as int),
            forall|k: Seq<u8>|
                #[trigger] final(self).true_count(k) == trunc_div(old(self).true_count(k) * num, den as int),
    {
        let ghost start = *self;
        let n = self.counts.len();
        let mut j: usize = 0;
        while j < n
            invariant
                start.wf(),
                0 < num <= den,
                n == start.counts@.len(),
                self.counts@.len() == n,
                j <= n,
                self.num_hashes == start.num_hashes,
                self.num_buckets == start.num_buckets,
                self.seed == start.seed,
                self.total_weight == start.total_weight,
                self.truth == start.truth,
                self.nonneg == start.nonneg,
                forall|q: int|
                    0 <= q < n ==> #[trigger] self.counts@[q].v() == if q < j {
                        trunc_div(start.counts@[q].v() * num, den as int)
                    } else {
                        start.counts@[q].v()
                    },
            decreases n - j,
        {
            let c = self.counts[j];
            self.counts.set(j, c.scale(num, den));
            j = j + 1;
        }
        self.total_weight = self.total_weight.scale(num, den);
        proof {
            self.truth = Ghost(
                Map::new(|k: Seq<u8>| true, |k: Seq<u8>| trunc_div(start.true_count(k) * num, den as int)),
            );
            let t = start.total();
            assert forall|q: int| 0 <= q < n implies abs_int(#[trigger] self.counts@[q].v()) <= self.total() by {
                lemma_scale_mono(start.counts@[q].v(), t, num as int, den as int);
            }
            if self.nonneg@ {
                assert forall|q: int| 0 <= q < n implies #[trigger] self.counts@[q].v() >= 0 by {
                    lemma_scale_mono(start.counts@[q].v(), t, num as int, den as int);
                }
                assert forall|k: Seq<u8>| #[trigger] self.true_count(k) >= 0 by {
                    assert(start.true_count(k) >= 0);
                    lemma_scale_mono(start.true_count(k), start.true_count(k), num as int, den as int);
                }
                assert forall|k: Seq<u8>, i: int| 0 <= i < self.d() implies #[trigger] self.cell(k, i) >= self.true_count(k) by {
                    let b = bucket_spec(k, self.seed, i, self.w());
                    lemma_bucket(k, self.seed, i, self.w());
                    lemma_index(i, b, self.d(), self.w());
                    assert(start.cell(k, i) >= start.true_count(k));
                    assert(start.true_count(k) >= 0);
                    lemma_scale_le(start.true_count(k), start.cell(k, i), num as int, den as int);
                }
            }
            assert forall|i: int, b: int|
                0 <= i < start.d() && 0 <= b < start.w() implies #[trigger] self.counter(i, b)
                    == trunc_div(start.counter(i, b) * num, den as int) by {
                lemma_index(i, b, start.d(), start.w());
            }
        }
    }

    /// Adds the counters of `other`, which must have the same rows, columns and seed.
    pub fn merge(&mut self, other: &Self) -> (r: Result<(), Error>)
        requires
            old(self).wf(),
            other.wf(),
            old(self).total() + other.total() <= V::max_v(),
        ensures
            r.is_ok() <==> (old(self).d() == other.d() && old(self).w() == other.w()
                && old(self).seed_spec() == other.seed_spec()),
            r matches Err(e) ==> e.kind == ErrorKind::InvalidArgument && *final(self) == *old(self),
            final(self).wf(),
            r.is_ok() ==> final(self).total() == old(self).total() + other.total(),
            r.is_ok() ==> forall|i: int, b: int|
                0 <= i < old(self).d() && 0 <= b < old(self).w() ==> #[trigger] final(self).counter(i, b)
                    == old(self).counter(i, b) + other.counter(i, b),
            r.is_ok() ==> forall|k: Seq<u8>|
                #[trigger] final(self).true_count(k) == old(self).true_count(k) + other.true_count(k),
    {
        if self.num_hashes != other.num_hashes || self.num_buckets != other.num_buckets
            || self.seed != other.seed {
            return Err(Error::invalid_argument("incompatible sketches"));
        }
        let ghost start = *self;
        let n = self.counts.len();
        let mut j: usize = 0;
        proof {
            V::lemma_range(self.total_weight);
            V::lemma_range(other.total_weight);
        }
        while j < n
            invariant
                start.wf(),
                other.wf(),
                start.total() + other.total() <= V::max_v(),
                n == start.counts@.len(),
                other.counts@.len() == n,
                self.counts@.len() == n,
                j <= n,
                self.num_hashes == start.num_hashes,
                self.num_buckets == start.num_buckets,
                self.seed == start.seed,
                self.total_weight == start.total_weight,
                self.truth == start.truth,
                self.nonneg == start.nonneg,
                forall|q: int|
                    0 <= q < n ==> #[trigger] self.counts@[q].v() == start.counts@[q].v() + if q < j {
                        other.counts@[q].v()
                    } else {
                        0
                    },
            decreases n - j,
        {
            let c = self.counts[j];
            let o = other.counts[j];
            proof {
                assert(abs_int(start.counts@[j as int].v()) <= start.total());
                assert(abs_int(other.counts@[j as int].v()) <= other.total());
                V::lemma_range(c);
            }
            self.counts.set(j, c.add(o));
            j = j + 1;
        }
        self.total_weight = self.total_weight.add(other.total_weight);
        proof {
            self.truth = Ghost(
                Map::new(|k: Seq<u8>| true, |k: Seq<u8>| start.true_count(k) + other.true_count(k)),
            );
            self.nonneg = Ghost(start.nonneg@ && other.nonneg@);
            assert forall|q: int| 0 <= q < n implies abs_int(#[trigger] self.counts@[q].v()) <= self.total() by {
                assert(abs_int(start.counts@[q].v()) <= start.total());
                assert(abs_int(other.counts@[q].v()) <= other.total());
            }
            if self.nonneg@ {
                assert forall|q: int| 0 <= q < n implies #[trigger] self.counts@[q].v() >= 0 by {
                    assert(start.counts@[q].v() >= 0);
                    assert(other.counts@[q].v() >= 0);
                }
                assert forall|k: Seq<u8>| #[trigger] self.true_count(k) >= 0 by {
                    assert(start.true_count(k) >= 0);
                    assert(other.true_count(k) >= 0);
                }
                assert forall|k: Seq<u8>, i: int| 0 <= i < self.d() implies #[trigger] self.cell(k, i) >= self.true_count(k) by {
                    let b = bucket_spec(k, self.seed, i, self.w());
                    lemma_bucket(k, self.seed, i, self.w());
                    lemma_index(i, b, self.d(), self.w());
                    assert(start.cell(k, i) >= start.true_count(k));
                    assert(other.cell(k, i) >= other.true_count(k));
                }
            }
            assert forall|i: int, b: int|
                0 <= i < start.d() && 0 <= b < start.w() implies #[trigger] self.counter(i, b)
                    == start.counter(i, b) + other.counter(i, b) by {
                lemma_index(i, b, start.d(), start.w());
            }
        }
        Ok(())
    }

    /// The image of this sketch: a 24-byte preamble (sizes, value tag, seed), then, unless the
    /// total weight is zero, the total weight and every counter as 64-bit little-endian words.
    pub fn serialize(&self) -> (r: Vec<u8>)
        requires
            self.wf(),
        ensures
            r@.len() == if self.total() == 0 {
                24
            } else {
                32 + 8 * self.d() * self.w()
            },
            r@[0] == PREAMBLE_LONGS,
            r@[1] == SER_VER,
            r@[2] == FAMILY_ID,
            r@[3] == if self.total() == 0 {
                EMPTY_FLAG
            } else {
                0
            },
            r@[4] == V::tag_spec(),
            r@[5] == self.d(),
            le_nat(r@.subrange(8, 12)) == self.w(),
            le_nat(r@.subrange(16, 24)) == self.seed_spec(),
            self.total() != 0 ==> le_nat(r@.subrange(24, 32)) == self.total_word(),
            self.total() != 0 ==> forall|j: int|
                0 <= j < self.d() * self.w() ==> le_nat(#[trigger] r@.subrange(32 + 8 * j, 40 + 8 * j))
                    == self.counter_word(j),
    {
        let empty = self.is_empty();
        let n = self.counts.len();
        proof {
            assert(8 * self.d() * self.w() == 8 * n) by (nonlinear_arith)
                requires
                    n == self.d() * self.w(),
            ;
        }
        let size: usize = if empty {
            24
        } else {
            32
        };
        let mut out: Vec<u8> = Vec::new();
        while out.len() < size
            invariant
                out@.len() <= size,
            decreases size - out@.len(),
        {
            out.push(0);
        }
        out.set(0, PREAMBLE_LONGS);
        out.set(1, SER_VER);
        out.set(2, FAMILY_ID);
        out.set(3, if empty {
            EMPTY_FLAG
        } else {
            0
        });
        out.set(4, V::type_tag());
        out.set(5, self.num_hashes);
        write_u32_le(&mut out, 8, self.num_buckets);
        let ghost s1 = out@;
        write_u64_le(&mut out, 16, self.seed);
        proof {
            assert(out@.subrange(8, 12) =~= s1.subrange(8, 12));
        }
        if empty {
            return out;
        }
        let ghost s2 = out@;
        write_u64_le(&mut out, 24, self.total_weight.to_word());
        proof {
            assert(out@.subrange(8, 12) =~= s2.subrange(8, 12));
            assert(out@.subrange(16, 24) =~= s2.subrange(16, 24));
        }
        let mut j: usize = 0;
        while j < n
            invariant
                self.wf(),
                n == self.counts@.len(),
                n <= MAX_CELLS,
                j <= n,
                out@.len() == 32 + 8 * j,
                out@[0] == PREAMBLE_LONGS,
                out@[1] == SER_VER,
                out@[2] == FAMILY_ID,
                out@[3] == 0,
                out@[4] == V::tag_spec(),
                out@[5] == self.d(),
                le_nat(out@.subrange(8, 12)) == self.w(),
                le_nat(out@.subrange(16, 24)) == self.seed_spec(),
                le_nat(out@.subrange(24, 32)) == self.total_weight.to_word_spec(),
                forall|q: int|
                    0 <= q < j ==> le_nat(#[trigger] out@.subrange(32 + 8 * q, 40 + 8 * q))
                        == self.counts@[q].to_word_spec(),
            decreases n - j,
        {
            let ghost before = out@;
            let word = self.counts[j].to_word();
            let mut t: usize = 0;
            while t < 8
                invariant
                    t <= 8,
                    out@.len() == before.len() + t,
                    out@.subrange(0, before.len() as int) == before,
                decreases 8 - t,
            {
                out.push(0);
                t = t + 1;
                assert(out@.subrange(0, before.len() as int) =~= before);
            }
            write_u64_le(&mut out, 32 + 8 * j, word);
            proof {
                assert(out@.subrange(8, 12) =~= before.subrange(8, 12));
                assert(out@.subrange(16, 24) =~= before.subrange(16, 24));
                assert(out@.subrange(24, 32) =~= before.subrange(24, 32));
                assert forall|q: int| 0 <= q < j implies le_nat(#[trigger] out@.subrange(32 + 8 * q, 40 + 8 * q))
                    == self.counts@[q].to_word_spec() by {
                    assert(out@.subrange(32 + 8 * q, 40 + 8 * q) =~= before.subrange(32 + 8 * q, 40 + 8 * q));
                }
            }
            j = j + 1;
        }
        out
    }

    /// Reads a sketch from its image, which must have been made with `seed` and with counters of
    /// type `V`.
    pub fn deserialize_with_seed(bytes: &[u8], seed: u64) -> (r: Result<Self, Error>)
        ensures
            r.is_ok() <==> acceptable::<V>(bytes@, seed),
            bytes@.len() < 24 ==> (r matches Err(e) && e.kind == ErrorKind::InsufficientData),
            bytes@.len() >= 24 && (bytes@[1] != SER_VER || bytes@[2] != FAMILY_ID || bytes@[4]
                != V::tag_spec()) ==> (r matches Err(e) && e.kind == ErrorKind::InvalidData),
            bytes@.len() >= 24 && le_nat(bytes@.subrange(16, 24)) != seed ==> r.is_err(),
            r matches Ok(s) ==> {
                &&& s.wf()
                &&& s.seed_spec() == seed
                &&& s.d() == bytes@[5]
                &&& s.w() == le_nat(bytes@.subrange(8, 12))
                &&& bytes@[3] & EMPTY_FLAG == 0 ==> s.total_word() == le_nat(
                    bytes@.subrange(24, 32),
                ) && forall|j: int|
                    0 <= j < s.d() * s.w() ==> #[trigger] s.counter_word(j) == le_nat(
                        bytes@.subrange(32 + 8 * j, 40 + 8 * j),
                    )
            },
    {
        if bytes.len() < 24 {
            return Err(Error::insufficient_data("preamble"));
        }
        if bytes[1] != SER_VER || bytes[2] != FAMILY_ID || bytes[0] != PREAMBLE_LONGS {
            return Err(Error::deserial("not a Count-Min image"));
        }
        if bytes[4] != V::type_tag() {
            return Err(Error::deserial("counter type mismatch"));
        }
        let d = bytes[5];
        let w = read_u32_le(bytes, 8);
        let image_seed = read_u64_le(bytes, 16);
        if image_seed != seed {
            return Err(Error::deserial("seed mismatch"));
        }
        if d < 1 || w < 3 {
            return Err(Error::deserial("invalid sizes"));
        }
        if (w as usize) > MAX_CELLS / (d as usize) {
            proof {
                assert(d as int * w as int > MAX_CELLS as int) by (nonlinear_arith)
                    requires
                        w > (MAX_CELLS as int) / (d as int),
                        d >= 1,
                ;
            }
            return Err(Error::invalid_argument("too many counters"));
        }
        proof {
            assert(d as int * w as int <= MAX_CELLS as int) by (nonlinear_arith)
                requires
                    w <= (MAX_CELLS as int) / (d as int),
                    d >= 1,
            ;
        }
        if bytes[3] & EMPTY_FLAG != 0 {
            return Ok(Self::with_seed(d, w, seed));
        }
        let n = d as usize * w as usize;
        if bytes.len() < 32 + 8 * n {
            return Err(Error::insufficient_data("counters"));
        }
        let tw = read_u64_le(bytes, 24);
        proof {
            assert(d as int * w as int == n);
        }
        let total = match V::from_word(tw) {
            Some(t) => t,
            None => {
                return Err(Error::deserial("total weight out of range"));
            },
        };
        if total.lt(V::zero()) {
            return Err(Error::deserial("negative total weight"));
        }
        proof {
            V::lemma_range(total);
        }
        let mut counts: Vec<V> = Vec::new();
        let mut all_nonneg = true;
        let mut j: usize = 0;
        while j < n
            invariant
                n == d * w,
                n <= MAX_CELLS,
                32 + 8 * n <= bytes@.len(),
                j <= n,
                counts@.len() == j,
                total.v() >= 0,
                V::min_v() <= total.v() <= V::max_v(),
                forall|q: int| 0 <= q < j ==> abs_int(#[trigger] counts@[q].v()) <= total.v(),
                all_nonneg ==> forall|q: int| 0 <= q < j ==> #[trigger] counts@[q].v() >= 0,
                V::min_v() == 0 ==> all_nonneg,
                forall|q: int|
                    0 <= q < j ==> #[trigger] counts@[q].to_word_spec() == le_nat(
                        bytes@.subrange(32 + 8 * q, 40 + 8 * q),
                    ),
                total.v() == word_value::<V>(le_nat(bytes@.subrange(24, 32)) as u64),
                V::word_fits(le_nat(bytes@.subrange(24, 32)) as u64),
                bytes@[5] == d,
                le_nat(bytes@.subrange(8, 12)) == w,
                bytes@[3] & EMPTY_FLAG == 0,
                forall|q: int| 0 <= q < j ==> V::word_fits(#[trigger] counter_word_at(bytes@, q))
                    && abs_int(word_value::<V>(counter_word_at(bytes@, q))) <= total.v(),
            decreases n - j,
        {
            let word = read_u64_le(bytes, 32 + 8 * j);
            let c = match V::from_word(word) {
                Some(c) => c,
                None => {
                    proof {
                        assert(counter_word_at(bytes@, j as int) == word);
                        assert(d as int * w as int == n);
                        if acceptable::<V>(bytes@, seed) {
                            assert(V::word_fits(counter_word_at(bytes@, j as int)));
                        }
                    }
                    return Err(Error::deserial("counter out of range"));
                },
            };
            proof {
                assert(counter_word_at(bytes@, j as int) == word);
                assert(d as int * w as int == n);
            }
            proof {
                V::lemma_range(c);
            }
            if c.lt(V::zero()) {
                all_nonneg = false;
                if c.lt(V::zero().sub_sat(total.magnitude())) {
                    proof {
                        if acceptable::<V>(bytes@, seed) {
                            assert(abs_int(word_value::<V>(counter_word_at(bytes@, j as int))) <= word_value::<V>(tw));
                        }
                    }
                    return Err(Error::deserial("counter exceeds total weight"));
                }
            } else if total.lt(c) {
                proof {
                    if acceptable::<V>(bytes@, seed) {
                        assert(abs_int(word_value::<V>(counter_word_at(bytes@, j as int))) <= word_value::<V>(tw));
                    }
                }
                return Err(Error::deserial("counter exceeds total weight"));
            }
            let ghost before = counts@;
            counts.push(c);
            proof {
                assert forall|q: int| 0 <= q < j + 1 implies V::word_fits(#[trigger] counter_word_at(bytes@, q))
                    && abs_int(word_value::<V>(counter_word_at(bytes@, q))) <= total.v() by {
                    if q == j {
                        assert(counts@[q] == c);
                    }
                }
            }
            j = j + 1;
        }
        let r = CountMinSketch {
            num_hashes: d,
            num_buckets: w,
            seed,
            total_weight: total,
            counts,
            truth: Ghost(Map::empty()),
            nonneg: Ghost(all_nonneg),
        };
        proof {
            if all_nonneg {
                assert forall|k: Seq<u8>| #[trigger] r.true_count(k) >= 0 by {}
                assert forall|k: Seq<u8>, i: int|
                    0 <= i < r.d() implies #[trigger] r.cell(k, i) >= r.true_count(k) by {
                    let b = bucket_spec(k, seed, i, r.w());
                    lemma_bucket(k, seed, i, r.w());
                    lemma_index(i, b, r.d(), r.w());
                }
            }
        }
        Ok(r)
    }

    /// While no weight has been negative (always, for unsigned counters), the estimate of
    /// every item is at least its true count.
    pub proof fn lemma_estimate_overestimates(&self, k: Seq<u8>)
        requires
            self.wf(),
            self.all_nonneg() || V::min_v() == 0,
        ensures
            self.all_nonneg(),
            self.estimate_spec(k) >= self.true_count(k),
    {
        self.lemma_estimate_is_min(k, self.d());
        let i = choose|i: int| 0 <= i < self.d() && self.est_upto(k, self.d()) == self.cell(k, i);
        assert(self.cell(k, i) >= self.true_count(k));
    }

    proof fn lemma_after_update(&self, start: Self, k: Seq<u8>, wv: int)
        requires
            start.wf(),
            self.num_hashes == start.num_hashes,
            self.num_buckets == start.num_buckets,
            self.seed == start.seed,
            self.counts@.len() == start.counts@.len(),
            self.total() == start.total() + abs_int(wv),
            self.truth@ == start.truth@.insert(k, start.true_count(k) + wv),
            self.nonneg@ == (start.nonneg@ && wv >= 0),
            V::min_v() == 0 ==> wv >= 0,
            self.nonneg@ ==> start.true_count(k) + wv >= 0,
            forall|r: int, b: int|
                0 <= r < start.d() && 0 <= b < start.w() ==> #[trigger] self.counter(r, b)
                    == start.counter(r, b) + if b == bucket_spec(k, start.seed, r, start.w()) {
                    wv
                } else {
                    0
                },
        ensures
            self.wf(),
            forall|i: int|
                0 <= i < start.d() ==> #[trigger] self.cell(k, i) == start.cell(k, i) + wv,
            forall|kk: Seq<u8>|
                #[trigger] self.true_count(kk) == start.true_count(kk) + if kk == k {
                    wv
                } else {
                    0
                },
    {
        let d = start.d();
        let w = start.w();
        assert forall|j: int| 0 <= j < self.counts@.len() implies abs_int(#[trigger] self.counts@[j].v()) <= self.total() by {
            let r = j / w;
            let b = j % w;
            lemma_split(j, d, w);
            assert(abs_int(start.counts@[j].v()) <= start.total());
            assert(self.counter(r, b) == self.counts@[j].v());
            assert(start.counter(r, b) == start.counts@[j].v());
        }
        if self.nonneg@ {
            assert forall|j: int| 0 <= j < self.counts@.len() implies #[trigger] self.counts@[j].v() >= 0 by {
                let r = j / w;
                let b = j % w;
                lemma_split(j, d, w);
                assert(self.counter(r, b) == self.counts@[j].v());
                assert(start.counter(r, b) == start.counts@[j].v());
            }
            assert forall|kk: Seq<u8>| #[trigger] self.true_count(kk) >= 0 by {
                assert(start.true_count(kk) >= 0);
            }
            assert forall|kk: Seq<u8>, i: int| 0 <= i < self.d() implies #[trigger] self.cell(kk, i) >= self.true_count(kk) by {
                lemma_bucket(kk, start.seed, i, w);
                lemma_bucket(k, start.seed, i, w);
                assert(start.cell(kk, i) >= start.true_count(kk));
            }
        }
        assert forall|i: int| 0 <= i < start.d() implies #[trigger] self.cell(k, i) == start.cell(k, i) + wv by {
            lemma_bucket(k, start.seed, i, w);
        }
    }
}

/// The index of the counter of row `i` that the item with hash `hash` maps to.
fn cell_index(hash: (u64, u64), i: u8, d: u8, w: u32, key: Ghost<Seq<u8>>, seed: Ghost<u64>) -> (r: usize)
    requires
        i < d,
        w >= 3,
        d as int * w as int <= MAX_CELLS,
        hash == murmur3_spec(key@, seed@),
    ensures
        r == i * w + bucket_spec(key@, seed@, i as int, w as int),
        r < d * w,
        0 <= bucket_spec(key@, seed@, i as int, w as int) < w,
{
    let b = (hash.0.wrapping_add((i as u64).wrapping_mul(hash.1)) % (w as u64)) as usize;
    proof {
        lemma_bucket(key@, seed@, i as int, w as int);
        lemma_index(i as int, b as int, d as int, w as int);
    }
    i as usize * w as usize + b
}

/// The word at index `j` of the counters of an image.
pub open spec fn counter_word_at(b: Seq<u8>, j: int) -> u64 {
    le_nat(b.subrange(32 + 8 * j, 40 + 8 * j)) as u64
}

/// The checks that an image with counters of type `V` passes when read with `seed`.
pub open spec fn acceptable<V: CountMinValue>(b: Seq<u8>, seed: u64) -> bool {
    let d = b[5] as int;
    let w = le_nat(b.subrange(8, 12)) as int;
    let n = d * w;
    let tw = le_nat(b.subrange(24, 32)) as u64;
    &&& b.len() >= 24
    &&& b[0] == PREAMBLE_LONGS
    &&& b[1] == SER_VER
    &&& b[2] == FAMILY_ID
    &&& b[4] == V::tag_spec()
    &&& le_nat(b.subrange(16, 24)) == seed
    &&& d >= 1 && w >= 3
    &&& n <= MAX_CELLS
    &&& b[3] & EMPTY_FLAG == 0 ==> {
        &&& b.len() >= 32 + 8 * n
        &&& V::word_fits(tw)
        &&& word_value::<V>(tw) >= 0
        &&& forall|j: int| 0 <= j < n ==> V::word_fits(#[trigger] counter_word_at(b, j))
            && abs_int(word_value::<V>(counter_word_at(b, j))) <= word_value::<V>(tw)
    }
}

/// Scaling keeps magnitudes in order, and keeps signs.
proof fn lemma_scale_mono(c: int, t: int, num: int, den: int)
    requires
        abs_int(c) <= t,
        0 < num <= den,
    ensures
        abs_int(trunc_div(c * num, den)) <= trunc_div(t * num, den),
        c >= 0 ==> trunc_div(c * num, den) >= 0,
{
    let m = abs_int(c);
    assert(m * num <= t * num) by (nonlinear_arith)
        requires
            0 <= m <= t,
            0 < num,
    ;
    assert(m * num >= 0) by (nonlinear_arith)
        requires
            0 <= m,
            0 < num,
    ;
    vstd::arithmetic::div_mod::lemma_div_is_ordered(m * num, t * num, den);
    vstd::arithmetic::div_mod::lemma_div_pos_is_pos(m * num, den);
    if c < 0 {
        assert(c * num == -(m * num)) by (nonlinear_arith)
            requires
                m == -c,
        ;
    }
}

/// Scaling keeps order between non-negative numbers.
proof fn lemma_scale_le(a: int, b: int, num: int, den: int)
    requires
        0 <= a <= b,
        0 < num <= den,
    ensures
        trunc_div(a * num, den) <= trunc_div(b * num, den),
{
    assert(a * num <= b * num) by (nonlinear_arith)
        requires
            0 <= a <= b,
            0 < num,
    ;
    assert(a * num >= 0) by (nonlinear_arith)
        requires
            0 <= a,
            0 < num,
    ;
    vstd::arithmetic::div_mod::lemma_div_is_ordered(a * num, b * num, den);
}

/// Buckets lie in `0..w`.
proof fn lemma_bucket(k: Seq<u8>, seed: u64, i: int, w: int)
    requires
        w >= 1,
    ensures
        0 <= bucket_spec(k, seed, i, w) < w,
{
}

/// Counter `(i, b)` sits inside the matrix.
proof fn lemma_index(i: int, b: int, d: int, w: int)
    requires
        0 <= i < d,
        0 <= b < w,
    ensures
        0 <= i * w + b < d * w,
{
    assert(i * w + b < d * w) by (nonlinear_arith)
        requires
            0 <= i < d,
            0 <= b < w,
    ;
    assert(0 <= i * w) by (nonlinear_arith)
        requires
            0 <= i,
            0 <= w,
    ;
}

/// Distinct cells have distinct indices.
proof fn lemma_index_distinct(r: int, b: int, i: int, c: int, w: int)
    requires
        0 <= b < w,
        0 <= c < w,
        0 <= r,
        0 <= i,
    ensures
        (r * w + b == i * w + c) <==> (r == i && b == c),
{
    if r * w + b == i * w + c && r != i {
        if r < i {
            assert(r * w + b < i * w + c) by (nonlinear_arith)
                requires
                    r < i,
                    0 <= b < w,
                    0 <= c,
            ;
        } else {
            assert(r * w + b > i * w + c) by (nonlinear_arith)
                requires
                    r > i,
                    0 <= c < w,
                    0 <= b,
            ;
        }
    }
}

/// An index splits into its row and column.
proof fn lemma_split(j: int, d: int, w: int)
    requires
        0 <= j < d * w,
        w > 0,
    ensures
        0 <= j / w < d,
        0 <= j % w < w,
        (j / w) * w + j % w == j,
{
    vstd::arithmetic::div_mod::lemma_fundamental_div_mod(j, w);
    assert((j / w) * w == w * (j / w)) by (nonlinear_arith);
    assert(j / w < d) by (nonlinear_arith)
        requires
            0 <= j < d * w,
            w > 0,
            j == w * (j / w) + j % w,
            0 <= j % w,
    ;
    assert(j / w >= 0) by (nonlinear_arith)
        requires
            0 <= j,
            w > 0,
    ;
}

} // verus!
