//! The mutable Theta sketch and its builder.
use vstd::prelude::*;

use crate::hash::HashInput;
use crate::theta::compact::compute_seed_hash;
use crate::theta::compact::increasing;
use crate::theta::compact::seed_hash_spec;
use crate::theta::compact::CompactThetaSketch;
use crate::hash::DEFAULT_UPDATE_SEED;
use crate::theta::hash_table::pow2;
use crate::theta::hash_table::theta_hash;
use crate::theta::hash_table::ThetaHashTable;
use crate::theta::hash_table::DEFAULT_LG_K;
use crate::theta::hash_table::MAX_LG_K;
use crate::theta::hash_table::MAX_THETA;
use crate::theta::hash_table::MIN_LG_K;

verus! {

/// How much the table grows each time it fills.
#[derive(Debug, Clone, Copy, PartialEq, Eq, Structural)]
pub enum ResizeFactor {
    X1,
    X2,
    X4,
    X8,
}

impl ResizeFactor {
    pub open spec fn lg_spec(&self) -> u8 {
        match self {
            ResizeFactor::X1 => 0,
            ResizeFactor::X2 => 1,
            ResizeFactor::X4 => 2,
            ResizeFactor::X8 => 3,
        }
    }

    /// The base-2 logarithm of the factor.
    pub fn lg(&self) -> (r: u8)
        ensures
            r == self.lg_spec(),
    {
        match self {
            ResizeFactor::X1 => 0,
            ResizeFactor::X2 => 1,
            ResizeFactor::X4 => 2,
            ResizeFactor::X8 => 3,
        }
    }
}

/// Mutable Theta sketch.
pub struct ThetaSketch {
    table: ThetaHashTable,
}

/// Builder for [`ThetaSketch`].
pub struct ThetaSketchBuilder {
    lg_k: u8,
    resize_factor: ResizeFactor,
    initial_theta: u64,
    seed: u64,
}

impl ThetaSketchBuilder {
    pub closed spec fn lg_k_spec(&self) -> u8 {
        self.lg_k
    }

    pub closed spec fn theta_spec(&self) -> u64 {
        self.initial_theta
    }

    pub closed spec fn seed_spec(&self) -> u64 {
        self.seed
    }

    pub closed spec fn wf(&self) -> bool {
        &&& MIN_LG_K <= self.lg_k <= MAX_LG_K
        &&& 0 < self.initial_theta <= MAX_THETA
    }

    /// Nominal size `2^12`, growth by 8, every hash sampled, the default seed.
    pub fn new() -> (r: Self)
        ensures
            r.wf(),
            r.lg_k_spec() == DEFAULT_LG_K,
            r.theta_spec() == MAX_THETA,
            r.seed_spec() == DEFAULT_UPDATE_SEED,
    {
        ThetaSketchBuilder {
            lg_k: DEFAULT_LG_K,
            resize_factor: ResizeFactor::X8,
            initial_theta: MAX_THETA,
            seed: DEFAULT_UPDATE_SEED,
        }
    }

    /// Sets the base-2 logarithm of the nominal size.
    pub fn lg_k(self, lg_k: u8) -> (r: Self)
        requires
            self.wf(),
            MIN_LG_K <= lg_k <= MAX_LG_K,
        ensures
            r.wf(),
            r.lg_k_spec() == lg_k,
            r.theta_spec() == self.theta_spec(),
            r.seed_spec() == self.seed_spec(),
    {
        ThetaSketchBuilder { lg_k, ..self }
    }

    /// Sets the growth factor of the table.
    pub fn resize_factor(self, factor: ResizeFactor) -> (r: Self)
        requires
            self.wf(),
        ensures
            r.wf(),
            r.lg_k_spec() == self.lg_k_spec(),
            r.theta_spec() == self.theta_spec(),
            r.seed_spec() == self.seed_spec(),
    {
        ThetaSketchBuilder { resize_factor: factor, ..self }
    }

    /// Sets the starting threshold `θ₀ = ⌊p · MAX_THETA⌋` for a sampling probability `p`.
    pub fn sampling_threshold(self, theta: u64) -> (r: Self)
        requires
            self.wf(),
            0 < theta <= MAX_THETA,
        ensures
            r.wf(),
            r.lg_k_spec() == self.lg_k_spec(),
            r.theta_spec() == theta,
            r.seed_spec() == self.seed_spec(),
    {
        ThetaSketchBuilder { initial_theta: theta, ..self }
    }

    /// Sets the hash seed.
    pub fn seed(self, seed: u64) -> (r: Self)
        requires
            self.wf(),
        ensures
            r.wf(),
            r.lg_k_spec() == self.lg_k_spec(),
            r.theta_spec() == self.theta_spec(),
            r.seed_spec() == seed,
    {
        ThetaSketchBuilder { seed, ..self }
    }

    /// Builds an empty sketch.
    pub fn build(self) -> (r: ThetaSketch)
        requires
            self.wf(),
        ensures
            r.wf(),
            r.retained() == Set::<u64>::empty(),
            r.theta_spec() == self.theta_spec(),
            r.lg_k_spec() == self.lg_k_spec(),
            r.seed_spec() == self.seed_spec(),
            r.empty_spec(),
    {
        let lg = self.resize_factor.lg();
        ThetaSketch { table: ThetaHashTable::new(self.lg_k, lg, self.initial_theta, self.seed) }
    }
}

impl ThetaSketch {
    /// The retained hashes.
    pub closed spec fn retained(&self) -> Set<u64> {
        self.table.view()
    }

    pub closed spec fn theta_spec(&self) -> u64 {
        self.table.theta_spec()
    }

    pub closed spec fn lg_k_spec(&self) -> int {
        self.table.lg_nom_spec()
    }

    pub closed spec fn seed_spec(&self) -> u64 {
        self.table.seed_spec()
    }

    pub closed spec fn empty_spec(&self) -> bool {
        self.table.empty_spec()
    }

    pub closed spec fn wf(&self) -> bool {
        &&& self.table.wf()
        &&& self.table.empty_spec() ==> self.table.view().len() == 0
    }

    /// A builder with the defaults.
    pub fn builder() -> (r: ThetaSketchBuilder)
        ensures
            r.wf(),
            r.lg_k_spec() == DEFAULT_LG_K,
            r.theta_spec() == MAX_THETA,
            r.seed_spec() == DEFAULT_UPDATE_SEED,
    {
        ThetaSketchBuilder::new()
    }

    /// Adds a value: its hash is retained when it is nonzero and below θ; when that makes more
    /// than `k` hashes, θ drops to the largest and only the hashes below it stay.
    pub fn update<T: HashInput>(&mut self, value: T)
        requires
            old(self).wf(),
        ensures
            final(self).wf(),
            !final(self).empty_spec(),
            final(self).lg_k_spec() == old(self).lg_k_spec(),
            final(self).seed_spec() == old(self).seed_spec(),
            final(self).theta_spec() <= old(self).theta_spec(),
            ({
                let h = theta_hash(value.key(), old(self).seed_spec());
                if h == 0 || h >= old(self).theta_spec() {
                    final(self).retained() == old(self).retained() && final(self).theta_spec()
                        == old(self).theta_spec()
                } else {
                    &&& final(self).retained() == old(self).retained().insert(h).filter(
                        |x: u64| x < final(self).theta_spec(),
                    )
                    &&& (old(self).retained().len() < pow2(old(self).lg_k_spec() as nat)
                        || old(self).retained().contains(h)) ==> final(self).theta_spec() == old(
                        self,
                    ).theta_spec()
                    &&& !(old(self).retained().len() < pow2(old(self).lg_k_spec() as nat)
                        || old(self).retained().contains(h)) ==> {
                        &&& old(self).retained().insert(h).contains(final(self).theta_spec())
                        &&& forall|x: u64| #[trigger]
                            old(self).retained().insert(h).contains(x) ==> x <= final(self).theta_spec()
                    }
                }
            }),
    {
        self.table.mark_updated();
        let hash = self.table.hash_and_screen(&value);
        if hash != 0 {
            self.table.try_insert(hash);
        }
    }

    /// θ as a 64-bit threshold.
    pub fn theta64(&self) -> (r: u64)
        ensures
            r == self.theta_spec(),
    {
        self.table.theta()
    }

    /// Whether no update has reached the sketch.
    pub fn is_empty(&self) -> (r: bool)
        ensures
            r == self.empty_spec(),
    {
        self.table.is_empty()
    }

    /// Whether θ is below its maximum, so that the retained hashes are a sample.
    pub fn is_estimation_mode(&self) -> (r: bool)
        ensures
            r == (self.theta_spec() < MAX_THETA),
    {
        self.table.theta() < MAX_THETA
    }

    /// The number of retained hashes.
    pub fn num_retained(&self) -> (r: usize)
        requires
            self.wf(),
        ensures
            r == self.retained().len(),
    {
        self.table.num_entries()
    }

    /// The base-2 logarithm of the nominal size.
    pub fn lg_k(&self) -> (r: u8)
        ensures
            r == self.lg_k_spec(),
    {
        self.table.lg_nom_size()
    }

    /// Keeps at most `k` hashes.
    pub fn trim(&mut self)
        requires
            old(self).wf(),
        ensures
            final(self).wf(),
            final(self).retained() == old(self).retained(),
            final(self).theta_spec() == old(self).theta_spec(),
            final(self).retained().len() <= pow2(final(self).lg_k_spec() as nat),
    {
        self.table.trim();
    }

    /// Back to the state after building.
    pub fn reset(&mut self)
        requires
            old(self).wf(),
        ensures
            final(self).wf(),
            final(self).retained() == Set::<u64>::empty(),
            final(self).lg_k_spec() == old(self).lg_k_spec(),
            final(self).seed_spec() == old(self).seed_spec(),
            final(self).empty_spec(),
    {
        self.table.reset();
    }

    /// The retained hashes, each once.
    pub fn iter(&self) -> (r: Vec<u64>)
        requires
            self.wf(),
        ensures
            r@.len() == self.retained().len(),
            forall|i: int| 0 <= i < r@.len() ==> self.retained().contains(#[trigger] r@[i]),
            forall|h: u64| #[trigger] self.retained().contains(h) ==> r@.contains(h),
    {
        self.table.iter()
    }

    /// A compact copy: the retained hashes (in increasing order when `ordered`), θ (at its
    /// maximum when the sketch is empty) and the digest of the seed.
    pub fn compact(&self, ordered: bool) -> (r: CompactThetaSketch)
        requires
            self.wf(),
        ensures
            r.wf(),
            r.entries_spec().len() == self.retained().len(),
            r.entries_spec().to_set() == self.retained(),
            r.ordered_spec() == ordered,
            ordered ==> increasing(r.entries_spec()),
            r.empty_spec() == self.empty_spec(),
            r.theta_spec() == if self.empty_spec() {
                MAX_THETA
            } else {
                self.theta_spec()
            },
            r.seed_hash_spec() == seed_hash_spec(self.seed_spec()),
    {
        let raw = self.table.iter();
        let theta = self.table.theta();
        let empty = self.table.is_empty();
        proof {
            lemma_retained_bounds(self);
            self.table.lemma_params();
            crate::theta::hash_table::lemma_pow2_bounds(self.lg_k_spec() as nat, 26);
            reveal_with_fuel(pow2, 27);
        }
        let entries = if ordered {
            sort_increasing(&raw)
        } else {
            raw
        };
        proof {
            assert(entries@.to_set() =~= self.retained()) by {
                assert forall|h: u64| entries@.to_set().contains(h) implies self.retained().contains(h) by {
                    let i = choose|i: int| 0 <= i < entries@.len() && entries@[i] == h;
                    if ordered {
                        let j = choose|j: int| 0 <= j < raw@.len() && raw@[j] == h;
                    }
                }
                assert forall|h: u64| self.retained().contains(h) implies entries@.to_set().contains(h) by {
                    assert(raw@.contains(h));
                    if ordered {
                        assert(raw@.to_set().contains(h));
                    }
                }
            }
        }
        let seed_hash = compute_seed_hash(self.table.seed());
        proof {
            assert forall|i: int| 0 <= i < entries@.len() implies 0 < #[trigger] entries@[i] < theta by {
                assert(entries@.to_set().contains(entries@[i]));
            }
        }
        CompactThetaSketch::new(entries, theta, seed_hash, ordered, empty)
    }
}

/// The distinct values of `v` in increasing order.
fn sort_increasing(v: &Vec<u64>) -> (r: Vec<u64>)
    requires
        forall|i: int, j: int| 0 <= i < j < v@.len() ==> #[trigger] v@[i] != #[trigger] v@[j],
    ensures
        r@.len() == v@.len(),
        r@.to_set() == v@.to_set(),
        increasing(r@),
{
    let mut out: Vec<u64> = Vec::new();
    let mut i: usize = 0;
    while i < v.len()
        invariant
            i <= v@.len(),
            forall|a: int, b: int| 0 <= a < b < v@.len() ==> #[trigger] v@[a] != #[trigger] v@[b],
            out@.len() == i,
            out@.to_set() == v@.subrange(0, i as int).to_set(),
            increasing(out@),
        decreases v@.len() - i,
    {
        let x = v[i];
        let mut pos: usize = 0;
        while pos < out.len() && out[pos] < x
            invariant
                pos <= out@.len(),
                forall|q: int| 0 <= q < pos ==> #[trigger] out@[q] < x,
            decreases out@.len() - pos,
        {
            pos = pos + 1;
        }
        let ghost before = out@;
        proof {
            assert(!before.to_set().contains(x)) by {
                if before.to_set().contains(x) {
                    let q = choose|q: int| 0 <= q < before.len() && before[q] == x;
                    assert(v@.subrange(0, i as int).to_set().contains(x));
                    let j = choose|j: int| 0 <= j < i && v@.subrange(0, i as int)[j] == x;
                    assert(v@[j] != v@[i as int]);
                }
            }
        }
        out.insert(pos, x);
        proof {
            assert forall|q: int| 0 <= q < out@.len() implies (q < pos ==> out@[q] == before[q]) && (q > pos ==> out@[q] == before[q - 1]) && (q == pos ==> out@[q] == x) by {}
            assert forall|a: int, b: int| 0 <= a < b < out@.len() implies #[trigger] out@[a] < #[trigger] out@[b] by {
                if b > pos && a == pos {
                    assert(before[pos as int] != x);
                    assert(before[pos as int] > x);
                    if b - 1 > pos {
                        assert(before[pos as int] < before[b - 1]);
                    }
                } else if b > pos && a < pos {
                    assert(before[a] < before[b - 1]);
                } else if b > pos && a > pos {
                    assert(before[a - 1] < before[b - 1]);
                } else if b == pos {
                    assert(before[a] < x);
                } else {
                    assert(before[a] < before[b]);
                }
            }
            let s0 = v@.subrange(0, i as int);
            let s1 = v@.subrange(0, i + 1);
            assert(out@.to_set() =~= s1.to_set()) by {
                assert forall|y: u64| out@.to_set().contains(y) implies s1.to_set().contains(y) by {
                    let q = choose|q: int| 0 <= q < out@.len() && out@[q] == y;
                    if q == pos {
                        assert(s1[i as int] == y);
                    } else {
                        let qq = if q < pos { q } else { q - 1 };
                        assert(before[qq] == y);
                        assert(before.to_set().contains(y));
                        assert(s0.to_set().contains(y));
                        let j = choose|j: int| 0 <= j < s0.len() && s0[j] == y;
                        assert(s1[j] == y);
                    }
                }
                assert forall|y: u64| s1.to_set().contains(y) implies out@.to_set().contains(y) by {
                    let j = choose|j: int| 0 <= j < s1.len() && s1[j] == y;
                    if j == i {
                        assert(out@[pos as int] == y);
                    } else {
                        assert(s0[j] == y);
                        assert(s0.to_set().contains(y));
                        assert(before.to_set().contains(y));
                        let q = choose|q: int| 0 <= q < before.len() && before[q] == y;
                        if q < pos {
                            assert(out@[q] == y);
                        } else {
                            assert(out@[q + 1] == y);
                        }
                    }
                }
            }
        }
        i = i + 1;
    }
    proof {
        assert(v@.subrange(0, v@.len() as int) =~= v@);
    }
    out
}

/// However a sketch came about, it holds at most `2^lg_k` hashes, and every hash lies strictly
/// between 0 and θ.
pub proof fn lemma_retained_bounds(s: &ThetaSketch)
    requires
        s.wf(),
    ensures
        s.retained().finite(),
        s.retained().len() <= pow2(s.lg_k_spec() as nat),
        forall|h: u64| #[trigger] s.retained().contains(h) ==> 0 < h < s.theta_spec(),
{
    s.table.lemma_retained();
}

} // verus!
