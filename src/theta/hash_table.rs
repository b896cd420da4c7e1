//! The Theta sketch's table: an open-addressed, linear-probing set of nonzero 64-bit hashes,
//! all below the sampling threshold θ.
use vstd::prelude::*;
use vstd::set_lib::set_int_range;

use crate::hash::murmur3_spec;
use crate::hash::murmur3_x64_128;
use crate::hash::HashInput;
use crate::probe::lemma_steps;
use crate::probe::lemma_wrap;
use crate::probe::slot;
use crate::probe::steps_to;

verus! {

/// Largest threshold: every hash is retained.
pub const MAX_THETA: u64 = 0x7fff_ffff_ffff_ffff;

/// Smallest base-2 logarithm of the nominal size.
pub const MIN_LG_K: u8 = 5;

/// Largest base-2 logarithm of the nominal size.
pub const MAX_LG_K: u8 = 26;

/// Default base-2 logarithm of the nominal size.
pub const DEFAULT_LG_K: u8 = 12;

/// Base-2 logarithm of the table's starting size.
pub const MIN_LG_SIZE: u8 = 5;

/// The hash under which a value with byte image `k` is retained: the first half of its
/// 128-bit MurmurHash3, shifted right by one.
pub open spec fn theta_hash(k: Seq<u8>, seed: u64) -> u64 {
    murmur3_spec(k, seed).0 >> 1u64
}

/// The table.
pub struct ThetaHashTable {
    lg_cur_size: u8,
    lg_nom_size: u8,
    lg_resize: u8,
    theta: u64,
    initial_theta: u64,
    seed: u64,
    is_empty: bool,
    entries: Vec<u64>,
    num_entries: usize,
}

impl ThetaHashTable {
    pub closed spec fn n(&self) -> int {
        self.entries@.len() as int
    }

    pub closed spec fn theta_spec(&self) -> u64 {
        self.theta
    }

    pub closed spec fn seed_spec(&self) -> u64 {
        self.seed
    }

    pub closed spec fn lg_nom_spec(&self) -> int {
        self.lg_nom_size as int
    }

    pub closed spec fn empty_spec(&self) -> bool {
        self.is_empty
    }

    pub closed spec fn initial_theta_spec(&self) -> u64 {
        self.initial_theta
    }

    closed spec fn active(&self, i: int) -> bool {
        self.entries@[i] != 0
    }

    closed spec fn home(&self, h: u64) -> int {
        (h as int) % self.n()
    }

    closed spec fn active_set(&self) -> Set<int> {
        set_int_range(0, self.n()).filter(|i: int| self.entries@[i] != 0)
    }

    /// The retained hashes.
    pub closed spec fn view(&self) -> Set<u64> {
        Set::new(|h: u64| exists|i: int| 0 <= i < self.n() && self.entries@[i] != 0 && self.entries@[i] == h)
    }

    /// Hash `x` sits in one of the first `i` slots.
    closed spec fn seen(&self, x: u64, i: int) -> bool {
        exists|j: int| 0 <= j < i && self.entries@[j] != 0 && self.entries@[j] == x
    }

    /// The number of retained hashes.
    pub closed spec fn count(&self) -> int {
        self.num_entries as int
    }

    pub closed spec fn wf(&self) -> bool {
        let n = self.n();
        &&& MIN_LG_K <= self.lg_nom_size <= MAX_LG_K
        &&& MIN_LG_SIZE <= self.lg_cur_size <= self.lg_nom_size + 1
        &&& self.lg_resize <= 3
        &&& n == pow2(self.lg_cur_size as nat)
        &&& self.num_entries == self.active_set().len()
        &&& 2 * self.num_entries <= n
        &&& self.num_entries <= pow2(self.lg_nom_size as nat)
        &&& 0 < self.theta <= MAX_THETA
        &&& 0 < self.initial_theta <= MAX_THETA
        &&& forall|i: int| 0 <= i < n && self.active(i) ==> #[trigger] self.entries@[i] < self.theta
        &&& self.layout()
    }

    /// Hashes are unique, and each sits after an unbroken run of occupied slots from its home.
    #[verifier::opaque]
    closed spec fn layout(&self) -> bool {
        let n = self.n();
        &&& forall|i: int, j: int|
            #![trigger self.entries@[i], self.entries@[j]]
            0 <= i < n && 0 <= j < n && i != j && self.active(i) && self.active(j) ==> self.entries@[i]
                != self.entries@[j]
        &&& forall|i: int, d: int|
            0 <= i < n && self.active(i) && 0 <= d < steps_to(self.home(self.entries@[i]), i, n)
                ==> #[trigger] self.active(slot(self.home(self.entries@[i]), d, n))
    }

    /// The layout depends on the slots alone.
    proof fn lemma_layout_same(&self, other: &Self)
        requires
            self.layout(),
            self.entries@ == other.entries@,
        ensures
            other.layout(),
    {
        reveal(ThetaHashTable::layout);
        let n = self.n();
        assert forall|i: int, j: int|
            #![trigger other.entries@[i], other.entries@[j]]
            0 <= i < n && 0 <= j < n && i != j && other.active(i) && other.active(j) implies other.entries@[i]
                != other.entries@[j] by {
            assert(self.entries@[i] != self.entries@[j]);
        }
        assert forall|i: int, d: int|
            0 <= i < n && other.active(i) && 0 <= d < steps_to(other.home(other.entries@[i]), i, n)
                implies #[trigger] other.active(slot(other.home(other.entries@[i]), d, n)) by {
            assert(self.active(slot(self.home(self.entries@[i]), d, n)));
        }
    }

    proof fn lemma_view(&self)
        requires
            self.wf(),
        ensures
            forall|i: int| 0 <= i < self.n() && self.active(i) ==> #[trigger] self.view().contains(self.entries@[i]),
            forall|h: u64| #[trigger] self.view().contains(h) ==> 0 < h < self.theta,
            self.view().finite(),
            self.view().len() == self.count(),
    {
        reveal(ThetaHashTable::layout);
        let n = self.n();
        assert forall|h: u64| #[trigger] self.view().contains(h) implies 0 < h < self.theta by {
            let i = choose|i: int| 0 <= i < n && self.entries@[i] != 0 && self.entries@[i] == h;
        }
        vstd::set_lib::lemma_int_range(0, n);
        let f = |i: int| self.entries@[i];
        let aset = self.active_set();
        assert(aset.map(f) =~= self.view()) by {
            assert forall|h: u64| self.view().contains(h) implies aset.map(f).contains(h) by {
                let i = choose|i: int| 0 <= i < n && self.entries@[i] != 0 && self.entries@[i] == h;
                assert(aset.contains(i));
            }
        }
        assert(vstd::relations::injective_on(f, aset)) by {
            assert forall|a: int, b: int| aset.contains(a) && aset.contains(b) && #[trigger] f(a) == #[trigger] f(b) implies a == b by {
                if a != b {
                    assert(self.entries@[a] != self.entries@[b]);
                }
            }
        }
        vstd::set_lib::lemma_map_size(aset, self.view(), f);
    }

    /// If every slot were reached from `h`, the table would be full.
    proof fn lemma_not_all_active(&self, h: int)
        requires
            0 <= h < self.n(),
            self.num_entries == self.active_set().len(),
            forall|d: int| 0 <= d < self.n() ==> #[trigger] self.active(slot(h, d, self.n())),
        ensures
            self.num_entries >= self.n(),
    {
        let n = self.n();
        assert(set_int_range(0, n).subset_of(self.active_set())) by {
            assert forall|i: int| set_int_range(0, n).contains(i) implies self.active_set().contains(i) by {
                lemma_wrap(h, i, n);
                assert(self.active(slot(h, steps_to(h, i, n), n)));
            }
        }
        vstd::set_lib::lemma_int_range(0, n);
        vstd::set_lib::lemma_len_subset(set_int_range(0, n), self.active_set());
    }

    /// A probe for `h` that passes only other hashes and stops at an empty slot proves `h`
    /// absent.
    proof fn lemma_absent(&self, h: u64, steps: int)
        requires
            self.wf(),
            0 <= steps < self.n(),
            !self.active(slot(self.home(h), steps, self.n())),
            forall|d: int|
                0 <= d < steps ==> #[trigger] self.active(slot(self.home(h), d, self.n()))
                    && self.entries@[slot(self.home(h), d, self.n())] != h,
        ensures
            !self.view().contains(h),
    {
        let n = self.n();
        let hm = self.home(h);
        reveal(ThetaHashTable::layout);
        if self.view().contains(h) {
            let i = choose|i: int| 0 <= i < n && self.entries@[i] != 0 && self.entries@[i] == h;
            lemma_wrap(hm, i, n);
            let di = steps_to(hm, i, n);
            if di < steps {
                lemma_steps(hm, di, n);
                assert(self.active(slot(hm, di, n)) ==> self.entries@[slot(hm, di, n)] != h);
            } else if di > steps {
                lemma_steps(hm, steps, n);
                assert(self.active(slot(hm, steps, n)));
            }
        }
    }

    /// Finds the slot of `h`, or the empty slot where a probe for it stops.
    #[verifier::rlimit(50)]
    fn find(&self, h: u64) -> (r: usize)
        requires
            self.wf(),
            h != 0,
        ensures
            r < self.n(),
            self.active(r as int) ==> self.entries@[r as int] == h,
            !self.active(r as int) ==> !self.view().contains(h),
            forall|d: int|
                0 <= d < steps_to(self.home(h), r as int, self.n()) ==> #[trigger] self.active(
                    slot(self.home(h), d, self.n()),
                ),
    {
        let ghost n = self.n();
        let len = self.entries.len();
        proof {
            lemma_pow2_bounds(5, self.lg_cur_size as nat);
            reveal_with_fuel(pow2, 6);
        }
        let mut probe = (h % (len as u64)) as usize;
        let ghost hm = probe as int;
        let ghost mut steps: int = 0;
        proof {
            lemma_steps(hm, 0, n);
        }
        while self.entries[probe] != 0 && self.entries[probe] != h
            invariant
                self.wf(),
                n == self.n(),
                len == n,
                n >= 2,
                0 <= hm < n,
                hm == self.home(h),
                0 <= steps < n,
                probe < n,
                probe == slot(hm, steps, n),
                forall|d: int|
                    0 <= d < steps ==> #[trigger] self.active(slot(hm, d, n))
                        && self.entries@[slot(hm, d, n)] != h,
            decreases n - steps,
        {
            proof {
                assert(self.active(slot(hm, steps, n)) && self.entries@[slot(hm, steps, n)] != h);
                if steps + 1 == n {
                    assert forall|d: int| 0 <= d < n implies #[trigger] self.active(slot(hm, d, n)) by {
                        if d == steps {
                        }
                    }
                    self.lemma_not_all_active(hm);
                }
                lemma_steps(hm, steps, n);
            }
            probe = (probe + 1) % len;
            proof {
                let prev = steps;
                assert(self.active(slot(hm, prev, n)) && self.entries@[slot(hm, prev, n)] != h);
                steps = steps + 1;
                assert forall|d: int| 0 <= d < steps implies #[trigger] self.active(slot(hm, d, n))
                    && self.entries@[slot(hm, d, n)] != h by {
                    if d < prev {
                    } else {
                        assert(d == prev);
                    }
                }
            }
        }
        proof {
            lemma_steps(hm, steps, n);
            if !self.active(probe as int) {
                self.lemma_absent(h, steps);
            }
        }
        probe
    }

    /// A fresh table of `2^lg_cur_size` empty slots.
    fn with_size(lg_cur_size: u8, lg_nom_size: u8, lg_resize: u8, theta: u64, initial_theta: u64, seed: u64, is_empty: bool) -> (r: Self)
        requires
            MIN_LG_K <= lg_nom_size <= MAX_LG_K,
            MIN_LG_SIZE <= lg_cur_size <= lg_nom_size + 1,
            lg_resize <= 3,
            0 < theta <= MAX_THETA,
            0 < initial_theta <= MAX_THETA,
        ensures
            r.wf(),
            r.view() == Set::<u64>::empty(),
            r.count() == 0,
            r.n() == pow2(lg_cur_size as nat),
            r.lg_cur_size == lg_cur_size,
            r.lg_nom_size == lg_nom_size,
            r.lg_resize == lg_resize,
            r.theta == theta,
            r.initial_theta == initial_theta,
            r.seed == seed,
            r.is_empty == is_empty,
    {
        proof {
            lemma_pow2_usize(lg_cur_size);
        }
        let size = 1usize << lg_cur_size;
        let mut entries: Vec<u64> = Vec::new();
        while entries.len() < size
            invariant
                entries@.len() <= size,
                forall|i: int| 0 <= i < entries@.len() ==> #[trigger] entries@[i] == 0,
            decreases size - entries@.len(),
        {
            entries.push(0);
        }
        let r = ThetaHashTable {
            lg_cur_size,
            lg_nom_size,
            lg_resize,
            theta,
            initial_theta,
            seed,
            is_empty,
            entries,
            num_entries: 0,
        };
        proof {
            assert(r.active_set() =~= Set::<int>::empty());
            assert(r.view() =~= Set::<u64>::empty());
            reveal(ThetaHashTable::layout);
            lemma_pow2_bounds(0, lg_nom_size as nat);
        }
        r
    }

    /// Places `h`, known absent, at the empty slot `p` where its probe stopped.
    fn insert_at(&mut self, h: u64, p: usize)
        requires
            old(self).wf(),
            0 < h < old(self).theta,
            p < old(self).n(),
            !old(self).active(p as int),
            !old(self).view().contains(h),
            forall|d: int|
                0 <= d < steps_to(old(self).home(h), p as int, old(self).n()) ==> #[trigger] old(self).active(slot(old(self).home(h), d, old(self).n())),
            2 * (old(self).count() + 1) <= old(self).n(),
            old(self).count() + 1 <= pow2(old(self).lg_nom_size as nat),
        ensures
            final(self).wf(),
            final(self).view() == old(self).view().insert(h),
            final(self).count() == old(self).count() + 1,
            final(self).n() == old(self).n(),
            final(self).theta == old(self).theta,
            final(self).lg_cur_size == old(self).lg_cur_size,
            final(self).lg_nom_size == old(self).lg_nom_size,
            final(self).lg_resize == old(self).lg_resize,
            final(self).initial_theta == old(self).initial_theta,
            final(self).seed == old(self).seed,
            final(self).is_empty == old(self).is_empty,
    {
        let ghost om = *self;
        let ghost n = self.n();
        proof {
            lemma_pow2_usize(self.lg_cur_size);
        }
        self.entries.set(p, h);
        self.num_entries = self.num_entries + 1;
        proof {
            vstd::set_lib::lemma_int_range(0, n);
            assert(self.active_set() =~= om.active_set().insert(p as int));
            assert(!om.active_set().contains(p as int));
            assert forall|i: int| 0 <= i < n && i != p implies #[trigger] self.entries@[i] == om.entries@[i] by {}
            om.lemma_view(); 
            reveal(ThetaHashTable::layout);
            assert forall|i: int| 0 <= i < n && self.active(i) implies #[trigger] self.entries@[i] < self.theta by {
                if i != p {
                    assert(om.entries@[i] < om.theta);
                }
            }
            assert forall|i: int, j: int|
                #![trigger self.entries@[i], self.entries@[j]]
                0 <= i < n && 0 <= j < n && i != j && self.active(i) && self.active(j) implies self.entries@[i]
                    != self.entries@[j] by {
                if i != p && j != p {
                    assert(om.entries@[i] != om.entries@[j]);
                } else if i == p {
                    assert(om.active(j));
                    assert(om.view().contains(om.entries@[j]));
                } else {
                    assert(om.active(i));
                    assert(om.view().contains(om.entries@[i]));
                }
            }
            assert forall|i: int, d: int|
                0 <= i < n && self.active(i) && 0 <= d < steps_to(self.home(self.entries@[i]), i, n)
                    implies #[trigger] self.active(slot(self.home(self.entries@[i]), d, n)) by {
                let hm = self.home(self.entries@[i]);
                lemma_wrap(hm, i, n);
                lemma_steps(hm, d, n);
                let j = slot(hm, d, n);
                if i != p {
                    assert(om.active(slot(om.home(om.entries@[i]), d, n)));
                } else {
                    assert(om.active(slot(om.home(h), d, n)));
                }
                assert(om.active(j));
                assert(j != p);
            }
            assert(self.layout());
            assert(self.view() =~= om.view().insert(h)) by {
                assert forall|x: u64| self.view().contains(x) implies om.view().insert(h).contains(x) by {
                    let i = choose|i: int| 0 <= i < n && self.entries@[i] != 0 && self.entries@[i] == x;
                    if i != p {
                        assert(om.entries@[i] == x);
                    }
                }
                assert forall|x: u64| om.view().insert(h).contains(x) implies self.view().contains(x) by {
                    if x == h {
                        assert(self.entries@[p as int] == h);
                    } else {
                        let i = choose|i: int| 0 <= i < n && om.entries@[i] != 0 && om.entries@[i] == x;
                        assert(self.entries@[i] == x);
                    }
                }
            }
        }
    }

    closed spec fn kept_slots(&self, i: int, bound: u64) -> Set<int> {
        set_int_range(0, i).filter(|j: int| self.entries@[j] != 0 && self.entries@[j] < bound)
    }

    /// Moves every hash below `bound` into a fresh table of `2^lg` slots.
    fn rebuild(&mut self, lg: u8, bound: u64)
        requires
            old(self).wf(),
            MIN_LG_SIZE <= lg <= old(self).lg_nom_size + 1,
            0 < bound <= old(self).theta,
            2 * old(self).kept_slots(old(self).n(), bound).len() <= pow2(lg as nat),
        ensures
            final(self).wf(),
            final(self).view() == old(self).view().filter(|x: u64| x < bound),
            final(self).count() == old(self).kept_slots(old(self).n(), bound).len(),
            final(self).n() == pow2(lg as nat),
            final(self).lg_cur_size == lg,
            final(self).theta == old(self).theta,
            final(self).lg_nom_size == old(self).lg_nom_size,
            final(self).lg_resize == old(self).lg_resize,
            final(self).initial_theta == old(self).initial_theta,
            final(self).seed == old(self).seed,
            final(self).is_empty == old(self).is_empty,
    {
        let ghost om = *self;
        let ghost n = om.n();
        let mut fresh = Self::with_size(lg, self.lg_nom_size, self.lg_resize, self.theta, self.initial_theta, self.seed, self.is_empty);
        std::mem::swap(self, &mut fresh);
        let len = fresh.entries.len();
        let mut i: usize = 0;
        proof {
            om.lemma_view();
            vstd::set_lib::lemma_int_range(0, n);
            assert(om.kept_slots(0, bound) =~= Set::<int>::empty());
            assert(Set::<u64>::empty() =~= Set::new(|x: u64| exists|j: int| 0 <= j < 0 && om.entries@[j] != 0 && om.entries@[j] == x && x < bound));
            assert(om.kept_slots(n, bound).subset_of(om.active_set()));
            vstd::set_lib::lemma_len_subset(om.kept_slots(n, bound), om.active_set());
        }
        while i < len
            invariant
                om.wf(),
                fresh == om,
                n == om.n(),
                len == n,
                i <= len,
                0 < bound <= om.theta,
                self.wf(),
                self.n() == pow2(lg as nat),
                self.lg_cur_size == lg,
                self.theta == om.theta,
                self.lg_nom_size == om.lg_nom_size,
                self.lg_resize == om.lg_resize,
                self.initial_theta == om.initial_theta,
                self.seed == om.seed,
                self.is_empty == om.is_empty,
                2 * om.kept_slots(n, bound).len() <= pow2(lg as nat),
                om.kept_slots(n, bound).len() <= om.count(),
                self.view() == Set::new(|x: u64| exists|j: int| 0 <= j < i && om.entries@[j] != 0 && om.entries@[j] == x && x < bound),
                self.count() == om.kept_slots(i as int, bound).len(),
            decreases len - i,
        {
            proof {
                vstd::set_lib::lemma_int_range(0, i as int);
                vstd::set_lib::lemma_int_range(0, i + 1);
                vstd::set_lib::lemma_int_range(0, n);
                assert(om.kept_slots(i as int, bound).subset_of(om.kept_slots(n, bound)));
                vstd::set_lib::lemma_len_subset(om.kept_slots(i as int, bound), om.kept_slots(n, bound));
            }
            let x = fresh.entries[i];
            let ghost before = self.view();
            if x != 0 && x < bound {
                proof {
                    assert(om.kept_slots(i + 1, bound) =~= om.kept_slots(i as int, bound).insert(i as int));
                    assert(!om.kept_slots(i as int, bound).contains(i as int));
                    assert(om.kept_slots(i + 1, bound).subset_of(om.kept_slots(n, bound)));
                    vstd::set_lib::lemma_len_subset(om.kept_slots(i + 1, bound), om.kept_slots(n, bound));
                    reveal(ThetaHashTable::layout);
                    assert(!self.view().contains(x)) by {
                        if self.view().contains(x) {
                            let j = choose|j: int| 0 <= j < i && om.entries@[j] != 0 && om.entries@[j] == x && x < bound;
                            assert(om.entries@[j] != om.entries@[i as int]);
                        }
                    }
                    assert(x < om.theta);
                    lemma_pow2_bounds(lg as nat, (om.lg_nom_size + 1) as nat);
                    assert(pow2((om.lg_nom_size + 1) as nat) == 2 * pow2(om.lg_nom_size as nat));
                }
                let p = self.find(x);
                self.insert_at(x, p);
                proof {
                    assert(self.view() =~= Set::new(|y: u64| exists|j: int| 0 <= j < i + 1 && om.entries@[j] != 0 && om.entries@[j] == y && y < bound)) by {
                        assert forall|y: u64| #[trigger] self.view().contains(y) implies exists|j: int| 0 <= j < i + 1 && om.entries@[j] != 0 && om.entries@[j] == y && y < bound by {
                            if y == x {
                                assert(om.entries@[i as int] == y);
                            } else {
                                assert(before.contains(y));
                            }
                        }
                        assert forall|y: u64| (exists|j: int| 0 <= j < i + 1 && om.entries@[j] != 0 && om.entries@[j] == y && y < bound) implies #[trigger] self.view().contains(y) by {
                            let j = choose|j: int| 0 <= j < i + 1 && om.entries@[j] != 0 && om.entries@[j] == y && y < bound;
                            if j < i {
                                assert(before.contains(y));
                            }
                        }
                    }
                }
            } else {
                proof {
                    assert(om.kept_slots(i + 1, bound) =~= om.kept_slots(i as int, bound));
                    assert(self.view() =~= Set::new(|y: u64| exists|j: int| 0 <= j < i + 1 && om.entries@[j] != 0 && om.entries@[j] == y && y < bound)) by {
                        assert forall|y: u64| (exists|j: int| 0 <= j < i + 1 && om.entries@[j] != 0 && om.entries@[j] == y && y < bound) implies #[trigger] self.view().contains(y) by {
                            let j = choose|j: int| 0 <= j < i + 1 && om.entries@[j] != 0 && om.entries@[j] == y && y < bound;
                            assert(j != i);
                        }
                    }
                }
            }
            i = i + 1;
        }
        proof {
            assert(self.view() =~= om.view().filter(|x: u64| x < bound)) by {
                assert forall|y: u64| om.view().filter(|x: u64| x < bound).contains(y) implies #[trigger] self.view().contains(y) by {
                    let j = choose|j: int| 0 <= j < n && om.entries@[j] != 0 && om.entries@[j] == y;
                }
            }
        }
    }

    /// The largest retained hash.
    fn max_entry(&self) -> (r: u64)
        requires
            self.wf(),
            self.count() >= 1,
        ensures
            self.view().contains(r),
            forall|x: u64| #[trigger] self.view().contains(x) ==> x <= r,
    {
        let mut best: u64 = 0;
        let mut i: usize = 0;
        proof {
            self.lemma_view();
            if forall|j: int| 0 <= j < self.n() ==> self.entries@[j] == 0 {
                assert(self.view() =~= Set::<u64>::empty());
            }
        }
        while i < self.entries.len()
            invariant
                self.wf(),
                i <= self.n(),
                best == 0 || self.view().contains(best),
                forall|j: int| 0 <= j < i ==> #[trigger] self.entries@[j] <= best,
            decreases self.n() - i,
        {
            if self.entries[i] > best {
                best = self.entries[i];
            }
            i = i + 1;
        }
        proof {
            assert forall|x: u64| #[trigger] self.view().contains(x) implies x <= best by {
                let j = choose|j: int| 0 <= j < self.n() && self.entries@[j] != 0 && self.entries@[j] == x;
            }
            if best == 0 {
                let x = choose|x: u64| self.view().contains(x);
                let j = choose|j: int| 0 <= j < self.n() && self.entries@[j] != 0 && self.entries@[j] == x;
            }
        }
        best
    }

    /// The nominal size `k`.
    pub open spec fn k(&self) -> int {
        pow2(self.lg_nom_spec() as nat)
    }

    /// Inserts a screened hash `h` (`0 < h < θ`). When that makes `k + 1` hashes, θ drops to
    /// the largest of them, which leaves the table with the `k` smallest.
    pub fn try_insert(&mut self, h: u64)
        requires
            old(self).wf(),
            0 < h < old(self).theta_spec(),
        ensures
            final(self).wf(),
            final(self).lg_nom_spec() == old(self).lg_nom_spec(),
            final(self).seed_spec() == old(self).seed_spec(),
            final(self).initial_theta_spec() == old(self).initial_theta_spec(),
            final(self).empty_spec() == old(self).empty_spec(),
            final(self).theta_spec() <= old(self).theta_spec(),
            final(self).view() == old(self).view().insert(h).filter(
                |x: u64| x < final(self).theta_spec(),
            ),
            (old(self).view().len() < old(self).k() || old(self).view().contains(h)) ==> final(self).theta_spec() == old(self).theta_spec(),
            !(old(self).view().len() < old(self).k() || old(self).view().contains(h)) ==> {
                &&& old(self).view().insert(h).contains(final(self).theta_spec())
                &&& forall|x: u64| #[trigger]
                    old(self).view().insert(h).contains(x) ==> x <= final(self).theta_spec()
            },
    {
        let ghost om = *self;
        proof {
            self.lemma_view();
            lemma_pow2_usize(self.lg_nom_size);
            lemma_pow2_usize(self.lg_cur_size);
            lemma_pow2_usize((self.lg_nom_size + 1) as u8);
            assert(pow2((self.lg_nom_size + 1) as nat) == 2 * pow2(self.lg_nom_size as nat));
            lemma_pow2_bounds(0, self.lg_nom_size as nat);
        }
        let p = self.find(h);
        if self.entries[p] != 0 {
            proof {
                assert(self.view().contains(h));
                assert(self.view().insert(h) =~= self.view());
                assert(self.view().filter(|x: u64| x < self.theta) =~= self.view());
            }
            return ;
        }
        let k = 1usize << self.lg_nom_size;
        if self.num_entries < k {
            if 2 * (self.num_entries + 1) > self.entries.len() {
                let step: u8 = if self.lg_resize == 0 {
                    1
                } else {
                    self.lg_resize
                };
                let lg = if self.lg_cur_size + step > self.lg_nom_size + 1 {
                    self.lg_nom_size + 1
                } else {
                    self.lg_cur_size + step
                };
                proof {
                    vstd::set_lib::lemma_int_range(0, self.n());
                    assert(self.kept_slots(self.n(), self.theta) =~= self.active_set());
                    lemma_pow2_bounds((self.lg_cur_size + 1) as nat, lg as nat);
                    assert(pow2((self.lg_cur_size + 1) as nat) == 2 * pow2(self.lg_cur_size as nat));
                    lemma_pow2_usize(lg);
                }
                let theta = self.theta;
                self.rebuild(lg, theta);
                proof {
                    assert(om.view().filter(|x: u64| x < theta) =~= om.view());
                    self.lemma_view();
                    om.lemma_view();
                    lemma_pow2_bounds(lg as nat, (self.lg_nom_size + 1) as nat);
                    if lg < self.lg_nom_size + 1 {
                        lemma_pow2_bounds((om.lg_cur_size + 1) as nat, lg as nat);
                    }
                }
                let p2 = self.find(h);
                self.insert_at(h, p2);
            } else {
                self.insert_at(h, p);
            }
            proof {
                assert(self.view().filter(|x: u64| x < self.theta) =~= self.view()) by {
                    self.lemma_view();
                }
            }
        } else {
            let m = self.max_entry();
            if h > m {
                let ghost before = *self;
                self.theta = h;
                proof {
                    before.lemma_layout_same(self);
                    assert(self.view() == om.view());
                    assert(om.view().insert(h).filter(|x: u64| x < h) =~= om.view()) by {
                        assert forall|x: u64| om.view().contains(x) implies x < h by {}
                    }
                    reveal(ThetaHashTable::layout);
                    assert forall|i: int| 0 <= i < self.n() && self.active(i) implies #[trigger] self.entries@[i] < self.theta by {
                        assert(om.view().contains(om.entries@[i]));
                    }
                    assert(self.layout());
                }
            } else {
                proof {
                    let j = choose|j: int| 0 <= j < self.n() && self.entries@[j] != 0 && self.entries@[j] == m;
                    vstd::set_lib::lemma_int_range(0, self.n());
                    assert(self.kept_slots(self.n(), m).subset_of(self.active_set().remove(j)));
                    vstd::set_lib::lemma_len_subset(self.kept_slots(self.n(), m), self.active_set().remove(j));
                    assert(h != m) by {
                        assert(!om.view().contains(h));
                    }
                }
                let lg = self.lg_nom_size + 1;
                self.rebuild(lg, m);
                let ghost before = *self;
                self.theta = m;
                proof {
                    before.lemma_layout_same(self);
                    reveal(ThetaHashTable::layout);
                    assert forall|i: int| 0 <= i < self.n() && self.active(i) implies #[trigger] self.entries@[i] < self.theta by {
                        assert(self.view().contains(self.entries@[i]));
                    }
                    assert(self.layout());
                    self.lemma_view();
                    assert(!self.view().contains(h));
                }
                let p2 = self.find(h);
                self.insert_at(h, p2);
                proof {
                    assert(self.view() =~= om.view().insert(h).filter(|x: u64| x < m));
                }
            }
        }
    }

    /// An empty table for nominal size `2^lg_nom_size`, growing by `2^lg_resize` (starting at
    /// full size when that is 1), with threshold `initial_theta`.
    pub fn new(lg_nom_size: u8, lg_resize: u8, initial_theta: u64, seed: u64) -> (r: Self)
        requires
            MIN_LG_K <= lg_nom_size <= MAX_LG_K,
            lg_resize <= 3,
            0 < initial_theta <= MAX_THETA,
        ensures
            r.wf(),
            r.view() == Set::<u64>::empty(),
            r.theta_spec() == initial_theta,
            r.initial_theta_spec() == initial_theta,
            r.lg_nom_spec() == lg_nom_size,
            r.seed_spec() == seed,
            r.empty_spec(),
    {
        let lg_cur = if lg_resize == 0 {
            lg_nom_size + 1
        } else {
            MIN_LG_SIZE
        };
        Self::with_size(lg_cur, lg_nom_size, lg_resize, initial_theta, initial_theta, seed, true)
    }

    /// The hash of `value` if it passes the threshold (nonzero and below θ), else 0.
    pub fn hash_and_screen<T: HashInput>(&self, value: &T) -> (r: u64)
        ensures
            r == if theta_hash(value.key(), self.seed_spec()) == 0 || theta_hash(
                value.key(),
                self.seed_spec(),
            ) >= self.theta_spec() {
                0
            } else {
                theta_hash(value.key(), self.seed_spec())
            },
    {
        let kb = value.key_bytes();
        let h = murmur3_x64_128(kb.as_slice(), self.seed).0 >> 1u64;
        if h == 0 || h >= self.theta {
            0
        } else {
            h
        }
    }

    /// Records that an update reached the table.
    pub fn mark_updated(&mut self)
        requires
            old(self).wf(),
        ensures
            final(self).wf(),
            !final(self).empty_spec(),
            final(self).view() == old(self).view(),
            final(self).theta_spec() == old(self).theta_spec(),
            final(self).lg_nom_spec() == old(self).lg_nom_spec(),
            final(self).seed_spec() == old(self).seed_spec(),
            final(self).initial_theta_spec() == old(self).initial_theta_spec(),
    {
        let ghost before = *self;
        self.is_empty = false;
        proof {
            before.lemma_layout_same(self);
        }
    }

    /// The number of retained hashes.
    pub fn num_entries(&self) -> (r: usize)
        requires
            self.wf(),
        ensures
            r == self.view().len(),
            r <= self.k(),
    {
        proof {
            self.lemma_view();
        }
        self.num_entries
    }

    /// The threshold θ.
    pub fn theta(&self) -> (r: u64)
        ensures
            r == self.theta_spec(),
    {
        self.theta
    }

    /// The hash seed.
    pub fn seed(&self) -> (r: u64)
        ensures
            r == self.seed_spec(),
    {
        self.seed
    }

    /// The base-2 logarithm of the nominal size.
    pub fn lg_nom_size(&self) -> (r: u8)
        ensures
            r == self.lg_nom_spec(),
    {
        self.lg_nom_size
    }

    /// Whether no update ever reached the table.
    pub fn is_empty(&self) -> (r: bool)
        ensures
            r == self.empty_spec(),
    {
        self.is_empty
    }

    /// Keeps at most `k` hashes; the table never holds more, so nothing changes.
    pub fn trim(&mut self)
        requires
            old(self).wf(),
        ensures
            *final(self) == *old(self),
            final(self).view().len() <= final(self).k(),
    {
        proof {
            self.lemma_view();
        }
    }

    /// Back to the state after construction.
    pub fn reset(&mut self)
        requires
            old(self).wf(),
        ensures
            final(self).wf(),
            final(self).view() == Set::<u64>::empty(),
            final(self).theta_spec() == old(self).initial_theta_spec(),
            final(self).initial_theta_spec() == old(self).initial_theta_spec(),
            final(self).lg_nom_spec() == old(self).lg_nom_spec(),
            final(self).seed_spec() == old(self).seed_spec(),
            final(self).empty_spec(),
    {
        *self = Self::new(self.lg_nom_size, self.lg_resize, self.initial_theta, self.seed);
    }

    /// The retained hashes, in slot order.
    pub fn iter(&self) -> (r: Vec<u64>)
        requires
            self.wf(),
        ensures
            r@.len() == self.view().len(),
            forall|i: int| 0 <= i < r@.len() ==> self.view().contains(#[trigger] r@[i]),
            forall|h: u64| #[trigger] self.view().contains(h) ==> r@.contains(h),
            forall|i: int, j: int| 0 <= i < j < r@.len() ==> #[trigger] r@[i] != #[trigger] r@[j],
    {
        let mut out: Vec<u64> = Vec::new();
        let mut i: usize = 0;
        proof {
            self.lemma_view();
            reveal(ThetaHashTable::layout);
            assert(self.kept_slots(0, self.theta) =~= Set::<int>::empty());
            vstd::set_lib::lemma_int_range(0, self.n());
            assert(self.kept_slots(self.n(), self.theta) =~= self.active_set());
        }
        while i < self.entries.len()
            invariant
                self.wf(),
                i <= self.n(),
                self.layout(),
                out@.len() == self.kept_slots(i as int, self.theta).len(),
                forall|q: int| 0 <= q < out@.len() ==> self.seen(#[trigger] out@[q], i as int),
                forall|j: int| 0 <= j < i && self.entries@[j] != 0 ==> out@.contains(#[trigger] self.entries@[j]),
                forall|a: int, b: int| 0 <= a < b < out@.len() ==> #[trigger] out@[a] != #[trigger] out@[b],
            decreases self.n() - i,
        {
            proof {
                vstd::set_lib::lemma_int_range(0, i as int);
                vstd::set_lib::lemma_int_range(0, i + 1);
            }
            let x = self.entries[i];
            let ghost before = out@;
            proof {
                reveal(ThetaHashTable::layout);
            }
            if x != 0 {
                proof {
                    assert(x < self.theta);
                    assert(self.kept_slots(i + 1, self.theta) =~= self.kept_slots(i as int, self.theta).insert(i as int));
                    assert(!self.kept_slots(i as int, self.theta).contains(i as int));
                    assert(!before.contains(x)) by {
                        if before.contains(x) {
                            let q = choose|q: int| 0 <= q < before.len() && before[q] == x;
                            assert(self.seen(before[q], i as int));
                            let j = choose|j: int| 0 <= j < i && self.entries@[j] != 0 && self.entries@[j] == before[q];
                            assert(self.entries@[j] != self.entries@[i as int]);
                        }
                    }
                }
                out.push(x);
                proof {
                    assert forall|q: int| 0 <= q < out@.len() implies self.seen(#[trigger] out@[q], i + 1) by {
                        if q < before.len() {
                            assert(out@[q] == before[q]);
                            assert(self.seen(before[q], i as int));
                            let j = choose|j: int| 0 <= j < i && self.entries@[j] != 0 && self.entries@[j] == before[q];
                            assert(0 <= j < i + 1 && self.entries@[j] != 0 && self.entries@[j] == out@[q]);
                        } else {
                            assert(self.entries@[i as int] == out@[q]);
                        }
                    }
                    assert forall|j: int| 0 <= j < i + 1 && self.entries@[j] != 0 implies out@.contains(#[trigger] self.entries@[j]) by {
                        if j < i {
                            let q = choose|q: int| 0 <= q < before.len() && before[q] == self.entries@[j];
                            assert(out@[q] == before[q]);
                        } else {
                            assert(out@[before.len() as int] == x);
                        }
                    }
                    assert forall|a: int, b: int| 0 <= a < b < out@.len() implies #[trigger] out@[a] != #[trigger] out@[b] by {
                        if b == before.len() {
                            assert(out@[a] == before[a]);
                            assert(before.contains(before[a]));
                        } else {
                            assert(out@[a] == before[a] && out@[b] == before[b]);
                        }
                    }
                }
            } else {
                proof {
                    assert(self.kept_slots(i + 1, self.theta) =~= self.kept_slots(i as int, self.theta));
                    assert forall|q: int| 0 <= q < out@.len() implies self.seen(#[trigger] out@[q], i + 1) by {
                        assert(self.seen(out@[q], i as int));
                        let j = choose|j: int| 0 <= j < i && self.entries@[j] != 0 && self.entries@[j] == out@[q];
                        assert(0 <= j < i + 1 && self.entries@[j] != 0 && self.entries@[j] == out@[q]);
                    }
                }
            }
            i = i + 1;
        }
        proof {
            assert forall|i: int| 0 <= i < out@.len() implies self.view().contains(#[trigger] out@[i]) by {
                assert(self.seen(out@[i], self.n()));
                let j = choose|j: int| 0 <= j < self.n() && self.entries@[j] != 0 && self.entries@[j] == out@[i];
            }
            assert forall|h: u64| #[trigger] self.view().contains(h) implies out@.contains(h) by {
                let j = choose|j: int| 0 <= j < self.n() && self.entries@[j] != 0 && self.entries@[j] == h;
            }
        }
        out
    }

    /// The table's parameters lie in their ranges.
    pub proof fn lemma_params(&self)
        requires
            self.wf(),
        ensures
            MIN_LG_K <= self.lg_nom_spec() <= MAX_LG_K,
            0 < self.theta_spec() <= MAX_THETA,
    {
    }

    /// Every retained hash lies strictly between 0 and θ, and there are at most `k` of them.
    pub proof fn lemma_retained(&self)
        requires
            self.wf(),
        ensures
            self.view().finite(),
            self.view().len() <= self.k(),
            forall|h: u64| #[trigger] self.view().contains(h) ==> 0 < h < self.theta_spec(),
    {
        self.lemma_view();
    }
}

/// `2^n`.
pub open spec fn pow2(n: nat) -> int
    decreases n,
{
    if n == 0 {
        1
    } else {
        2 * pow2((n - 1) as nat)
    }
}

pub proof fn lemma_pow2_bounds(a: nat, b: nat)
    requires
        a <= b,
    ensures
        1 <= pow2(a) <= pow2(b),
    decreases b,
{
    if a < b {
        lemma_pow2_bounds(a, (b - 1) as nat);
    } else if a > 0 {
        lemma_pow2_bounds((a - 1) as nat, (a - 1) as nat);
    }
}

proof fn lemma_pow2_27()
    ensures
        pow2(27) == 0x800_0000,
{
    reveal_with_fuel(pow2, 28);
}

proof fn lemma_pow2_usize(l: u8)
    requires
        l <= 27,
    ensures
        (1usize << l) as int == pow2(l as nat),
        pow2(l as nat) <= 0x800_0000,
    decreases l,
{
    if l == 0 {
        assert((1usize << 0u8) == 1) by (bit_vector);
    } else {
        let m = (l - 1) as u8;
        lemma_pow2_usize(m);
        assert((1usize << l) == 2 * (1usize << m)) by (bit_vector)
            requires
                l <= 27,
                m == l - 1,
        ;
    }
    lemma_pow2_bounds(l as nat, 27);
    lemma_pow2_27();
}

} // verus!
