//! A linear-probing set of `(row, column)` pairs packed into `u32`s, for sparse CPC data. The
//! home slot of an item is its top `lg_size` valid bits, so the table keeps items nearly sorted.
use vstd::prelude::*;
use vstd::set_lib::set_int_range;

use crate::probe::lemma_steps;
use crate::probe::lemma_wrap;
use crate::probe::slot;
use crate::probe::steps_to;
use crate::theta::hash_table::lemma_pow2_bounds;
use crate::theta::hash_table::pow2;

verus! {

/// The empty-slot marker.
pub const EMPTY: u32 = 0xffff_ffff;

/// The table grows when more than `3/4` of it is used.
pub const UPSIZE_NUMERATOR: u32 = 3;

pub const UPSIZE_DENOMINATOR: u32 = 4;

/// The table shrinks when less than `1/4` of it is used.
pub const DOWNSIZE_NUMERATOR: u32 = 1;

pub const DOWNSIZE_DENOMINATOR: u32 = 4;

/// `item` has no bits at or above bit `num_valid_bits`, and is not the empty marker.
pub open spec fn valid_item(item: u32, num_valid_bits: u8) -> bool {
    item != EMPTY && ((item as u64) >> (num_valid_bits as u64)) == 0
}

/// The home slot of `item` in a table of `2^lg_size` slots.
pub open spec fn home_of(item: u32, lg_size: u8, num_valid_bits: u8) -> int {
    (item >> ((num_valid_bits - lg_size) as u32)) as int
}

proof fn lemma_home_bound(item: u32, lg: u8, nvb: u8)
    requires
        2 <= lg <= 26,
        lg + 1 <= nvb <= 32,
        ((item as u64) >> (nvb as u64)) == 0,
    ensures
        0 <= home_of(item, lg, nvb) < pow2(lg as nat),
{
    let s = (nvb - lg) as u32;
    let l = lg as u64;
    let v = nvb as u64;
    assert(((item >> s) as u64) < (1u64 << l)) by (bit_vector)
        requires
            2 <= l <= 26,
            l + 1 <= v <= 32,
            s as u64 == v - l,
            ((item as u64) >> v) == 0,
    ;
    lemma_pow2_u64(l);
}

proof fn lemma_pow2_u64(l: u64)
    requires
        l <= 32,
    ensures
        (1u64 << l) as int == pow2(l as nat),
    decreases l,
{
    if l == 0 {
        assert((1u64 << 0u64) == 1) by (bit_vector);
    } else {
        let m = (l - 1) as u64;
        lemma_pow2_u64(m);
        assert((1u64 << l) == 2 * (1u64 << m)) by (bit_vector)
            requires
                l <= 32,
                m == l - 1,
        ;
    }
}

/// Linear-probing set of packed pairs.
pub struct PairTable {
    lg_size: u8,
    num_valid_bits: u8,
    num_items: u32,
    slots: Vec<u32>,
}

impl PairTable {
    pub closed spec fn n(&self) -> int {
        self.slots@.len() as int
    }

    pub closed spec fn lg_spec(&self) -> u8 {
        self.lg_size
    }

    pub closed spec fn valid_bits_spec(&self) -> u8 {
        self.num_valid_bits
    }

    /// The slot array.
    pub closed spec fn slots_spec(&self) -> Seq<u32> {
        self.slots@
    }

    closed spec fn active(&self, i: int) -> bool {
        self.slots@[i] != EMPTY
    }

    closed spec fn home(&self, x: u32) -> int {
        home_of(x, self.lg_size, self.num_valid_bits)
    }

    closed spec fn active_set(&self) -> Set<int> {
        set_int_range(0, self.n()).filter(|i: int| self.slots@[i] != EMPTY)
    }

    /// The items held.
    pub closed spec fn view(&self) -> Set<u32> {
        Set::new(|x: u32| exists|i: int| 0 <= i < self.n() && self.slots@[i] != EMPTY && self.slots@[i] == x)
    }

    /// Hash `x` sits in one of the first `i` slots.
    closed spec fn seen(&self, x: u32, i: int) -> bool {
        exists|j: int| 0 <= j < i && self.slots@[j] != EMPTY && self.slots@[j] == x
    }

    pub closed spec fn count(&self) -> int {
        self.num_items as int
    }

    pub closed spec fn wf(&self) -> bool {
        let n = self.n();
        &&& 2 <= self.lg_size <= 26
        &&& self.lg_size + 1 <= self.num_valid_bits <= 32
        &&& n == pow2(self.lg_size as nat)
        &&& self.num_items == self.active_set().len()
        &&& 4 * self.num_items <= 3 * n
        &&& forall|i: int| 0 <= i < n && self.active(i) ==> valid_item(#[trigger] self.slots@[i], self.num_valid_bits)
        &&& self.layout()
    }

    /// Items are unique, and each sits after an unbroken run of occupied slots from its home.
    #[verifier::opaque]
    closed spec fn layout(&self) -> bool {
        let n = self.n();
        &&& forall|i: int, j: int|
            #![trigger self.slots@[i], self.slots@[j]]
            0 <= i < n && 0 <= j < n && i != j && self.active(i) && self.active(j) ==> self.slots@[i]
                != self.slots@[j]
        &&& forall|i: int, d: int|
            0 <= i < n && self.active(i) && 0 <= d < steps_to(self.home(self.slots@[i]), i, n)
                ==> #[trigger] self.active(slot(self.home(self.slots@[i]), d, n))
    }

    /// The table's public shape: its slots, the items they hold, and its load.
    pub proof fn lemma_shape(&self)
        requires
            self.wf(),
        ensures
            self.n() == self.slots_spec().len(),
            self.n() == pow2(self.lg_spec() as nat),
            2 <= self.lg_spec() <= 26,
            forall|x: u32| #[trigger] self.view().contains(x) <==> x != EMPTY && self.slots_spec().contains(x),
            self.view().finite(),
            4 * self.view().len() <= 3 * self.n(),
    {
        self.lemma_view();
        assert forall|x: u32| #[trigger] self.view().contains(x) <==> x != EMPTY && self.slots_spec().contains(x) by {
            if x != EMPTY && self.slots_spec().contains(x) {
                let i = choose|i: int| 0 <= i < self.slots@.len() && self.slots@[i] == x;
            }
        }
    }

    proof fn lemma_view(&self)
        requires
            self.wf(),
        ensures
            forall|i: int| 0 <= i < self.n() && self.active(i) ==> #[trigger] self.view().contains(self.slots@[i]),
            forall|x: u32| #[trigger] self.view().contains(x) ==> valid_item(x, self.num_valid_bits),
            self.view().finite(),
            self.view().len() == self.count(),
    {
        reveal(PairTable::layout);
        let n = self.n();
        assert forall|x: u32| #[trigger] self.view().contains(x) implies valid_item(x, self.num_valid_bits) by {
            let i = choose|i: int| 0 <= i < n && self.slots@[i] != EMPTY && self.slots@[i] == x;
        }
        vstd::set_lib::lemma_int_range(0, n);
        let f = |i: int| self.slots@[i];
        let aset = self.active_set();
        assert(aset.map(f) =~= self.view()) by {
            assert forall|x: u32| self.view().contains(x) implies aset.map(f).contains(x) by {
                let i = choose|i: int| 0 <= i < n && self.slots@[i] != EMPTY && self.slots@[i] == x;
                assert(aset.contains(i));
            }
        }
        assert(vstd::relations::injective_on(f, aset)) by {
            assert forall|a: int, b: int| aset.contains(a) && aset.contains(b) && #[trigger] f(a) == #[trigger] f(b) implies a == b by {
                if a != b {
                    assert(self.slots@[a] != self.slots@[b]);
                }
            }
        }
        vstd::set_lib::lemma_map_size(aset, self.view(), f);
    }

    proof fn lemma_not_all_active(&self, h: int)
        requires
            0 <= h < self.n(),
            self.num_items == self.active_set().len(),
            forall|d: int| 0 <= d < self.n() ==> #[trigger] self.active(slot(h, d, self.n())),
        ensures
            self.num_items >= self.n(),
    {
        let n = self.n();
        assert(set_int_range(0, n).subset_of(self.active_set())) by {
            assert forall|i: int| set_int_range(0, n).contains(i) implies self.active_set().contains(i) by {
                lemma_wrap(h, i, n);
                assert(self.active(slot(h, steps_to(h, i, n), n)));
            }
        }
        vstd::set_lib::lemma_int_range(0, n);
        vstd::set_lib::lemma_len_subset(set_int_range(0, n), self.active_set());
    }

    proof fn lemma_absent(&self, x: u32, steps: int)
        requires
            self.wf(),
            0 <= self.home(x) < self.n(),
            0 <= steps < self.n(),
            !self.active(slot(self.home(x), steps, self.n())),
            forall|d: int|
                0 <= d < steps ==> #[trigger] self.active(slot(self.home(x), d, self.n()))
                    && self.slots@[slot(self.home(x), d, self.n())] != x,
        ensures
            !self.view().contains(x),
    {
        let n = self.n();
        let hm = self.home(x);
        reveal(PairTable::layout);
        if self.view().contains(x) {
            let i = choose|i: int| 0 <= i < n && self.slots@[i] != EMPTY && self.slots@[i] == x;
            lemma_wrap(hm, i, n);
            let di = steps_to(hm, i, n);
            if di < steps {
                lemma_steps(hm, di, n);
                assert(self.active(slot(hm, di, n)) ==> self.slots@[slot(hm, di, n)] != x);
            } else if di > steps {
                lemma_steps(hm, steps, n);
                assert(self.active(slot(hm, steps, n)));
            }
        }
    }

    /// The slot of `item`, or the empty slot where a probe for it stops.
    #[verifier::rlimit(50)]
    fn lookup(&self, item: u32) -> (r: u32)
        requires
            self.wf(),
            valid_item(item, self.num_valid_bits),
        ensures
            r < self.n(),
            self.active(r as int) ==> self.slots@[r as int] == item,
            !self.active(r as int) ==> !self.view().contains(item),
            0 <= self.home(item) < self.n(),
            forall|d: int|
                0 <= d < steps_to(self.home(item), r as int, self.n()) ==> #[trigger] self.active(
                    slot(self.home(item), d, self.n()),
                ),
    {
        let ghost n = self.n();
        proof {
            lemma_home_bound(item, self.lg_size, self.num_valid_bits);
            lemma_pow2_bounds(2, self.lg_size as nat);
            reveal_with_fuel(pow2, 3);
            lemma_pow2_bounds(self.lg_size as nat, 26);
            lemma_pow2_26();
        }
        let len = self.slots.len();
        let shift = (self.num_valid_bits - self.lg_size) as u32;
        let mut probe = (item >> shift) as usize;
        let ghost hm = probe as int;
        let ghost mut steps: int = 0;
        proof {
            lemma_steps(hm, 0, n);
        }
        while self.slots[probe] != item && self.slots[probe] != EMPTY
            invariant
                self.wf(),
                n == self.n(),
                len == n,
                n >= 4,
                n <= 0x400_0000,
                0 <= hm < n,
                hm == self.home(item),
                0 <= steps < n,
                probe < n,
                probe == slot(hm, steps, n),
                valid_item(item, self.num_valid_bits),
                forall|d: int|
                    0 <= d < steps ==> #[trigger] self.active(slot(hm, d, n))
                        && self.slots@[slot(hm, d, n)] != item,
            decreases n - steps,
        {
            proof {
                assert(self.active(slot(hm, steps, n)) && self.slots@[slot(hm, steps, n)] != item);
                if steps + 1 == n {
                    assert forall|d: int| 0 <= d < n implies #[trigger] self.active(slot(hm, d, n)) by {
                        if d == steps {
                        }
                    }
                    self.lemma_not_all_active(hm);
                }
                lemma_steps(hm, steps, n);
            }
            probe = (probe + 1) % len;
            proof {
                let prev = steps;
                assert(self.active(slot(hm, prev, n)) && self.slots@[slot(hm, prev, n)] != item);
                steps = steps + 1;
                assert forall|d: int| 0 <= d < steps implies #[trigger] self.active(slot(hm, d, n))
                    && self.slots@[slot(hm, d, n)] != item by {
                    if d < prev {
                    } else {
                        assert(d == prev);
                    }
                }
            }
        }
        proof {
            lemma_steps(hm, steps, n);
            if !self.active(probe as int) {
                self.lemma_absent(item, steps);
            }
        }
        probe as u32
    }

    proof fn lemma_layout_same(&self, other: &Self)
        requires
            self.layout(),
            self.slots@ == other.slots@,
            self.lg_size == other.lg_size,
            self.num_valid_bits == other.num_valid_bits,
        ensures
            other.layout(),
    {
        reveal(PairTable::layout);
        let n = self.n();
        assert forall|i: int, j: int|
            #![trigger other.slots@[i], other.slots@[j]]
            0 <= i < n && 0 <= j < n && i != j && other.active(i) && other.active(j) implies other.slots@[i]
                != other.slots@[j] by {
            assert(self.slots@[i] != self.slots@[j]);
        }
        assert forall|i: int, d: int|
            0 <= i < n && other.active(i) && 0 <= d < steps_to(other.home(other.slots@[i]), i, n)
                implies #[trigger] other.active(slot(other.home(other.slots@[i]), d, n)) by {
            assert(self.active(slot(self.home(self.slots@[i]), d, n)));
        }
    }

    /// A table of `2^lg_size` empty slots for items of `num_valid_bits` bits.
    pub fn new(lg_size: u8, num_valid_bits: u8) -> (r: Self)
        requires
            2 <= lg_size <= 26,
            lg_size + 1 <= num_valid_bits <= 32,
        ensures
            r.wf(),
            r.view() == Set::<u32>::empty(),
            r.count() == 0,
            r.lg_spec() == lg_size,
            r.valid_bits_spec() == num_valid_bits,
            r.n() == pow2(lg_size as nat),
            forall|i: int| 0 <= i < r.n() ==> #[trigger] r.slots_spec()[i] == EMPTY,
    {
        proof {
            lemma_pow2_u64(lg_size as u64);
            lemma_pow2_bounds(lg_size as nat, 26);
            lemma_pow2_26();
        }
        let size = 1usize << lg_size;
        proof {
            let l = lg_size as u64;
            assert((1usize << lg_size) as u64 == (1u64 << l)) by (bit_vector)
                requires
                    l == lg_size,
                    l <= 26,
            ;
        }
        let mut slots: Vec<u32> = Vec::new();
        while slots.len() < size
            invariant
                slots@.len() <= size,
                forall|i: int| 0 <= i < slots@.len() ==> #[trigger] slots@[i] == EMPTY,
            decreases size - slots@.len(),
        {
            slots.push(EMPTY);
        }
        let r = PairTable { lg_size, num_valid_bits, num_items: 0, slots };
        proof {
            assert(r.active_set() =~= Set::<int>::empty());
            assert(r.view() =~= Set::<u32>::empty());
            reveal(PairTable::layout);
        }
        r
    }

    /// Places `item`, known absent, where its probe stops.
    fn must_insert(&mut self, item: u32)
        requires
            old(self).wf(),
            valid_item(item, old(self).num_valid_bits),
            !old(self).view().contains(item),
            4 * (old(self).count() + 1) <= 3 * old(self).n(),
        ensures
            final(self).wf(),
            final(self).view() == old(self).view().insert(item),
            final(self).count() == old(self).count() + 1,
            final(self).n() == old(self).n(),
            final(self).lg_size == old(self).lg_size,
            final(self).num_valid_bits == old(self).num_valid_bits,
    {
        let p = self.lookup(item) as usize;
        let ghost om = *self;
        let ghost n = self.n();
        proof {
            lemma_pow2_bounds(self.lg_size as nat, 26);
            lemma_pow2_26();
        }
        self.slots.set(p, item);
        self.num_items = self.num_items + 1;
        proof {
            vstd::set_lib::lemma_int_range(0, n);
            assert(self.active_set() =~= om.active_set().insert(p as int));
            assert(!om.active_set().contains(p as int));
            assert forall|i: int| 0 <= i < n && i != p implies #[trigger] self.slots@[i] == om.slots@[i] by {}
            om.lemma_view();
            reveal(PairTable::layout);
            assert forall|i: int| 0 <= i < n && self.active(i) implies valid_item(#[trigger] self.slots@[i], self.num_valid_bits) by {
                if i != p {
                    assert(om.active(i));
                }
            }
            assert forall|i: int, j: int|
                #![trigger self.slots@[i], self.slots@[j]]
                0 <= i < n && 0 <= j < n && i != j && self.active(i) && self.active(j) implies self.slots@[i]
                    != self.slots@[j] by {
                if i != p && j != p {
                    assert(om.slots@[i] != om.slots@[j]);
                } else if i == p {
                    assert(om.active(j));
                    assert(om.view().contains(om.slots@[j]));
                } else {
                    assert(om.active(i));
                    assert(om.view().contains(om.slots@[i]));
                }
            }
            assert forall|i: int, d: int|
                0 <= i < n && self.active(i) && 0 <= d < steps_to(self.home(self.slots@[i]), i, n)
                    implies #[trigger] self.active(slot(self.home(self.slots@[i]), d, n)) by {
                let x = self.slots@[i];
                let hm = self.home(x);
                lemma_home_bound(x, self.lg_size, self.num_valid_bits);
                lemma_wrap(hm, i, n);
                lemma_steps(hm, d, n);
                let j = slot(hm, d, n);
                if i != p {
                    assert(om.active(slot(om.home(om.slots@[i]), d, n)));
                } else {
                    assert(om.active(slot(om.home(item), d, n)));
                }
                assert(om.active(j));
                assert(j != p);
            }
            assert(self.layout());
            assert(self.view() =~= om.view().insert(item)) by {
                assert forall|x: u32| self.view().contains(x) implies om.view().insert(item).contains(x) by {
                    let i = choose|i: int| 0 <= i < n && self.slots@[i] != EMPTY && self.slots@[i] == x;
                    if i != p {
                        assert(om.slots@[i] == x);
                    }
                }
                assert forall|x: u32| om.view().insert(item).contains(x) implies self.view().contains(x) by {
                    if x == item {
                        assert(self.slots@[p as int] == item);
                    } else {
                        let i = choose|i: int| 0 <= i < n && om.slots@[i] != EMPTY && om.slots@[i] == x;
                        assert(self.slots@[i] == x);
                    }
                }
            }
        }
    }

    closed spec fn kept_slots(&self, i: int, skip: u32) -> Set<int> {
        set_int_range(0, i).filter(|j: int| self.slots@[j] != EMPTY && self.slots@[j] != skip)
    }

    /// Moves every item but `skip` into a fresh table of `2^lg` slots.
    fn rebuild(&mut self, lg: u8, skip: u32)
        requires
            old(self).wf(),
            2 <= lg <= 26,
            lg + 1 <= old(self).num_valid_bits,
            4 * old(self).kept_slots(old(self).n(), skip).len() <= 3 * pow2(lg as nat),
        ensures
            final(self).wf(),
            final(self).view() == old(self).view().remove(skip),
            final(self).count() == old(self).kept_slots(old(self).n(), skip).len(),
            final(self).n() == pow2(lg as nat),
            final(self).lg_size == lg,
            final(self).num_valid_bits == old(self).num_valid_bits,
    {
        let ghost om = *self;
        let ghost n = om.n();
        let mut fresh = Self::new(lg, self.num_valid_bits);
        std::mem::swap(self, &mut fresh);
        let len = fresh.slots.len();
        let mut i: usize = 0;
        proof {
            om.lemma_view();
            vstd::set_lib::lemma_int_range(0, n);
            assert(om.kept_slots(0, skip) =~= Set::<int>::empty());
            assert(Set::<u32>::empty() =~= Set::new(|x: u32| exists|j: int| 0 <= j < 0 && om.slots@[j] != EMPTY && om.slots@[j] == x && x != skip));
        }
        while i < len
            invariant
                om.wf(),
                fresh == om,
                n == om.n(),
                len == n,
                i <= len,
                self.wf(),
                self.n() == pow2(lg as nat),
                self.lg_size == lg,
                self.num_valid_bits == om.num_valid_bits,
                4 * om.kept_slots(n, skip).len() <= 3 * pow2(lg as nat),
                self.view() == Set::new(|x: u32| exists|j: int| 0 <= j < i && om.slots@[j] != EMPTY && om.slots@[j] == x && x != skip),
                self.count() == om.kept_slots(i as int, skip).len(),
            decreases len - i,
        {
            proof {
                vstd::set_lib::lemma_int_range(0, i as int);
                vstd::set_lib::lemma_int_range(0, i + 1);
                vstd::set_lib::lemma_int_range(0, n);
                assert(om.kept_slots(i as int, skip).subset_of(om.kept_slots(n, skip)));
                vstd::set_lib::lemma_len_subset(om.kept_slots(i as int, skip), om.kept_slots(n, skip));
            }
            let x = fresh.slots[i];
            let ghost before = self.view();
            if x != EMPTY && x != skip {
                proof {
                    assert(om.kept_slots(i + 1, skip) =~= om.kept_slots(i as int, skip).insert(i as int));
                    assert(!om.kept_slots(i as int, skip).contains(i as int));
                    assert(om.kept_slots(i + 1, skip).subset_of(om.kept_slots(n, skip)));
                    vstd::set_lib::lemma_len_subset(om.kept_slots(i + 1, skip), om.kept_slots(n, skip));
                    reveal(PairTable::layout);
                    assert(!self.view().contains(x)) by {
                        if self.view().contains(x) {
                            let j = choose|j: int| 0 <= j < i && om.slots@[j] != EMPTY && om.slots@[j] == x && x != skip;
                            assert(om.slots@[j] != om.slots@[i as int]);
                        }
                    }
                    assert(valid_item(x, om.num_valid_bits));
                }
                self.must_insert(x);
                proof {
                    assert(self.view() =~= Set::new(|y: u32| exists|j: int| 0 <= j < i + 1 && om.slots@[j] != EMPTY && om.slots@[j] == y && y != skip)) by {
                        assert forall|y: u32| #[trigger] self.view().contains(y) implies exists|j: int| 0 <= j < i + 1 && om.slots@[j] != EMPTY && om.slots@[j] == y && y != skip by {
                            if y == x {
                                assert(om.slots@[i as int] == y);
                            } else {
                                assert(before.contains(y));
                            }
                        }
                        assert forall|y: u32| (exists|j: int| 0 <= j < i + 1 && om.slots@[j] != EMPTY && om.slots@[j] == y && y != skip) implies #[trigger] self.view().contains(y) by {
                            let j = choose|j: int| 0 <= j < i + 1 && om.slots@[j] != EMPTY && om.slots@[j] == y && y != skip;
                            if j < i {
                                assert(before.contains(y));
                            }
                        }
                    }
                }
            } else {
                proof {
                    assert(om.kept_slots(i + 1, skip) =~= om.kept_slots(i as int, skip));
                    assert(self.view() =~= Set::new(|y: u32| exists|j: int| 0 <= j < i + 1 && om.slots@[j] != EMPTY && om.slots@[j] == y && y != skip)) by {
                        assert forall|y: u32| (exists|j: int| 0 <= j < i + 1 && om.slots@[j] != EMPTY && om.slots@[j] == y && y != skip) implies #[trigger] self.view().contains(y) by {
                            let j = choose|j: int| 0 <= j < i + 1 && om.slots@[j] != EMPTY && om.slots@[j] == y && y != skip;
                            assert(j != i);
                        }
                    }
                }
            }
            i = i + 1;
        }
        proof {
            assert(self.view() =~= om.view().remove(skip)) by {
                assert forall|y: u32| om.view().remove(skip).contains(y) implies #[trigger] self.view().contains(y) by {
                    let j = choose|j: int| 0 <= j < n && om.slots@[j] != EMPTY && om.slots@[j] == y;
                }
            }
        }
    }

    /// The base-2 logarithm of the largest table for items of this many bits.
    pub open spec fn max_lg(&self) -> nat {
        if self.valid_bits_spec() - 1 < 26 {
            (self.valid_bits_spec() - 1) as nat
        } else {
            26
        }
    }

    /// Adds `item`; returns whether it was absent.
    pub fn maybe_insert(&mut self, item: u32) -> (r: bool)
        requires
            old(self).wf(),
            valid_item(item, old(self).valid_bits_spec()),
            4 * (old(self).count() + 1) <= 3 * pow2(old(self).max_lg()),
        ensures
            final(self).wf(),
            r == !old(self).view().contains(item),
            final(self).view() == old(self).view().insert(item),
            final(self).valid_bits_spec() == old(self).valid_bits_spec(),
            4 * final(self).view().len() <= 3 * final(self).n(),
    {
        let index = self.lookup(item) as usize;
        if self.slots[index] == item {
            proof {
                self.lemma_view();
                assert(self.view().insert(item) =~= self.view());
            }
            return false;
        }
        proof {
            self.lemma_view();
            lemma_pow2_u64(self.lg_size as u64);
            lemma_pow2_bounds(self.lg_size as nat, 26);
            lemma_pow2_26();
        }
        if UPSIZE_DENOMINATOR * (self.num_items + 1) > UPSIZE_NUMERATOR * (self.slots.len() as u32) {
            let lg = self.lg_size + 1;
            proof {
                if lg > self.max_lg() {
                    lemma_pow2_bounds(self.max_lg(), self.lg_size as nat);
                }
                assert(pow2(lg as nat) == 2 * pow2(self.lg_size as nat));
                vstd::set_lib::lemma_int_range(0, self.n());
                assert(self.kept_slots(self.n(), EMPTY) =~= self.active_set());
                assert(!self.view().contains(EMPTY));
                assert(self.view().remove(EMPTY) =~= self.view());
            }
            self.rebuild(lg, EMPTY);
        }
        self.must_insert(item);
        proof {
            self.lemma_view();
        }
        true
    }

    /// Removes `item`; returns whether it was present. The table halves while under a quarter
    /// full.
    pub fn maybe_delete(&mut self, item: u32) -> (r: bool)
        requires
            old(self).wf(),
            valid_item(item, old(self).valid_bits_spec()),
        ensures
            final(self).wf(),
            r == old(self).view().contains(item),
            final(self).view() == old(self).view().remove(item),
            final(self).valid_bits_spec() == old(self).valid_bits_spec(),
            r ==> final(self).lg_spec() == 2 || 4 * final(self).view().len() >= final(self).n(),
            !r ==> final(self).n() == old(self).n(),
    {
        let index = self.lookup(item) as usize;
        if self.slots[index] == EMPTY {
            proof {
                assert(self.view().remove(item) =~= self.view());
            }
            return false;
        }
        let ghost om = *self;
        proof {
            self.lemma_view();
            vstd::set_lib::lemma_int_range(0, self.n());
            assert(self.kept_slots(self.n(), item) =~= self.active_set().remove(index as int)) by {
                reveal(PairTable::layout);
            }
            lemma_pow2_u64(self.lg_size as u64);
            lemma_pow2_bounds(self.lg_size as nat, 26);
            lemma_pow2_26();
        }
        let remaining = self.num_items - 1;
        let mut lg = self.lg_size;
        let mut size: u32 = self.slots.len() as u32;
        while DOWNSIZE_DENOMINATOR * remaining < DOWNSIZE_NUMERATOR * size && lg > 2
            invariant
                2 <= lg <= om.lg_size,
                remaining == om.num_items - 1,
                size as int == pow2(lg as nat),
                4 * remaining <= 3 * pow2(lg as nat),
                remaining < 0x400_0000,
            decreases lg,
        {
            proof {
                assert(pow2(lg as nat) == 2 * pow2((lg - 1) as nat));
            }
            lg = lg - 1;
            size = size / 2;
        }
        self.rebuild(lg, item);
        proof {
            self.lemma_view();
        }
        true
    }

    /// Empties the table, keeping its size.
    pub fn clear(&mut self)
        requires
            old(self).wf(),
        ensures
            final(self).wf(),
            final(self).view() == Set::<u32>::empty(),
            final(self).n() == old(self).n(),
            final(self).valid_bits_spec() == old(self).valid_bits_spec(),
    {
        *self = Self::new(self.lg_size, self.num_valid_bits);
    }

    /// The slot array, with `u32::MAX` in empty slots.
    pub fn slots(&self) -> (r: &[u32])
        ensures
            r@ == self.slots_spec(),
    {
        self.slots.as_slice()
    }

    /// A table holding the first `num_items` entries of `slots`, sized for them.
    pub fn from_slots(lg_size: u8, num_items: u32, slots: Vec<u32>) -> (r: Self)
        requires
            lg_size <= 26,
            num_items <= slots@.len(),
            4 * num_items <= 3 * pow2(if 6 + lg_size - 1 < 26 {
                (6 + lg_size - 1) as nat
            } else {
                26
            }),
            forall|i: int| 0 <= i < num_items ==> valid_item(#[trigger] slots@[i], (6 + lg_size) as u8),
            forall|i: int, j: int| 0 <= i < j < num_items ==> #[trigger] slots@[i] != #[trigger] slots@[j],
        ensures
            r.wf(),
            r.valid_bits_spec() == 6 + lg_size,
            r.view() == slots@.subrange(0, num_items as int).to_set(),
            r.lg_spec() == 2 || 4 * num_items > 3 * pow2((r.lg_spec() - 1) as nat),
    {
        let nvb = 6 + lg_size;
        let mut lg_num_slots: u8 = 2;
        proof {
            lemma_pow2_u64(2);
            reveal_with_fuel(pow2, 3);
            lemma_pow2_bounds(2, 26);
            lemma_pow2_26();
        }
        let ghost limit: nat = if 6 + lg_size - 1 < 26 {
            (6 + lg_size - 1) as nat
        } else {
            26
        };
        while (UPSIZE_DENOMINATOR as u64) * (num_items as u64) > (UPSIZE_NUMERATOR as u64) * (1u64 << lg_num_slots)
            invariant
                2 <= lg_num_slots <= limit,
                (1u64 << lg_num_slots) as int == pow2(lg_num_slots as nat),
                pow2(lg_num_slots as nat) <= 0x400_0000,
                limit <= 26,
                limit <= nvb - 1,
                nvb == 6 + lg_size,
                4 * num_items <= 3 * pow2(limit),
                lg_num_slots == 2 || 4 * num_items > 3 * pow2((lg_num_slots - 1) as nat),
            decreases limit - lg_num_slots,
        {
            proof {
                lemma_pow2_u64(lg_num_slots as u64);
                if lg_num_slots >= limit {
                    lemma_pow2_bounds(limit, lg_num_slots as nat);
                }
            }
            let ghost prev = lg_num_slots;
            lg_num_slots = lg_num_slots + 1;
            proof {
                assert(4 * num_items > 3 * pow2(prev as nat));
                lemma_pow2_u64(lg_num_slots as u64);
                lemma_pow2_bounds(lg_num_slots as nat, 26);
                lemma_pow2_26();
            }
        }
        proof {
            lemma_pow2_u64(lg_num_slots as u64);
        }
        let mut table = Self::new(lg_num_slots, nvb);
        let mut i: u32 = 0;
        while i < num_items
            invariant
                table.wf(),
                table.valid_bits_spec() == nvb,
                table.n() == pow2(lg_num_slots as nat),
                4 * num_items <= 3 * pow2(lg_num_slots as nat),
                i <= num_items,
                num_items <= slots@.len(),
                table.count() == i,
                table.view() == slots@.subrange(0, i as int).to_set(),
                forall|q: int| 0 <= q < num_items ==> valid_item(#[trigger] slots@[q], nvb),
                forall|a: int, b: int| 0 <= a < b < num_items ==> #[trigger] slots@[a] != #[trigger] slots@[b],
            decreases num_items - i,
        {
            let x = slots[i as usize];
            proof {
                let s0 = slots@.subrange(0, i as int);
                assert(!s0.to_set().contains(x)) by {
                    if s0.to_set().contains(x) {
                        let q = choose|q: int| 0 <= q < s0.len() && s0[q] == x;
                        assert(slots@[q] != slots@[i as int]);
                    }
                }
            }
            table.must_insert(x);
            proof {
                let s0 = slots@.subrange(0, i as int);
                let s1 = slots@.subrange(0, i + 1);
                assert(s1 =~= s0.push(x));
                assert(s1.to_set() =~= s0.to_set().insert(x)) by {
                    assert forall|y: u32| s1.to_set().contains(y) implies s0.to_set().insert(x).contains(y) by {
                        let q = choose|q: int| 0 <= q < s1.len() && s1[q] == y;
                        if q < s0.len() {
                            assert(s0[q] == y);
                        }
                    }
                    assert forall|y: u32| s0.to_set().contains(y) implies s1.to_set().contains(y) by {
                        let q = choose|q: int| 0 <= q < s0.len() && s0[q] == y;
                        assert(s1[q] == y);
                    }
                    assert(s1[s0.len() as int] == x);
                }
            }
            i = i + 1;
        }
        table
    }

    /// The items, read in slot order; items in the run before the first empty slot whose top
    /// valid bit is set probably wrapped around, and go to the end. The result is nearly sorted.
    pub fn unwrapping_get_items(&self) -> (r: Vec<u32>)
        requires
            self.wf(),
        ensures
            r@.len() == self.view().len(),
            r@.to_set() == self.view(),
    {
        proof {
            self.lemma_view();
            lemma_pow2_u64(self.lg_size as u64);
            lemma_pow2_bounds(self.lg_size as nat, 26);
            lemma_pow2_26();
            vstd::set_lib::lemma_int_range(0, self.n());
            assert(self.kept_slots(self.n(), EMPTY) =~= self.active_set());
        }
        if self.num_items == 0 {
            proof {
                assert(Seq::<u32>::empty().to_set() =~= self.view());
            }
            return Vec::new();
        }
        let table_size = self.slots.len();
        let num = self.num_items as usize;
        let mut result: Vec<u32> = Vec::new();
        while result.len() < num
            invariant
                result@.len() <= num,
            decreases num - result@.len(),
        {
            result.push(0);
        }
        let hi_bit: u32 = 1u32 << ((self.num_valid_bits - 1) as u32);
        let mut i: usize = 0;
        let mut l: usize = 0;
        let mut top: usize = num;
        let mut wrapped_run = true;
        proof {
            assert(self.kept_slots(0, EMPTY) =~= Set::<int>::empty());
        }
        while i < table_size
            invariant
                self.wf(),
                table_size == self.n(),
                num == self.count(),
                result@.len() == num,
                i <= table_size,
                l <= top <= num,
                l + (num - top) == self.kept_slots(i as int, EMPTY).len(),
                forall|p: int| (0 <= p < l || top <= p < num) ==> self.view().contains(#[trigger] result@[p]),
                forall|j: int| 0 <= j < i && self.slots@[j] != EMPTY ==> exists|p: int| (0 <= p < l || top <= p < num) && #[trigger] result@[p] == self.slots@[j],
            decreases table_size - i,
        {
            proof {
                vstd::set_lib::lemma_int_range(0, i as int);
                vstd::set_lib::lemma_int_range(0, i + 1);
                vstd::set_lib::lemma_int_range(0, self.n());
            }
            let item = self.slots[i];
            let ghost before = result@;
            let ghost (l0, t0) = (l, top);
            if item != EMPTY {
                proof {
                    assert(self.kept_slots(i + 1, EMPTY) =~= self.kept_slots(i as int, EMPTY).insert(i as int));
                    assert(!self.kept_slots(i as int, EMPTY).contains(i as int));
                    assert(self.kept_slots(i + 1, EMPTY).subset_of(self.active_set()));
                    vstd::set_lib::lemma_len_subset(self.kept_slots(i + 1, EMPTY), self.active_set());
                    assert(self.view().contains(item));
                }
                if wrapped_run && (item & hi_bit) != 0 {
                    top = top - 1;
                    result.set(top, item);
                } else {
                    result.set(l, item);
                    l = l + 1;
                }
                proof {
                    assert forall|p: int| (0 <= p < l || top <= p < num) implies self.view().contains(#[trigger] result@[p]) by {
                        if result@[p] != item {
                            assert(result@[p] == before[p]);
                        }
                    }
                    assert forall|j: int| 0 <= j < i + 1 && self.slots@[j] != EMPTY implies exists|p: int| (0 <= p < l || top <= p < num) && #[trigger] result@[p] == self.slots@[j] by {
                        if j < i {
                            let p = choose|p: int| (0 <= p < l0 || t0 <= p < num) && before[p] == self.slots@[j];
                            assert(result@[p] == before[p]);
                        } else if top < t0 {
                            assert(result@[top as int] == item);
                        } else {
                            assert(result@[l0 as int] == item);
                        }
                    }
                }
            } else {
                wrapped_run = false;
                proof {
                    assert(self.kept_slots(i + 1, EMPTY) =~= self.kept_slots(i as int, EMPTY));
                }
            }
            i = i + 1;
        }
        proof {
            assert(self.kept_slots(self.n(), EMPTY) =~= self.active_set());
            assert(result@.to_set() =~= self.view()) by {
                assert forall|x: u32| result@.to_set().contains(x) implies self.view().contains(x) by {
                    let p = choose|p: int| 0 <= p < result@.len() && result@[p] == x;
                }
                assert forall|x: u32| self.view().contains(x) implies result@.to_set().contains(x) by {
                    let j = choose|j: int| 0 <= j < self.n() && self.slots@[j] != EMPTY && self.slots@[j] == x;
                    let p = choose|p: int| (0 <= p < l || top <= p < num) && #[trigger] result@[p] == self.slots@[j];
                }
            }
        }
        result
    }
}

proof fn lemma_pow2_26()
    ensures
        pow2(26) == 0x400_0000,
{
    reveal_with_fuel(pow2, 27);
}

} // verus!
