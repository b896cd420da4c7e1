//! A linear-probing map from items to counts whose purge subtracts a sampled median from every
//! count and drops the counts that reach zero.
use vstd::prelude::*;
use vstd::set_lib::set_int_range;

use crate::hash::murmur3_spec;
use crate::hash::murmur3_x64_128;
use crate::hash::HashInput;
use crate::probe::lemma_steps;
use crate::probe::lemma_wrap;
use crate::probe::slot;
use crate::probe::steps_to;

verus! {

/// The seed under which items are placed in the map.
pub const ITEM_HASH_SEED: u64 = 9001;

/// Longest probe drift that a slot records; longer ones are recorded as this.
pub const MAX_RECORDED_DRIFT: u16 = 0xffff;

/// Most values that a purge samples to find the median.
pub const MAX_SAMPLE_SIZE: usize = 1024;

/// The hash that places an item with byte image `k`.
pub open spec fn item_hash(k: Seq<u8>) -> u64 {
    murmur3_spec(k, ITEM_HASH_SEED).0
}

/// `2^n`.
pub open spec fn pow2_int(n: nat) -> int
    decreases n,
{
    if n == 0 {
        1
    } else {
        2 * pow2_int((n - 1) as nat)
    }
}

proof fn lemma_pow2_shift(lg: u8)
    requires
        3 <= lg <= 30,
    ensures
        (1usize << lg) as int == pow2_int(lg as nat),
        (1u64 << lg as u64) as int == pow2_int(lg as nat),
        8 <= pow2_int(lg as nat) <= 0x4000_0000,
        pow2_int(lg as nat) % 4 == 0,
    decreases lg,
{
    reveal_with_fuel(pow2_int, 4);
    let l = lg as u64;
    assert((1usize << lg) as u64 == (1u64 << l) && 8 <= (1u64 << l) <= 0x4000_0000 && (1u64 << l) % 4 == 0) by (bit_vector)
        requires
            3 <= l <= 30,
            l == lg,
    ;
    lemma_pow2_u64(l);
}

/// `2^lg` as a shift.
pub proof fn lemma_pow2_shift_pub(lg: u8)
    requires
        3 <= lg <= 30,
    ensures
        (1usize << lg) as int == pow2_int(lg as nat),
        8 <= pow2_int(lg as nat) <= 0x4000_0000,
        pow2_int(lg as nat) % 4 == 0,
{
    lemma_pow2_shift(lg);
}

/// `2^a <= 2^b <= 2^26` for `a <= b <= 26`.
pub proof fn lemma_pow2_le(a: nat, b: nat)
    requires
        a <= b <= 26,
    ensures
        pow2_int(a) <= pow2_int(b) <= 0x400_0000,
{
    lemma_pow2_mono(a, b);
    lemma_pow2_mono(b, 26);
    reveal_with_fuel(pow2_int, 27);
}

/// `2^n` is positive.
pub proof fn lemma_pow2_pos(n: nat)
    ensures
        pow2_int(n) >= 1,
    decreases n,
{
    if n > 0 {
        lemma_pow2_pos((n - 1) as nat);
    }
}

proof fn lemma_pow2_mono(a: nat, b: nat)
    requires
        a <= b,
    ensures
        1 <= pow2_int(a) <= pow2_int(b),
    decreases b,
{
    if a < b {
        lemma_pow2_mono(a, (b - 1) as nat);
    } else if a > 0 {
        lemma_pow2_mono((a - 1) as nat, (a - 1) as nat);
    }
}

proof fn lemma_pow2_u64(l: u64)
    requires
        l <= 30,
    ensures
        (1u64 << l) as int == pow2_int(l as nat),
    decreases l,
{
    if l == 0 {
        assert((1u64 << 0u64) == 1) by (bit_vector);
    } else {
        let m = (l - 1) as u64;
        lemma_pow2_u64(m);
        assert((1u64 << l) == 2 * (1u64 << m)) by (bit_vector)
            requires
                l <= 30,
                m == l - 1,
        ;
    }
}

/// `s` never decreases.
pub open spec fn nondecreasing(s: Seq<u64>) -> bool {
    forall|i: int, j: int| 0 <= i < j < s.len() ==> #[trigger] s[i] <= #[trigger] s[j]
}

/// The counts of `v` in non-decreasing order.
fn sorted_copy(v: &Vec<u64>) -> (r: Vec<u64>)
    ensures
        r@.to_multiset() == v@.to_multiset(),
        r@.len() == v@.len(),
        nondecreasing(r@),
{
    broadcast use vstd::seq_lib::group_to_multiset_ensures;

    let mut out: Vec<u64> = Vec::new();
    let mut i: usize = 0;
    while i < v.len()
        invariant
            i <= v@.len(),
            out@.len() == i,
            out@.to_multiset() == v@.subrange(0, i as int).to_multiset(),
            nondecreasing(out@),
        decreases v@.len() - i,
    {
        let x = v[i];
        let mut pos: usize = 0;
        while pos < out.len() && out[pos] <= x
            invariant
                pos <= out@.len(),
                forall|q: int| 0 <= q < pos ==> #[trigger] out@[q] <= x,
            decreases out@.len() - pos,
        {
            pos = pos + 1;
        }
        let ghost before = out@;
        out.insert(pos, x);
        proof {
            vstd::seq_lib::to_multiset_insert(before, pos as int, x);
            assert(v@.subrange(0, i + 1) =~= v@.subrange(0, i as int).push(x));
            vstd::seq_lib::to_multiset_build(v@.subrange(0, i as int), x);
            assert forall|q: int| 0 <= q < out@.len() implies (q < pos ==> out@[q] == before[q]) && (q
                > pos ==> out@[q] == before[q - 1]) && (q == pos ==> out@[q] == x) by {}
            assert forall|a: int, b: int| 0 <= a < b < out@.len() implies #[trigger] out@[a] <= #[trigger] out@[b] by {
                if b > pos && a == pos {
                    assert(before[pos as int] > x);
                    if b - 1 > pos {
                        assert(before[pos as int] <= before[b - 1]);
                    }
                } else if b > pos && a < pos {
                    assert(before[a] <= before[b - 1]);
                } else if b > pos && a > pos {
                    assert(before[a - 1] <= before[b - 1]);
                } else if b == pos {
                    assert(before[a] <= x);
                } else {
                    assert(before[a] <= before[b]);
                }
            }
        }
        i = i + 1;
    }
    assert(v@.subrange(0, v@.len() as int) =~= v@);
    out
}

/// Linear-probing map from items to positive counts.
pub struct ReversePurgeItemHashMap<T> {
    lg_length: u8,
    load_threshold: usize,
    keys: Vec<Option<T>>,
    values: Vec<u64>,
    states: Vec<u16>,
    num_active: usize,
}

impl<T: HashInput> ReversePurgeItemHashMap<T> {
    pub closed spec fn len_spec(&self) -> int {
        self.keys@.len() as int
    }

    pub closed spec fn lg_spec(&self) -> int {
        self.lg_length as int
    }

    pub closed spec fn num_active_spec(&self) -> int {
        self.num_active as int
    }

    pub closed spec fn capacity_spec(&self) -> int {
        self.load_threshold as int
    }

    closed spec fn active(&self, i: int) -> bool {
        self.states@[i] > 0
    }

    closed spec fn key_at(&self, i: int) -> Seq<u8> {
        self.keys@[i].unwrap().key()
    }

    closed spec fn home(&self, k: Seq<u8>) -> int {
        (item_hash(k) as int) % self.len_spec()
    }

    closed spec fn dist(&self, a: int, b: int) -> int {
        steps_to(a, b, self.len_spec())
    }

    closed spec fn active_set(&self) -> Set<int> {
        set_int_range(0, self.len_spec()).filter(|i: int| self.states@[i] > 0)
    }

    /// Whether an item with byte image `k` is in the map.
    pub closed spec fn contains(&self, k: Seq<u8>) -> bool {
        exists|i: int| 0 <= i < self.len_spec() && self.active(i) && self.key_at(i) == k
    }

    closed spec fn slot_of(&self, k: Seq<u8>) -> int {
        choose|i: int| 0 <= i < self.len_spec() && self.active(i) && self.key_at(i) == k
    }

    /// The counts, keyed by the items' byte images.
    pub closed spec fn view(&self) -> Map<Seq<u8>, u64> {
        Map::new(|k: Seq<u8>| self.contains(k), |k: Seq<u8>| self.values@[self.slot_of(k)])
    }

    /// The count of the item with byte image `k`, or zero.
    pub open spec fn count_of(&self, k: Seq<u8>) -> u64 {
        if self.view().contains_key(k) {
            self.view()[k]
        } else {
            0
        }
    }

    pub closed spec fn wf(&self) -> bool {
        self.shape() && self.layout()
    }

    closed spec fn shape(&self) -> bool {
        let n = self.len_spec();
        &&& 3 <= self.lg_length <= 30
        &&& n == (1u64 << self.lg_length as u64)
        &&& 8 <= n <= 0x4000_0000
        &&& self.values@.len() == n
        &&& self.states@.len() == n
        &&& self.load_threshold == n * 3 / 4
        &&& self.num_active == self.active_set().len()
        &&& self.num_active < n
        &&& forall|i: int| 0 <= i < n && self.active(i) ==> self.keys@[i].is_some()
        &&& forall|i: int| 0 <= i < n && self.active(i) ==> self.values@[i] > 0
    }

    /// Items are unique, and each sits after an unbroken run of occupied slots from its home.
    #[verifier::opaque]
    closed spec fn layout(&self) -> bool {
        let n = self.len_spec();
        &&& forall|i: int, j: int|
            #![trigger self.key_at(i), self.key_at(j)]
            0 <= i < n && 0 <= j < n && i != j && self.active(i) && self.active(j) ==> self.key_at(
                i,
            ) != self.key_at(j)
        &&& forall|i: int, d: int|
            0 <= i < n && self.active(i) && 0 <= d < self.dist(self.home(self.key_at(i)), i)
                ==> #[trigger] self.active(slot(self.home(self.key_at(i)), d, n))
    }

    proof fn lemma_view_facts(&self)
        requires
            self.wf(),
        ensures
            forall|i: int|
                0 <= i < self.len_spec() && self.active(i) ==> self.view().contains_key(
                    #[trigger] self.key_at(i),
                ) && self.view()[self.key_at(i)] == self.values@[i],
            forall|k: Seq<u8>| #[trigger]
                self.view().contains_key(k) ==> self.view()[k] > 0,
    {
        reveal(ReversePurgeItemHashMap::layout);
        assert forall|i: int|
            0 <= i < self.len_spec() && self.active(i) implies self.view().contains_key(
            #[trigger] self.key_at(i),
        ) && self.view()[self.key_at(i)] == self.values@[i] by {
            let k = self.key_at(i);
            assert(self.contains(k));
            let j = self.slot_of(k);
            assert(self.active(j) && self.key_at(j) == k && 0 <= j < self.len_spec());
            assert(j == i);
        }
        assert forall|k: Seq<u8>| #[trigger] self.view().contains_key(k) implies self.view()[k]
            > 0 by {
            let j = self.slot_of(k);
        }
    }

    /// The layout depends on the items and occupancy alone, not on the counts.
    proof fn lemma_layout_same(&self, other: &Self)
        requires
            self.layout(),
            self.keys@ == other.keys@,
            self.states@ == other.states@,
        ensures
            other.layout(),
    {
        reveal(ReversePurgeItemHashMap::layout);
        let n = self.len_spec();
        assert forall|i: int| 0 <= i < n implies #[trigger] other.key_at(i) == self.key_at(i)
            && other.active(i) == self.active(i) by {}
        assert forall|i: int, j: int|
            #![trigger other.key_at(i), other.key_at(j)]
            0 <= i < n && 0 <= j < n && i != j && other.active(i) && other.active(j) implies other.key_at(
                i,
            ) != other.key_at(j) by {
            assert(self.key_at(i) != self.key_at(j));
        }
        assert forall|i: int, d: int|
            0 <= i < n && other.active(i) && 0 <= d < other.dist(other.home(other.key_at(i)), i)
                implies #[trigger] other.active(slot(other.home(other.key_at(i)), d, n)) by {
            assert(self.active(slot(self.home(self.key_at(i)), d, n)));
        }
    }

    /// If every slot were reached from `h`, the map would be full.
    proof fn lemma_not_all_active(&self, h: int)
        requires
            0 <= h < self.len_spec(),
            self.num_active == self.active_set().len(),
            forall|d: int|
                0 <= d < self.len_spec() ==> #[trigger] self.active(slot(h, d, self.len_spec())),
        ensures
            self.num_active >= self.len_spec(),
    {
        let n = self.len_spec();
        {
            assert(set_int_range(0, n).subset_of(self.active_set())) by {
                assert forall|i: int| set_int_range(0, n).contains(i) implies self.active_set().contains(
                    i,
                ) by {
                    lemma_wrap(h, i, n);
                    let d = steps_to(h, i, n);
                    assert(self.active(slot(h, d, n)));
                }
            }
            vstd::set_lib::lemma_int_range(0, n);
            vstd::set_lib::lemma_len_subset(set_int_range(0, n), self.active_set());
        }
    }

    /// Whether slot `i` holds `key`.
    fn key_matches(&self, i: usize, key: &T) -> (r: bool)
        requires
            self.wf(),
            i < self.len_spec(),
            self.active(i as int),
        ensures
            r == (self.key_at(i as int) == key.key()),
    {
        match &self.keys[i] {
            Some(existing) => existing.same_item(key),
            None => false,
        }
    }

    /// Finds the slot of `key`, or the empty slot where a probe for it stops.
    #[verifier::rlimit(50)]
    fn hash_probe(&self, key: &T) -> (r: (usize, usize))
        requires
            self.wf(),
        ensures
            r.0 < self.len_spec(),
            r.1 == self.dist(self.home(key.key()), r.0 as int) + 1,
            r.1 >= 1,
            self.active(r.0 as int) ==> self.key_at(r.0 as int) == key.key(),
            !self.active(r.0 as int) ==> !self.contains(key.key()),
            forall|d: int|
                0 <= d < self.dist(self.home(key.key()), r.0 as int) ==> #[trigger] self.active(
                    slot(self.home(key.key()), d, self.len_spec()),
                ),
    {
        let ghost n = self.len_spec();
        let ghost k = key.key();
        let len = self.keys.len();
        let kb = key.key_bytes();
        let hv = murmur3_x64_128(kb.as_slice(), ITEM_HASH_SEED);
        let mut probe = (hv.0 % (len as u64)) as usize;
        let ghost h = probe as int;
        let ghost mut steps: int = 0;
        let mut drift: usize = 1;
        proof {
            lemma_steps(h, 0, n);
        }
        while self.states[probe] > 0 && !self.key_matches(probe, key)
            invariant
                self.wf(),
                n == self.len_spec(),
                len == n,
                k == key.key(),
                0 <= h < n,
                h == self.home(k),
                0 <= steps < n,
                drift == steps + 1,
                probe < n,
                probe == slot(h, steps, n),
                forall|d: int|
                    0 <= d < steps ==> #[trigger] self.active(slot(h, d, n)) && self.key_at(
                        slot(h, d, n),
                    ) != k,
            decreases n - steps,
        {
            proof {
                assert(self.active(slot(h, steps, n)) && self.key_at(slot(h, steps, n)) != k);
                if steps + 1 == n {
                    assert forall|d: int| 0 <= d < n implies #[trigger] self.active(slot(h, d, n)) by {
                        if d == steps {
                        }
                    }
                    self.lemma_not_all_active(h);
                }
                lemma_steps(h, steps, n);
            }
            probe = (probe + 1) % len;
            drift = drift + 1;
            proof {
                let ghost prev = steps;
                steps = steps + 1;
                assert forall|d: int| 0 <= d < steps implies #[trigger] self.active(slot(h, d, n))
                    && self.key_at(slot(h, d, n)) != k by {
                    if d < prev {
                    }
                }
            }
        }
        proof {
            lemma_steps(h, steps, n);
            if !self.active(probe as int) {
                self.lemma_absent(k, steps);
            }
        }
        (probe, drift)
    }

    /// A probe for `k` that passes only other items and stops at an empty slot proves `k`
    /// absent.
    proof fn lemma_absent(&self, k: Seq<u8>, steps: int)
        requires
            self.wf(),
            0 <= steps < self.len_spec(),
            0 <= self.home(k) < self.len_spec(),
            !self.active(slot(self.home(k), steps, self.len_spec())),
            forall|d: int|
                0 <= d < steps ==> #[trigger] self.active(slot(self.home(k), d, self.len_spec()))
                    && self.key_at(slot(self.home(k), d, self.len_spec())) != k,
        ensures
            !self.contains(k),
    {
        let n = self.len_spec();
        let h = self.home(k);
        reveal(ReversePurgeItemHashMap::layout);
        if self.contains(k) {
            let i = self.slot_of(k);
            lemma_wrap(h, i, n);
            let di = steps_to(h, i, n);
            assert(di == self.dist(h, i));
            if di < steps {
                assert(self.active(slot(h, di, n)) && self.key_at(slot(h, di, n)) != k);
            } else if di > steps {
                assert(self.active(slot(h, steps, n)));
            }
        }
    }

    /// Creates an empty map with arrays of length `2^lg_length`.
    pub fn new(lg_length: u8) -> (r: Self)
        requires
            3 <= lg_length <= 30,
        ensures
            r.wf(),
            r.lg_spec() == lg_length,
            r.len_spec() == pow2_int(lg_length as nat),
            r.view() == Map::<Seq<u8>, u64>::empty(),
            r.num_active_spec() == 0,
    {
        let map_size: usize = 1usize << lg_length;
        proof {
            lemma_pow2_shift(lg_length);
        }
        let mut keys: Vec<Option<T>> = Vec::new();
        let mut values: Vec<u64> = Vec::new();
        let mut states: Vec<u16> = Vec::new();
        let mut i: usize = 0;
        while i < map_size
            invariant
                i <= map_size,
                keys@.len() == i,
                values@.len() == i,
                states@.len() == i,
                forall|j: int| 0 <= j < i ==> states@[j] == 0,
            decreases map_size - i,
        {
            keys.push(None);
            values.push(0);
            states.push(0);
            i = i + 1;
        }
        let r = ReversePurgeItemHashMap {
            lg_length,
            load_threshold: map_size / 4 * 3,
            keys,
            values,
            states,
            num_active: 0,
        };
        proof {
            assert(r.active_set() =~= Set::<int>::empty());
            reveal(ReversePurgeItemHashMap::layout);
            assert(r.view() =~= Map::<Seq<u8>, u64>::empty());
        }
        r
    }

    /// Returns the count of `key`, or zero if it is absent.
    pub fn get(&self, key: &T) -> (r: u64)
        requires
            self.wf(),
        ensures
            r == self.count_of(key.key()),
    {
        let (probe, _) = self.hash_probe(key);
        proof {
            self.lemma_view_facts();
        }
        if self.states[probe] > 0 {
            return self.values[probe];
        }
        0
    }

    /// Adds `adjust_amount` to the count of `key`, inserting it if absent.
    pub fn adjust_or_put_value(&mut self, key: T, adjust_amount: u64)
        requires
            old(self).wf(),
            adjust_amount > 0,
            old(self).num_active_spec() + 1 < old(self).len_spec() || old(self).view().contains_key(
                key.key(),
            ),
            old(self).count_of(key.key()) + adjust_amount <= u64::MAX,
        ensures
            final(self).wf(),
            final(self).lg_spec() == old(self).lg_spec(),
            final(self).len_spec() == old(self).len_spec(),
            final(self).capacity_spec() == old(self).capacity_spec(),
            final(self).view() == old(self).view().insert(
                key.key(),
                (old(self).count_of(key.key()) + adjust_amount) as u64,
            ),
            final(self).num_active_spec() == old(self).num_active_spec() + if old(
                self,
            ).view().contains_key(key.key()) {
                0int
            } else {
                1int
            },
    {
        let ghost k = key.key();
        let ghost n = self.len_spec();
        proof {
            self.lemma_view_facts();
        }
        let (probe, drift) = self.hash_probe(&key);
        proof {
            reveal(ReversePurgeItemHashMap::layout);
        }
        if self.states[probe] == 0 {
            let state: u16 = if drift < MAX_RECORDED_DRIFT as usize {
                drift as u16
            } else {
                MAX_RECORDED_DRIFT
            };
            let ghost old_map = *self;
            self.keys.set(probe, Some(key));
            self.values.set(probe, adjust_amount);
            self.states.set(probe, state);
            self.num_active = self.num_active + 1;
            proof {
                vstd::set_lib::lemma_int_range(0, n);
                assert(self.active_set() =~= old_map.active_set().insert(probe as int));
                assert(!old_map.active_set().contains(probe as int));
                assert forall|i: int| 0 <= i < n && i != probe implies #[trigger] self.active(i)
                    == old_map.active(i) && self.key_at(i) == old_map.key_at(i) && self.values@[i]
                    == old_map.values@[i] && self.keys@[i] == old_map.keys@[i] by {}
                assert forall|i: int| 0 <= i < n && self.active(i) implies #[trigger] self.keys@[i].is_some()
                    && self.values@[i] > 0 by {
                    if i != probe {
                        assert(old_map.active(i));
                    }
                }
                reveal(ReversePurgeItemHashMap::layout);
                assert(self.key_at(probe as int) == k);
                assert forall|i: int, d: int|
                    0 <= i < n && self.active(i) && 0 <= d < self.dist(self.home(self.key_at(i)), i)
                        implies #[trigger] self.active(slot(self.home(self.key_at(i)), d, n)) by {
                    let h = self.home(self.key_at(i));
                    lemma_wrap(h, i, n);
                    lemma_steps(h, d, n);
                    let j = slot(h, d, n);
                    if i != probe {
                        assert(old_map.active(slot(old_map.home(old_map.key_at(i)), d, n)));
                    } else {
                        assert(old_map.active(slot(old_map.home(k), d, n)));
                    }
                    assert(old_map.active(j));
                    assert(j != probe);
                }
                assert forall|i: int, j: int|
                    #![trigger self.key_at(i), self.key_at(j)]
                    0 <= i < n && 0 <= j < n && i != j && self.active(i) && self.active(j) implies self.key_at(
                        i,
                    ) != self.key_at(j) by {
                    if i != probe && j != probe {
                        assert(old_map.key_at(i) != old_map.key_at(j));
                    } else if i == probe {
                        assert(!old_map.contains(k));
                        assert(old_map.active(j));
                    } else {
                        assert(!old_map.contains(k));
                        assert(old_map.active(i));
                    }
                }
                assert(self.layout());
                assert(self.shape());
                self.lemma_view_facts();
                old_map.lemma_view_facts();
                assert forall|kk: Seq<u8>| kk != k implies #[trigger] self.view().contains_key(kk)
                    == old_map.view().contains_key(kk) by {
                    if self.contains(kk) {
                        let j = self.slot_of(kk);
                        assert(j != probe);
                        assert(old_map.active(j) && old_map.key_at(j) == kk);
                    }
                    if old_map.contains(kk) {
                        let j = old_map.slot_of(kk);
                        assert(self.active(j) && self.key_at(j) == kk);
                    }
                }
                assert forall|kk: Seq<u8>| kk != k && self.view().contains_key(kk) implies #[trigger] self.view()[kk]
                    == old_map.view()[kk] by {
                    let j = self.slot_of(kk);
                    assert(self.active(j) && self.key_at(j) == kk);
                    assert(self.view()[self.key_at(j)] == self.values@[j]);
                    assert(old_map.view()[old_map.key_at(j)] == old_map.values@[j]);
                }
                assert(self.view() =~= old_map.view().insert(k, adjust_amount));
            }
        } else {
            let ghost old_map = *self;
            let v = self.values[probe];
            self.values.set(probe, v + adjust_amount);
            proof {
                assert(self.active_set() =~= old_map.active_set());
                assert(self.keys@ =~= old_map.keys@);
                assert(self.states@ =~= old_map.states@);
                old_map.lemma_layout_same(self);
                assert forall|i: int| 0 <= i < n implies #[trigger] self.active(i) == old_map.active(
                    i,
                ) && self.key_at(i) == old_map.key_at(i) by {}
                reveal(ReversePurgeItemHashMap::layout);
                assert(self.layout());
                self.lemma_view_facts();
                assert forall|kk: Seq<u8>| #[trigger] self.view().contains_key(kk)
                    == old_map.view().contains_key(kk) by {
                    if self.contains(kk) {
                        let j = self.slot_of(kk);
                        assert(old_map.active(j) && old_map.key_at(j) == kk);
                    }
                    if old_map.contains(kk) {
                        let j = old_map.slot_of(kk);
                        assert(self.active(j) && self.key_at(j) == kk);
                    }
                }
                assert forall|kk: Seq<u8>| kk != k && self.view().contains_key(kk) implies #[trigger] self.view()[kk]
                    == old_map.view()[kk] by {
                    let j = self.slot_of(kk);
                    assert(self.active(j) && self.key_at(j) == kk);
                    assert(self.view()[self.key_at(j)] == self.values@[j]);
                    assert(old_map.view()[old_map.key_at(j)] == old_map.values@[j]);
                }
                assert(self.key_at(probe as int) == k);
                assert(self.view()[self.key_at(probe as int)] == self.values@[probe as int]);
                assert(self.view()[k] == v + adjust_amount);
                assert(self.view() =~= old_map.view().insert(k, (v + adjust_amount) as u64));
            }
        }
    }

    /// Returns the length of the arrays.
    pub fn len(&self) -> (r: usize)
        requires
            self.wf(),
        ensures
            r == self.len_spec(),
    {
        self.keys.len()
    }

    /// Returns the base-2 logarithm of the arrays' length.
    pub fn lg_length(&self) -> (r: u8)
        requires
            self.wf(),
        ensures
            r == self.lg_spec(),
            pow2_int(r as nat) == self.len_spec(),
    {
        proof {
            lemma_pow2_shift(self.lg_length);
        }
        self.lg_length
    }

    /// Returns how many items the map holds before it must grow or purge.
    pub fn capacity(&self) -> (r: usize)
        requires
            self.wf(),
        ensures
            r == self.capacity_spec(),
            r == self.len_spec() * 3 / 4,
    {
        self.load_threshold
    }

    /// Returns the number of items held.
    pub fn num_active(&self) -> (r: usize)
        requires
            self.wf(),
        ensures
            r == self.num_active_spec(),
            r == self.view().dom().len(),
    {
        proof {
            self.lemma_slots_count();
        }
        self.num_active
    }

    fn is_active(&self, probe: usize) -> (r: bool)
        requires
            self.wf(),
            probe < self.len_spec(),
        ensures
            r == self.active(probe as int),
    {
        self.states[probe] > 0
    }

    /// The old entries of slots below `i` whose count exceeds `sub`, less `sub`.
    closed spec fn kept(&self, i: int, sub: u64) -> Map<Seq<u8>, u64> {
        Map::new(
            |k: Seq<u8>|
                exists|j: int|
                    0 <= j < i && self.active(j) && self.key_at(j) == k && self.values@[j] > sub,
            |k: Seq<u8>| (self.view()[k] - sub) as u64,
        )
    }

    closed spec fn kept_slots(&self, i: int, sub: u64) -> Set<int> {
        set_int_range(0, i).filter(|j: int| self.states@[j] > 0 && self.values@[j] > sub)
    }

    /// The entries whose count exceeds `sub`, less `sub`.
    pub open spec fn reduced(m: Map<Seq<u8>, u64>, sub: u64) -> Map<Seq<u8>, u64> {
        Map::new(|k: Seq<u8>| m.contains_key(k) && m[k] > sub, |k: Seq<u8>| (m[k] - sub) as u64)
    }

    /// Moves every entry whose count exceeds `sub` into fresh arrays of length `2^lg`, with
    /// `sub` taken off its count.
    fn rebuild(&mut self, lg: u8, sub: u64)
        requires
            old(self).wf(),
            3 <= lg <= 30,
            old(self).kept_slots(old(self).len_spec(), sub).len() < pow2_int(lg as nat),
        ensures
            final(self).wf(),
            final(self).lg_spec() == lg,
            final(self).len_spec() == pow2_int(lg as nat),
            final(self).view() == Self::reduced(old(self).view(), sub),
            final(self).num_active_spec() == old(self).kept_slots(old(self).len_spec(), sub).len(),
    {
        let ghost om = *self;
        let ghost n = om.len_spec();
        let mut fresh: Self = Self::new(lg);
        std::mem::swap(self, &mut fresh);
        let len = fresh.keys.len();
        let mut i: usize = 0;
        proof {
            om.lemma_view_facts();
            assert(om.kept(0, sub) =~= Map::<Seq<u8>, u64>::empty());
            assert(om.kept_slots(0, sub) =~= Set::<int>::empty());
            vstd::set_lib::lemma_int_range(0, n);
        }
        while i < len
            invariant
                om.wf(),
                fresh == om,
                n == om.len_spec(),
                len == n,
                i <= len,
                self.wf(),
                self.lg_spec() == lg,
                self.len_spec() == pow2_int(lg as nat),
                3 <= lg <= 30,
                om.kept_slots(n, sub).len() < pow2_int(lg as nat),
                self.view() == om.kept(i as int, sub),
                self.num_active_spec() == om.kept_slots(i as int, sub).len(),
            decreases len - i,
        {
            proof {
                lemma_pow2_shift(lg);
                vstd::set_lib::lemma_int_range(0, i as int);
                vstd::set_lib::lemma_int_range(0, i + 1);
                vstd::set_lib::lemma_int_range(0, n);
                assert(om.kept_slots(i as int, sub).subset_of(om.kept_slots(n, sub)));
                vstd::set_lib::lemma_len_subset(om.kept_slots(i as int, sub), om.kept_slots(n, sub));
            }
            if fresh.states[i] > 0 && fresh.values[i] > sub {
                let item = match &fresh.keys[i] {
                    Some(key) => key.clone_item(),
                    None => {
                        proof {
                            assert(om.active(i as int));
                            assert(om.keys@[i as int].is_some());
                        }
                        return ;
                    },
                };
                let ghost k = item.key();
                proof {
                    assert(om.kept_slots(i + 1, sub) =~= om.kept_slots(i as int, sub).insert(i as int));
                    assert(!om.kept_slots(i as int, sub).contains(i as int));
                    assert(om.kept_slots(i + 1, sub).subset_of(om.kept_slots(n, sub)));
                    vstd::set_lib::lemma_len_subset(om.kept_slots(i + 1, sub), om.kept_slots(n, sub));
                    reveal(ReversePurgeItemHashMap::layout);
                    assert(!om.kept(i as int, sub).contains_key(k)) by {
                        if om.kept(i as int, sub).contains_key(k) {
                            let j = choose|j: int|
                                0 <= j < i && om.active(j) && om.key_at(j) == k && om.values@[j]
                                    > sub;
                            assert(om.key_at(j) != om.key_at(i as int));
                        }
                    }
                }
                let v = fresh.values[i] - sub;
                self.adjust_or_put_value(item, v);
                proof {
                    assert(om.view()[om.key_at(i as int)] == om.values@[i as int]);
                    assert(self.view() =~= om.kept(i + 1, sub)) by {
                        assert forall|kk: Seq<u8>| #[trigger] om.kept(i + 1, sub).contains_key(kk)
                            == self.view().contains_key(kk) by {
                            if om.kept(i + 1, sub).contains_key(kk) && kk != k {
                                let j = choose|j: int|
                                    0 <= j < i + 1 && om.active(j) && om.key_at(j) == kk
                                        && om.values@[j] > sub;
                                assert(j != i);
                                assert(om.kept(i as int, sub).contains_key(kk));
                            }
                        }
                    }
                }
            } else {
                proof {
                    assert(om.kept_slots(i + 1, sub) =~= om.kept_slots(i as int, sub));
                    assert(om.kept(i + 1, sub) =~= om.kept(i as int, sub)) by {
                        assert forall|kk: Seq<u8>| #[trigger] om.kept(i + 1, sub).contains_key(kk)
                            implies om.kept(i as int, sub).contains_key(kk) by {
                            let j = choose|j: int|
                                0 <= j < i + 1 && om.active(j) && om.key_at(j) == kk
                                    && om.values@[j] > sub;
                            assert(j != i);
                        }
                    }
                }
            }
            i = i + 1;
        }
        proof {
            om.lemma_view_facts();
            assert(om.kept(n, sub) =~= Self::reduced(om.view(), sub)) by {
                assert forall|kk: Seq<u8>| #[trigger] Self::reduced(om.view(), sub).contains_key(kk)
                    implies om.kept(n, sub).contains_key(kk) by {
                    let j = om.slot_of(kk);
                    assert(om.active(j) && om.key_at(j) == kk && 0 <= j < n);
                    assert(om.view()[om.key_at(j)] == om.values@[j]);
                }
                assert forall|kk: Seq<u8>| #[trigger] om.kept(n, sub).contains_key(kk)
                    implies Self::reduced(om.view(), sub).contains_key(kk) by {
                    let j = choose|j: int|
                        0 <= j < n && om.active(j) && om.key_at(j) == kk && om.values@[j] > sub;
                    assert(om.view()[om.key_at(j)] == om.values@[j]);
                }
            }
        }
    }

    /// Moves the entries to arrays of length `2^lg`, which must leave a slot free.
    pub fn resize(&mut self, lg: u8)
        requires
            old(self).wf(),
            3 <= lg <= 30,
            old(self).num_active_spec() < pow2_int(lg as nat),
        ensures
            final(self).wf(),
            final(self).lg_spec() == lg,
            final(self).len_spec() == pow2_int(lg as nat),
            final(self).view() == old(self).view(),
            final(self).num_active_spec() == old(self).num_active_spec(),
    {
        proof {
            let n = self.len_spec();
            assert forall|j: int| 0 <= j < n && self.active(j) implies #[trigger] self.values@[j] > 0 by {}
            assert(self.kept_slots(n, 0) =~= self.active_set());
            lemma_pow2_shift(self.lg_length);
            lemma_pow2_shift(lg);
            assert(Self::reduced(self.view(), 0) =~= self.view()) by {
                self.lemma_view_facts();
            }
        }
        self.rebuild(lg, 0);
    }

    /// Some item has count `c`.
    closed spec fn holds_count(&self, c: u64) -> bool {
        exists|t: int| 0 <= t < self.len_spec() && self.active(t) && self.values@[t] == c
    }

    /// The active slots below `i`, in increasing order.
    pub closed spec fn active_slots(&self, i: int) -> Seq<int>
        decreases i,
    {
        if i <= 0 {
            Seq::empty()
        } else if self.active(i - 1) {
            self.active_slots(i - 1).push(i - 1)
        } else {
            self.active_slots(i - 1)
        }
    }

    proof fn lemma_active_slots_prefix(&self, i: int, j: int)
        requires
            0 <= i <= j,
        ensures
            self.active_slots(i).len() <= self.active_slots(j).len(),
            self.active_slots(i) == self.active_slots(j).subrange(0, self.active_slots(i).len() as int),
        decreases j - i,
    {
        if i < j {
            self.lemma_active_slots_prefix(i, j - 1);
            let a = self.active_slots(j - 1);
            if j >= 1 && self.active(j - 1) {
                assert(self.active_slots(j) == a.push(j - 1));
                assert(self.active_slots(j).subrange(0, self.active_slots(i).len() as int) =~= a.subrange(0, self.active_slots(i).len() as int));
            } else {
                assert(self.active_slots(j) == a);
            }
        } else {
            assert(self.active_slots(i).subrange(0, self.active_slots(i).len() as int) =~= self.active_slots(i));
        }
    }

    /// The number of counts a purge samples.
    pub open spec fn sample_len(&self, sample_size: usize) -> int {
        let a = if sample_size < self.num_active_spec() {
            sample_size as int
        } else {
            self.num_active_spec()
        };
        if MAX_SAMPLE_SIZE < a {
            MAX_SAMPLE_SIZE as int
        } else {
            a
        }
    }

    /// The counts of the active slots, in slot order.
    pub closed spec fn slot_values(&self) -> Seq<u64> {
        self.active_slots(self.len_spec()).map_values(|j: int| self.values@[j])
    }

    /// The byte images of the active items, in slot order.
    pub closed spec fn slot_keys(&self) -> Seq<Seq<u8>> {
        self.active_slots(self.len_spec()).map_values(|j: int| self.key_at(j))
    }

    proof fn lemma_active_slots(&self, i: int)
        requires
            self.wf(),
            0 <= i <= self.len_spec(),
        ensures
            forall|j: int|
                0 <= j < self.active_slots(i).len() ==> 0 <= #[trigger] self.active_slots(i)[j] < i
                    && self.active(self.active_slots(i)[j]),
            forall|a: int, b: int|
                0 <= a < b < self.active_slots(i).len() ==> #[trigger] self.active_slots(i)[a]
                    < #[trigger] self.active_slots(i)[b],
            forall|s: int|
                0 <= s < i && self.active(s) ==> exists|j: int|
                    0 <= j < self.active_slots(i).len() && #[trigger] self.active_slots(i)[j] == s,
        decreases i,
    {
        if i > 0 {
            self.lemma_active_slots(i - 1);
            let prev = self.active_slots(i - 1);
            let cur = self.active_slots(i);
            if self.active(i - 1) {
                assert(cur == prev.push(i - 1));
                assert forall|j: int| 0 <= j < cur.len() implies 0 <= #[trigger] cur[j] < i
                    && self.active(cur[j]) by {
                    if j < prev.len() {
                        assert(cur[j] == prev[j]);
                    }
                }
                assert forall|a: int, b: int| 0 <= a < b < cur.len() implies #[trigger] cur[a]
                    < #[trigger] cur[b] by {
                    assert(cur[a] == prev[a]);
                    if b < prev.len() {
                        assert(cur[b] == prev[b]);
                    }
                }
                assert forall|s: int| 0 <= s < i && self.active(s) implies exists|j: int|
                    0 <= j < cur.len() && #[trigger] cur[j] == s by {
                    if s < i - 1 {
                        let j = choose|j: int| 0 <= j < prev.len() && #[trigger] prev[j] == s;
                        assert(cur[j] == s);
                    } else {
                        assert(cur[prev.len() as int] == s);
                    }
                }
            } else {
                assert(cur == prev);
                assert forall|s: int| 0 <= s < i && self.active(s) implies exists|j: int|
                    0 <= j < cur.len() && #[trigger] cur[j] == s by {
                    let j = choose|j: int| 0 <= j < prev.len() && #[trigger] prev[j] == s;
                }
            }
        }
    }

    /// The arrays' length is `2^lg`.
    pub proof fn lemma_len_pow2(&self)
        requires
            self.wf(),
        ensures
            self.len_spec() == pow2_int(self.lg_spec() as nat),
            8 <= self.len_spec(),
            self.capacity_spec() == self.len_spec() * 3 / 4,
            3 <= self.lg_spec() <= 30,
            self.len_spec() <= 0x4000_0000,
            self.num_active_spec() < self.len_spec(),
    {
        lemma_pow2_shift(self.lg_length);
    }

    proof fn lemma_slots_count(&self)
        requires
            self.wf(),
        ensures
            self.slot_keys().len() == self.num_active_spec(),
            self.view().dom().finite(),
            self.view().dom().len() == self.num_active_spec(),
    {
        let n = self.len_spec();
        self.lemma_active_slots(n);
        self.lemma_view_facts();
        reveal(ReversePurgeItemHashMap::layout);
        let sl = self.active_slots(n);
        assert(sl.no_duplicates()) by {
            assert forall|a: int, b: int| 0 <= a < sl.len() && 0 <= b < sl.len() && a != b implies sl[a] != sl[b] by {
                if a < b {
                    assert(sl[a] < sl[b]);
                } else {
                    assert(sl[b] < sl[a]);
                }
            }
        }
        sl.unique_seq_to_set();
        vstd::set_lib::lemma_int_range(0, n);
        assert(sl.to_set() =~= self.active_set()) by {
            assert forall|x: int| self.active_set().contains(x) implies sl.to_set().contains(x) by {
                assert(0 <= x < n && self.active(x));
                let j = choose|j: int| 0 <= j < sl.len() && #[trigger] sl[j] == x;
            }
        }
        let ks = self.slot_keys();
        assert(ks.no_duplicates()) by {
            assert forall|a: int, b: int| 0 <= a < ks.len() && 0 <= b < ks.len() && a != b implies ks[a] != ks[b] by {
                if a < b {
                    assert(sl[a] < sl[b]);
                } else {
                    assert(sl[b] < sl[a]);
                }
                assert(self.active(sl[a]) && self.active(sl[b]));
            }
        }
        ks.unique_seq_to_set();
        assert(ks.to_set() =~= self.view().dom()) by {
            assert forall|k: Seq<u8>| self.view().dom().contains(k) implies ks.to_set().contains(k) by {
                let i = self.slot_of(k);
                assert(0 <= i < n && self.active(i) && self.key_at(i) == k);
                let j = choose|j: int| 0 <= j < sl.len() && #[trigger] sl[j] == i;
                assert(ks[j] == k);
            }
            assert forall|k: Seq<u8>| ks.to_set().contains(k) implies self.view().dom().contains(k) by {
                let j = choose|j: int| 0 <= j < ks.len() && ks[j] == k;
                assert(self.active(sl[j]));
                assert(self.view().contains_key(self.key_at(sl[j])));
            }
        }
    }

    /// The slot order lists each item of the map once, with its count.
    pub proof fn lemma_slots(&self)
        requires
            self.wf(),
        ensures
            self.slot_keys().len() == self.slot_values().len(),
            forall|j: int|
                0 <= j < self.slot_keys().len() ==> self.view().contains_key(
                    #[trigger] self.slot_keys()[j],
                ) && self.view()[self.slot_keys()[j]] == self.slot_values()[j]
                    && self.slot_values()[j] > 0,
            forall|a: int, b: int|
                0 <= a < self.slot_keys().len() && 0 <= b < self.slot_keys().len() && a != b
                    ==> #[trigger] self.slot_keys()[a] != #[trigger] self.slot_keys()[b],
            forall|k: Seq<u8>|
                #[trigger] self.view().contains_key(k) ==> exists|j: int|
                    0 <= j < self.slot_keys().len() && self.slot_keys()[j] == k,
            self.slot_keys().len() == self.num_active_spec(),
            self.view().dom().finite(),
            self.view().dom().len() == self.num_active_spec(),
    {
        let n = self.len_spec();
        self.lemma_slots_count();
        self.lemma_active_slots(n);
        self.lemma_view_facts();
        reveal(ReversePurgeItemHashMap::layout);
        let sl = self.active_slots(n);
        assert forall|j: int| 0 <= j < self.slot_keys().len() implies self.view().contains_key(
            #[trigger] self.slot_keys()[j],
        ) && self.view()[self.slot_keys()[j]] == self.slot_values()[j] by {
            assert(self.active(sl[j]));
            assert(self.slot_keys()[j] == self.key_at(sl[j]));
        }
        assert forall|a: int, b: int|
            0 <= a < self.slot_keys().len() && 0 <= b < self.slot_keys().len() && a != b
                implies #[trigger] self.slot_keys()[a] != #[trigger] self.slot_keys()[b] by {
            if a < b {
                assert(sl[a] < sl[b]);
            } else {
                assert(sl[b] < sl[a]);
            }
            assert(self.active(sl[a]) && self.active(sl[b]));
        }
        assert forall|k: Seq<u8>| #[trigger] self.view().contains_key(k) implies exists|j: int|
            0 <= j < self.slot_keys().len() && self.slot_keys()[j] == k by {
            let s = self.slot_of(k);
            assert(0 <= s < n && self.active(s) && self.key_at(s) == k);
            let j = choose|j: int| 0 <= j < sl.len() && #[trigger] sl[j] == s;
            assert(self.slot_keys()[j] == k);
        }
    }

    /// The counts of the items, in slot order.
    pub fn active_values(&self) -> (r: Vec<u64>)
        requires
            self.wf(),
        ensures
            r@ == self.slot_values(),
    {
        let mut out: Vec<u64> = Vec::new();
        let mut i: usize = 0;
        while i < self.values.len()
            invariant
                self.wf(),
                i <= self.len_spec(),
                out@ == self.active_slots(i as int).map_values(|j: int| self.values@[j]),
            decreases self.len_spec() - i,
        {
            if self.states[i] > 0 {
                out.push(self.values[i]);
            }
            i = i + 1;
            proof {
                assert(out@ =~= self.active_slots(i as int).map_values(|j: int| self.values@[j]));
            }
        }
        out
    }

    /// Copies of the items, in slot order.
    pub fn active_keys(&self) -> (r: Vec<T>)
        requires
            self.wf(),
        ensures
            r@.map_values(|t: T| t.key()) == self.slot_keys(),
    {
        let mut out: Vec<T> = Vec::new();
        let mut i: usize = 0;
        while i < self.values.len()
            invariant
                self.wf(),
                i <= self.len_spec(),
                out@.map_values(|t: T| t.key()) == self.active_slots(i as int).map_values(
                    |j: int| self.key_at(j),
                ),
            decreases self.len_spec() - i,
        {
            let ghost before = out@;
            let ghost slots = self.active_slots(i as int);
            if self.states[i] > 0 {
                proof {
                    assert(self.active(i as int));
                    assert(self.keys@[i as int].is_some());
                }
                match &self.keys[i] {
                    Some(key) => {
                        let item = key.clone_item();
                        proof {
                            assert(item.key() == self.key_at(i as int));
                        }
                        out.push(item);
                        proof {
                            assert(out@.map_values(|t: T| t.key()) =~= before.map_values(
                                |t: T| t.key(),
                            ).push(self.key_at(i as int)));
                            assert(self.active_slots(i + 1) == slots.push(i as int));
                            assert(slots.push(i as int).map_values(|j: int| self.key_at(j))
                                =~= slots.map_values(|j: int| self.key_at(j)).push(
                                self.key_at(i as int),
                            ));
                        }
                    },
                    None => {},
                }
            } else {
                proof {
                    assert(self.active_slots(i + 1) == slots);
                }
            }
            i = i + 1;
            proof {
                assert(out@.map_values(|t: T| t.key()) =~= self.active_slots(i as int).map_values(
                    |j: int| self.key_at(j),
                ));
            }
        }
        out
    }

    /// The items with their counts, in slot order.
    pub fn iter(&self) -> (r: Vec<(T, u64)>)
        requires
            self.wf(),
        ensures
            r@.map_values(|e: (T, u64)| e.0.key()) == self.slot_keys(),
            r@.map_values(|e: (T, u64)| e.1) == self.slot_values(),
    {
        let mut out: Vec<(T, u64)> = Vec::new();
        let mut i: usize = 0;
        while i < self.values.len()
            invariant
                self.wf(),
                i <= self.len_spec(),
                out@.map_values(|e: (T, u64)| e.0.key()) == self.active_slots(i as int).map_values(
                    |j: int| self.key_at(j),
                ),
                out@.map_values(|e: (T, u64)| e.1) == self.active_slots(i as int).map_values(
                    |j: int| self.values@[j],
                ),
            decreases self.len_spec() - i,
        {
            let ghost before = out@;
            let ghost slots = self.active_slots(i as int);
            if self.states[i] > 0 {
                proof {
                    assert(self.active(i as int));
                    assert(self.keys@[i as int].is_some());
                }
                match &self.keys[i] {
                    Some(key) => {
                        let item = key.clone_item();
                        let v = self.values[i];
                        proof {
                            assert(item.key() == self.key_at(i as int));
                        }
                        out.push((item, v));
                        proof {
                            assert(out@.map_values(|e: (T, u64)| e.0.key()) =~= before.map_values(
                                |e: (T, u64)| e.0.key(),
                            ).push(self.key_at(i as int)));
                            assert(out@.map_values(|e: (T, u64)| e.1) =~= before.map_values(
                                |e: (T, u64)| e.1,
                            ).push(v));
                            assert(self.active_slots(i + 1) == slots.push(i as int));
                            assert(slots.push(i as int).map_values(|j: int| self.key_at(j))
                                =~= slots.map_values(|j: int| self.key_at(j)).push(
                                self.key_at(i as int),
                            ));
                            assert(slots.push(i as int).map_values(|j: int| self.values@[j])
                                =~= slots.map_values(|j: int| self.values@[j]).push(v));
                        }
                    },
                    None => {},
                }
            } else {
                proof {
                    assert(self.active_slots(i + 1) == slots);
                }
            }
            i = i + 1;
            proof {
                assert(out@.map_values(|e: (T, u64)| e.0.key()) =~= self.active_slots(
                    i as int,
                ).map_values(|j: int| self.key_at(j)));
                assert(out@.map_values(|e: (T, u64)| e.1) =~= self.active_slots(
                    i as int,
                ).map_values(|j: int| self.values@[j]));
            }
        }
        out
    }

    /// Subtracts an estimated median of the counts from every count, drops the counts that
    /// reach zero, and returns the subtracted value.
    pub fn purge(&mut self, sample_size: usize) -> (r: u64)
        requires
            old(self).wf(),
            sample_size >= 1,
            1 <= old(self).num_active_spec() <= old(self).capacity_spec() + 1,
        ensures
            final(self).wf(),
            final(self).lg_spec() == old(self).lg_spec(),
            final(self).len_spec() == old(self).len_spec(),
            final(self).capacity_spec() == old(self).capacity_spec(),
            final(self).view() == Self::reduced(old(self).view(), r),
            exists|k: Seq<u8>| old(self).view().contains_key(k) && old(self).view()[k] == r,
            exists|s: Seq<u64>|
                nondecreasing(s) && s.to_multiset() == old(self).slot_values().subrange(
                    0,
                    old(self).sample_len(sample_size),
                ).to_multiset() && r == s[old(self).sample_len(sample_size) / 2],
            final(self).num_active_spec() < old(self).num_active_spec(),
    {
        let ghost om = *self;
        let ghost n = self.len_spec();
        let mut limit = sample_size;
        if self.num_active < limit {
            limit = self.num_active;
        }
        if MAX_SAMPLE_SIZE < limit {
            limit = MAX_SAMPLE_SIZE;
        }
        let mut samples: Vec<u64> = Vec::new();
        let mut i: usize = 0;
        let len = self.values.len();
        proof {
            assert(om.kept_slots(0, 0) =~= Set::<int>::empty());
            vstd::set_lib::lemma_int_range(0, n);
        }
        while samples.len() < limit && i < len
            invariant
                *self == om,
                om.wf(),
                n == om.len_spec(),
                len == n,
                i <= len,
                1 <= limit <= om.num_active_spec(),
                samples@.len() <= limit,
                samples@.len() == om.kept_slots(i as int, 0).len(),
                samples@ == om.active_slots(i as int).map_values(|j: int| om.values@[j]),
                forall|j: int| 0 <= j < samples@.len() ==> #[trigger] om.holds_count(samples@[j]),
            decreases len - i,
        {
            proof {
                vstd::set_lib::lemma_int_range(0, i as int);
                vstd::set_lib::lemma_int_range(0, i + 1);
            }
            let ghost old_samples = samples@;
            let ghost slots = om.active_slots(i as int);
            if self.is_active(i) {
                samples.push(self.values[i]);
                proof {
                    assert(om.active_slots(i + 1) == slots.push(i as int));
                    assert(samples@ =~= om.active_slots(i + 1).map_values(|j: int| om.values@[j]));
                }
                proof {
                    assert(om.kept_slots(i + 1, 0) =~= om.kept_slots(i as int, 0).insert(i as int));
                    assert(!om.kept_slots(i as int, 0).contains(i as int));
                    assert forall|j: int| 0 <= j < samples@.len() implies #[trigger] om.holds_count(
                        samples@[j],
                    ) by {
                        if j == samples@.len() - 1 {
                            assert(om.active(i as int) && om.values@[i as int] == samples@[j]);
                        } else {
                            assert(samples@[j] == old_samples[j]);
                        }
                    }
                }
            } else {
                proof {
                    assert(om.kept_slots(i + 1, 0) =~= om.kept_slots(i as int, 0));
                    assert(om.active_slots(i + 1) == slots);
                }
            }
            i = i + 1;
        }
        proof {
            if samples@.len() < limit {
                assert forall|j: int| 0 <= j < n && om.active(j) implies #[trigger] om.values@[j] > 0 by {}
                assert(om.kept_slots(n, 0) =~= om.active_set());
            }
        }
        proof {
            om.lemma_active_slots_prefix(i as int, n);
            assert(samples@.len() == limit);
            assert(samples@ =~= om.slot_values().subrange(0, limit as int));
            assert(limit == om.sample_len(sample_size));
        }
        let sorted = sorted_copy(&samples);
        let mid = sorted.len() / 2;
        let median = sorted[mid];
        proof {
            broadcast use vstd::seq_lib::group_to_multiset_ensures;

            assert(exists|s: Seq<u64>|
                nondecreasing(s) && s.to_multiset() == om.slot_values().subrange(0, om.sample_len(sample_size)).to_multiset()
                    && median == s[om.sample_len(sample_size) / 2]) by {
                assert(nondecreasing(sorted@) && sorted@.to_multiset() == om.slot_values().subrange(0, om.sample_len(sample_size)).to_multiset()
                    && median == sorted@[om.sample_len(sample_size) / 2]);
            }
            assert(sorted@.contains(median));
            assert(samples@.to_multiset().count(median) > 0);
            assert(samples@.contains(median));
            let u = choose|u: int| 0 <= u < samples@.len() && samples@[u] == median;
            assert(om.holds_count(samples@[u]));
            let t = choose|t: int| 0 <= t < n && om.active(t) && om.values@[t] == median;
            om.lemma_view_facts();
            assert(om.view().contains_key(om.key_at(t)) && om.view()[om.key_at(t)] == median);
            assert(om.kept_slots(n, median).subset_of(om.active_set().remove(t)));
            vstd::set_lib::lemma_len_subset(om.kept_slots(n, median), om.active_set().remove(t));
            lemma_pow2_shift(om.lg_length);
        }
        let lg = self.lg_length;
        self.rebuild(lg, median);
        median
    }
}

} // verus!
