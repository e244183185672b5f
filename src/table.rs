//! The hash table: buckets in one array, collision chains as rings through it.

use vstd::arithmetic::div_mod::lemma_small_mod;
use vstd::prelude::*;
use vstd::set_lib::{lemma_int_range, lemma_len_subset, set_int_range};

use crate::layout::{
    capacity_of_shift, hash, is_empty_meta, lemma_empty_meta, lemma_hash_in_range,
    lemma_capacity_power_of_two, lemma_head_meta, lemma_mask_is_mod, lemma_member_meta, lemma_relink_meta,
    lemma_shift_bounds, should_grow, should_shrink, spec_hash, spec_should_grow,
    spec_should_shrink, valid_shift, EMPTY_BIT_MASK, HEAD_BIT_MASK, MAX_BITS, MAX_CAPACITY,
    MIN_BITS, MIN_CAPACITY, PROBE_BITS_MASK, WORD_BITS,
};
use crate::probe::{lemma_probe_covers, lemma_probe_step, probe_index};
use crate::rings::{
    holds, home_of, is_head, lemma_occupied_bound, lemma_on_ring_iff,
    lemma_ring_frame, lemma_ring_member, lemma_splice_holds, lemma_splice_rings, lemma_walk_ring,
    member_ok, next_of, occupied, occupied_indices, on_ring, ring_ok, rings_ok, spliced, walk,
    Bucket,
};

verus! {

/// What a bucket's two flag bits say.
#[derive(Clone, Copy, Debug, PartialEq, Eq, Structural)]
pub enum BucketState {
    Empty,
    Head,
    Interior,
}

/// What `get` returns for `key` in a table whose entries are `m`.
pub open spec fn lookup<T>(m: Map<u64, T>, key: u64) -> Option<T> {
    if m.contains_key(key) {
        Some(m[key])
    } else {
        None
    }
}

/// `b` with its probe link redirected to `link`, keeping its HEAD bit, key and value.
pub open spec fn relinked<T>(b: Bucket<T>, link: int) -> Bucket<T> {
    Bucket { meta: (b.meta & HEAD_BIT_MASK) | (link as u64), key: b.key, value: b.value }
}

/// The HEAD bucket of a ring of one at `h`, holding `key` and `value`.
pub open spec fn lone_head<T>(h: int, key: u64, value: T) -> Bucket<T> {
    Bucket { meta: HEAD_BIT_MASK | (h as u64), key, value }
}

/// `e` is the first empty bucket that triangular probing from `start` meets.
pub open spec fn first_probed_empty<T>(bs: Seq<Bucket<T>>, start: int, e: int) -> bool {
    exists|x: nat|
        #![trigger probe_index(start, bs.len(), x)]
        1 <= x < bs.len() && e == probe_index(start, bs.len(), x) && !occupied(bs[e]) && forall|y: nat|
            y < x ==> occupied(#[trigger] bs[probe_index(start, bs.len(), y)])
}

/// An overwrite: only the value of the bucket that holds `key` changed, to `value`.
pub open spec fn overwritten<T>(bs: Seq<Bucket<T>>, bs2: Seq<Bucket<T>>, key: u64, value: T) -> bool {
    exists|i: int|
        #![trigger bs[i]]
        0 <= i < bs.len() && occupied(bs[i]) && bs[i].key == key && bs2 == bs.update(
            i,
            Bucket { meta: bs[i].meta, key, value },
        )
}

/// `key` joined the ring rooted at `h`: it went into the first empty bucket `e`
/// probed from the ring's tail `t`, and `t` now links to `e`; nothing else changed.
pub open spec fn appended<T>(bs: Seq<Bucket<T>>, bs2: Seq<Bucket<T>>, h: int, key: u64, value: T) -> bool {
    exists|t: int, e: int|
        #![trigger first_probed_empty(bs, t, e)]
        0 <= t < bs.len() && occupied(bs[t]) && next_of(bs[t]) == h && first_probed_empty(bs, t, e)
            && bs2 == bs.update(t, relinked(bs[t], e)).update(e, Bucket { meta: h as u64, key, value })
}

/// The squatter at `h` moved to the first empty bucket `e` probed from its ring
/// predecessor `p`, which now links to `e`, and `h` became a ring of one holding
/// `key`; nothing else changed.
pub open spec fn displaced<T>(bs: Seq<Bucket<T>>, bs2: Seq<Bucket<T>>, h: int, key: u64, value: T) -> bool {
    exists|p: int, e: int|
        #![trigger first_probed_empty(bs, p, e)]
        0 <= p < bs.len() && occupied(bs[p]) && next_of(bs[p]) == h && first_probed_empty(bs, p, e)
            && bs2 == bs.update(p, relinked(bs[p], e)).update(e, bs[h]).update(
            h,
            lone_head(h, key, value),
        )
}

/// What placing `key` with `value` does to a bucket array `bs` holding the entries
/// `m`, where `h` is the key's home: a present key has its value overwritten;
/// otherwise an empty home becomes a ring of one, a HEAD home's ring gains the key,
/// and an INTERIOR home has its squatter moved out first.
pub open spec fn emplaced<T>(
    bs: Seq<Bucket<T>>,
    bs2: Seq<Bucket<T>>,
    m: Map<u64, T>,
    h: int,
    key: u64,
    value: T,
) -> bool {
    &&& (m.contains_key(key) ==> overwritten(bs, bs2, key, value))
    &&& (!occupied(bs[h]) ==> bs2 == bs.update(h, lone_head(h, key, value)))
    &&& (occupied(bs[h]) && !is_head(bs[h]) ==> displaced(bs, bs2, h, key, value))
    &&& (is_head(bs[h]) && !m.contains_key(key) ==> appended(bs, bs2, h, key, value))
}

/// Bucket `h` is a HEAD, and an occupied bucket on its ring holds `key` with `value`.
pub open spec fn home_holds<T>(bs: Seq<Bucket<T>>, h: int, key: u64, value: T) -> bool {
    &&& is_head(bs[h])
    &&& exists|i: int|
        #![trigger bs[i]]
        0 <= i < bs.len() && occupied(bs[i]) && bs[i].key == key && bs[i].value == value && on_ring(
            bs,
            h,
            i,
        )
}

/// An open-addressed hash table from 64-bit keys to copyable values.
pub struct HashTable<T> {
    count: usize,
    shift: u64,
    mask: u64,
    buckets: Vec<Bucket<T>>,
    contents: Ghost<Map<u64, T>>,
    rings: Ghost<Seq<Seq<int>>>,
}

impl<T: Copy + Default> View for HashTable<T> {
    type V = Map<u64, T>;

    closed spec fn view(&self) -> Map<u64, T> {
        self.contents@
    }
}

impl<T: Copy + Default> HashTable<T> {
    /// The bucket array.
    pub closed spec fn spec_buckets(&self) -> Seq<Bucket<T>> {
        self.buckets@
    }

    /// The number of buckets.
    pub closed spec fn spec_capacity(&self) -> nat {
        self.buckets@.len()
    }

    /// The stored count of entries.
    pub closed spec fn spec_count(&self) -> nat {
        self.count as nat
    }

    /// The right shift of the hash.
    pub closed spec fn spec_shift(&self) -> u64 {
        self.shift
    }

    /// The mask that wraps probe offsets.
    pub closed spec fn spec_mask(&self) -> u64 {
        self.mask
    }

    /// The table's invariant: the capacity is 2^(64 - shift) with mask capacity - 1;
    /// the ghost `rings` list each chain, which closes on its HEAD bucket and holds
    /// exactly the occupied buckets whose keys have that home; the occupied buckets
    /// hold the entries of `contents`, one bucket per key; and `count` is both the
    /// number of entries and the number of occupied buckets.
    #[verifier::opaque]
    pub closed spec fn wf(&self) -> bool {
        let bs = self.buckets@;
        &&& valid_shift(self.shift)
        &&& bs.len() == capacity_of_shift(self.shift)
        &&& bs.len() <= usize::MAX
        &&& self.mask == bs.len() - 1
        &&& rings_ok(bs, self.rings@, self.shift)
        &&& holds(bs, self.contents@)
        &&& self.count == self.contents@.len()
        &&& occupied_indices(bs).finite()
        &&& occupied_indices(bs).len() == self.count
    }

    /// Creates an empty table whose capacity is the smallest power of two above
    /// `initial_capacity`, kept within [MIN_CAPACITY, MAX_CAPACITY].
    pub fn with_capacity(initial_capacity: usize) -> (t: Self)
        ensures
            t.wf(),
            t@ == Map::<u64, T>::empty(),
            t.spec_capacity() == capacity_of_shift(t.spec_shift()),
            initial_capacity < t.spec_capacity() || t.spec_capacity() == MAX_CAPACITY,
            t.spec_capacity() == MIN_CAPACITY || t.spec_capacity() / 2 <= initial_capacity,
            initial_capacity < MIN_CAPACITY ==> t.spec_capacity() == MIN_CAPACITY,
            t.spec_buckets().len() == t.spec_capacity(),
            forall|i: int|
                0 <= i < t.spec_capacity() ==> !occupied(#[trigger] t.spec_buckets()[i]) && !is_head(
                    t.spec_buckets()[i],
                ),
    {
        let mut shift: u64 = WORD_BITS - MIN_BITS;
        let mut cap: u64 = MIN_CAPACITY;
        proof {
            lemma_shift_bounds(shift);
        }
        while shift > WORD_BITS - MAX_BITS && cap <= initial_capacity as u64
            invariant
                valid_shift(shift),
                cap == capacity_of_shift(shift),
                cap == MIN_CAPACITY || cap / 2 <= initial_capacity,
            decreases shift,
        {
            proof {
                lemma_shift_bounds(shift);
            }
            shift = shift - 1;
            cap = cap * 2;
        }
        proof {
            lemma_shift_bounds(shift);
            lemma_empty_meta();
        }
        Self::empty_with_shift(shift)
    }

    /// An empty table of capacity `capacity_of_shift(shift)`.
    fn empty_with_shift(shift: u64) -> (t: Self)
        requires
            valid_shift(shift),
        ensures
            t.wf(),
            t@ == Map::<u64, T>::empty(),
            t.shift == shift,
            t.buckets@.len() == capacity_of_shift(shift),
            forall|i: int| 0 <= i < t.buckets@.len() ==> #[trigger] t.buckets@[i].meta == EMPTY_BIT_MASK,
    {
        reveal(HashTable::wf);
        proof {
            lemma_shift_bounds(shift);
            lemma_empty_meta();
        }
        let cap: u64 = 1u64 << (WORD_BITS - shift);
        let mut buckets: Vec<Bucket<T>> = Vec::new();
        while (buckets.len() as u64) < cap
            invariant
                cap == capacity_of_shift(shift),
                buckets@.len() <= cap,
                forall|i: int| 0 <= i < buckets@.len() ==> #[trigger] buckets@[i].meta == EMPTY_BIT_MASK,
            decreases cap - buckets@.len(),
        {
            buckets.push(Bucket { meta: EMPTY_BIT_MASK, key: 0, value: T::default() });
        }
        let ghost rings = Seq::new(cap as nat, |i: int| Seq::<int>::empty());
        let t = HashTable {
            count: 0,
            shift,
            mask: cap - 1,
            buckets,
            contents: Ghost(Map::empty()),
            rings: Ghost(rings),
        };
        proof {
            let bs = t.buckets@;
            assert(occupied_indices(bs) =~= Set::<int>::empty());
            assert forall|h: int| 0 <= h < bs.len() implies #[trigger] ring_ok(bs, rings, shift, h) by {
                assert(bs[h].meta == EMPTY_BIT_MASK);
            }
        }
        t
    }

    /// The shape facts that the invariant gives.
    proof fn lemma_geometry(&self)
        requires
            self.wf(),
        ensures
            valid_shift(self.shift),
            self.buckets@.len() == capacity_of_shift(self.shift),
            self.buckets@.len() <= usize::MAX,
            MIN_CAPACITY <= self.buckets@.len() <= MAX_CAPACITY,
            self.mask == self.buckets@.len() - 1,
            self.rings@.len() == self.buckets@.len(),
            self.count == self@.len(),
            self@.dom().finite(),
    {
        reveal(HashTable::wf);
        lemma_shift_bounds(self.shift);
    }

    /// The ring rooted at `h` is well formed.
    proof fn lemma_ring(&self, h: int)
        requires
            self.wf(),
            0 <= h < self.buckets@.len(),
        ensures
            ring_ok(self.buckets@, self.rings@, self.shift, h),
    {
        reveal(HashTable::wf);
    }

    /// The number of entries.
    pub fn count(&self) -> (r: usize)
        requires
            self.wf(),
        ensures
            r == self@.len(),
    {
        proof {
            self.lemma_geometry();
        }
        self.count
    }

    /// The number of buckets.
    pub fn capacity(&self) -> (r: usize)
        requires
            self.wf(),
        ensures
            r == self.spec_capacity(),
    {
        self.buckets.len()
    }

    /// The value stored under `key`, if any.
    pub fn get(&self, key: u64) -> (r: Option<&T>)
        requires
            self.wf(),
        ensures
            r == (if self@.contains_key(key) {
                Some(&self@[key])
            } else {
                None
            }),
    {
        proof {
            self.lemma_geometry();
            lemma_hash_in_range(key, self.shift);
        }
        let cap: usize = self.buckets.len();
        let hk: u64 = hash(key, self.shift);
        let h: usize = hk as usize;
        assert(h as int == spec_hash(key, self.shift) as int);
        if self.buckets[h].meta & HEAD_BIT_MASK == 0 {
            proof {
                self.lemma_absent_without_head(key);
            }
            return None;
        }
        let ghost bs = self.buckets@;
        let ghost r = self.rings@[h as int];
        proof {
            self.lemma_ring(h as int);
        }
        let mut i: usize = h;
        let ghost mut j: int = 0;
        loop
            invariant
                self.wf(),
                bs == self.buckets@,
                cap == bs.len(),
                h < cap,
                r == self.rings@[h as int],
                h as int == spec_hash(key, self.shift) as int,
                ring_ok(bs, self.rings@, self.shift, h as int),
                r.len() > 0,
                0 <= j < r.len(),
                i == r[j],
                forall|jj: int| 0 <= jj < j ==> bs[#[trigger] r[jj]].key != key,
            decreases r.len() - j,
        {
            assert(member_ok(bs, self.shift, h as int, r, j));
            if self.buckets[i].key == key {
                proof {
                    self.lemma_found(i as int, key);
                }
                return Some(&self.buckets[i].value);
            }
            let link: u64 = self.buckets[i].meta & PROBE_BITS_MASK;
            proof {
                if j + 1 < r.len() {
                    assert(member_ok(bs, self.shift, h as int, r, j + 1));
                }
            }
            assert(link < cap);
            let n: usize = link as usize;
            if n == h {
                proof {
                    if j + 1 < r.len() {
                        assert(r[j + 1] == r[0]);
                        assert(r.no_duplicates());
                    }
                    self.lemma_not_on_ring(key, j);
                }
                return None;
            }
            i = n;
            proof {
                j = j + 1;
            }
        }
    }

    /// A key whose home is no HEAD is absent.
    proof fn lemma_absent_without_head(&self, key: u64)
        requires
            self.wf(),
            !is_head(self.buckets@[spec_hash(key, self.shift) as int]),
        ensures
            !self@.contains_key(key),
    {
        reveal(HashTable::wf);
        let bs = self.buckets@;
        lemma_hash_in_range(key, self.shift);
        let h = spec_hash(key, self.shift) as int;
        assert(ring_ok(bs, self.rings@, self.shift, h));
        if self@.contains_key(key) {
            let i = choose|i: int| 0 <= i < bs.len() && occupied(#[trigger] bs[i]) && bs[i].key == key;
            assert(self.rings@[h].contains(i));
        }
    }

    /// The bucket at `i` holds `key`, so it holds the table's value for `key`.
    proof fn lemma_found(&self, i: int, key: u64)
        requires
            self.wf(),
            0 <= i < self.buckets@.len(),
            occupied(self.buckets@[i]),
            self.buckets@[i].key == key,
        ensures
            self@.contains_key(key),
            self@[key] == self.buckets@[i].value,
    {
        reveal(HashTable::wf);
        assert(occupied(self.buckets@[i]));
    }

    /// A key that no member of its home's ring holds is absent.
    proof fn lemma_not_on_ring(&self, key: u64, last: int)
        requires
            self.wf(),
            last + 1 == self.rings@[spec_hash(key, self.shift) as int].len(),
            forall|jj: int|
                0 <= jj <= last ==> self.buckets@[#[trigger] self.rings@[spec_hash(
                    key,
                    self.shift,
                ) as int][jj]].key != key,
        ensures
            !self@.contains_key(key),
    {
        reveal(HashTable::wf);
        let bs = self.buckets@;
        lemma_hash_in_range(key, self.shift);
        let h = spec_hash(key, self.shift) as int;
        let r = self.rings@[h];
        if self@.contains_key(key) {
            let i = choose|i: int| 0 <= i < bs.len() && occupied(#[trigger] bs[i]) && bs[i].key == key;
            assert(r.contains(i));
            let jj = choose|jj: int| 0 <= jj < r.len() && r[jj] == i;
            assert(bs[r[jj]].key != key);
        }
    }
    /// Finds an empty bucket by triangular probing from the occupied bucket `start`:
    /// the offsets 1, 3, 6, 10, ... reach every index of the table within
    /// `capacity` steps, and one of them is empty.
    fn probe_empty(&self, start: usize) -> (e: usize)
        requires
            self.wf(),
            start < self.buckets@.len(),
            occupied(self.buckets@[start as int]),
            self@.len() < self.buckets@.len(),
        ensures
            e < self.buckets@.len(),
            !occupied(self.buckets@[e as int]),
            first_probed_empty(self.buckets@, start as int, e as int),
    {
        proof {
            self.lemma_geometry();
            lemma_capacity_power_of_two(self.shift);
            lemma_small_mod(start as nat, self.buckets@.len());
        }
        let ghost bs = self.buckets@;
        let cap: usize = self.buckets.len();
        let ghost n = cap as nat;
        let cap64: u64 = cap as u64;
        let mut i: u64 = start as u64;
        let mut x: u64 = 1;
        while x < cap64
            invariant
                bs == self.buckets@,
                cap == bs.len(),
                n == cap,
                cap64 == cap,
                cap64 <= MAX_CAPACITY,
                valid_shift(self.shift),
                cap == capacity_of_shift(self.shift),
                self.mask == cap - 1,
                1 <= x <= cap64,
                i as int == probe_index(start as int, n, (x - 1) as nat),
                i < cap,
                forall|y: nat| y < x ==> occupied(#[trigger] bs[probe_index(start as int, n, y)]),
            decreases cap64 - x,
        {
            proof {
                lemma_mask_is_mod((i + x) as u64, self.shift);
                lemma_probe_step(start as int, n, x as nat);
            }
            i = (i + x) & self.mask;
            if self.buckets[i as usize].meta & EMPTY_BIT_MASK != 0 {
                proof {
                    assert(probe_index(start as int, bs.len(), x as nat) == i);
                }
                return i as usize;
            }
            x = x + 1;
        }
        proof {
            reveal(HashTable::wf);
            assert forall|y: nat| y < n implies occupied_indices(bs).contains(
                #[trigger] probe_index(start as int, n, y),
            ) by {
                assert(occupied(bs[probe_index(start as int, n, y)]));
            }
            lemma_probe_covers(start as int, n, occupied_indices(bs));
        }
        start
    }

    /// Case of an empty home: the new entry becomes a ring of one.
    fn place_home(&mut self, h: usize, key: u64, value: T)
        requires
            old(self).wf(),
            h as int == spec_hash(key, old(self).shift) as int,
            !occupied(old(self).buckets@[h as int]),
        ensures
            final(self).wf(),
            !old(self)@.contains_key(key),
            final(self)@ == old(self)@.insert(key, value),
            final(self).buckets@ == old(self).buckets@.update(h as int, lone_head(h as int, key, value)),
            final(self).shift == old(self).shift,
            final(self).buckets@.len() == old(self).buckets@.len(),
    {
        proof {
            self.lemma_geometry();
            lemma_hash_in_range(key, self.shift);
            lemma_head_meta(h as u64);
            reveal(HashTable::wf);
            lemma_occupied_bound(self.buckets@, h as int);
        }
        let ghost bs = self.buckets@;
        let ghost rings = self.rings@;
        let ghost m = self.contents@;
        proof {
            assert(ring_ok(bs, rings, self.shift, h as int));
            if m.contains_key(key) {
                let i = choose|i: int| 0 <= i < bs.len() && occupied(#[trigger] bs[i]) && bs[i].key == key;
                assert(rings[h as int].contains(i));
            }
        }
        self.buckets[h] = Bucket { meta: HEAD_BIT_MASK | (h as u64), key, value };
        self.count = self.count + 1;
        self.contents = Ghost(m.insert(key, value));
        self.rings = Ghost(rings.update(h as int, seq![h as int]));
        proof {
            let bs2 = self.buckets@;
            let rings2 = self.rings@;
            let shift = self.shift;
            assert forall|g: int| 0 <= g < bs2.len() implies #[trigger] ring_ok(bs2, rings2, shift, g) by {
                if g == h as int {
                    assert(member_ok(bs2, shift, g, rings2[g], 0));
                } else {
                    assert(ring_ok(bs, rings, shift, g));
                    assert forall|j: int| 0 <= j < rings[g].len() implies bs2[#[trigger] rings[g][j]]
                        == bs[rings[g][j]] by {
                        assert(member_ok(bs, shift, g, rings[g], j));
                    }
                    lemma_ring_frame(bs, bs2, rings, shift, g);
                }
            }
            assert forall|i: int| 0 <= i < bs2.len() && occupied(#[trigger] bs2[i]) implies rings2[home_of(
                bs2[i],
                shift,
            )].contains(i) by {
                if i == h as int {
                    assert(rings2[h as int][0] == i);
                } else {
                    assert(bs2[i] == bs[i]);
                    lemma_hash_in_range(bs[i].key, shift);
                    if home_of(bs[i], shift) == h as int {
                        assert(rings[h as int].contains(i));
                    }
                }
            }
            assert(occupied_indices(bs2) =~= occupied_indices(bs).insert(h as int));
            assert(holds(bs2, self.contents@)) by {
                assert forall|k: u64| #[trigger] self.contents@.contains_key(k) implies exists|i: int|
                    0 <= i < bs2.len() && occupied(#[trigger] bs2[i]) && bs2[i].key == k by {
                    if k == key {
                        assert(occupied(bs2[h as int]));
                    } else {
                        let i = choose|i: int| 0 <= i < bs.len() && occupied(#[trigger] bs[i]) && bs[i].key == k;
                        assert(bs2[i] == bs[i]);
                    }
                }
            }
        }
    }

    /// Case of a home that roots a ring: the entry overwrites the bucket holding `key`
    /// on the ring, or joins the ring after its tail in a probed empty bucket.
    fn emplace_on_ring(&mut self, h: usize, key: u64, value: T) -> (r: Option<T>)
        requires
            old(self).wf(),
            h as int == spec_hash(key, old(self).shift) as int,
            is_head(old(self).buckets@[h as int]),
            old(self)@.contains_key(key) || old(self)@.len() < old(self).buckets@.len(),
        ensures
            final(self).wf(),
            final(self)@ == old(self)@.insert(key, value),
            r == (if old(self)@.contains_key(key) {
                Some(old(self)@[key])
            } else {
                None
            }),
            final(self).shift == old(self).shift,
            final(self).buckets@.len() == old(self).buckets@.len(),
            old(self)@.contains_key(key) ==> overwritten(old(self).buckets@, final(self).buckets@, key, value),
            !old(self)@.contains_key(key) ==> appended(old(self).buckets@, final(self).buckets@, h as int, key, value),
    {
        proof {
            self.lemma_geometry();
            lemma_hash_in_range(key, self.shift);
            self.lemma_ring(h as int);
        }
        let ghost bs = self.buckets@;
        let ghost shift = self.shift;
        let ghost r = self.rings@[h as int];
        let cap: usize = self.buckets.len();
        let mut i: usize = h;
        let ghost mut j: int = 0;
        loop
            invariant
                *self == *old(self),
                self.wf(),
                bs == self.buckets@,
                shift == self.shift,
                cap == bs.len(),
                h < cap,
                r == self.rings@[h as int],
                h as int == spec_hash(key, shift) as int,
                ring_ok(bs, self.rings@, shift, h as int),
                r.len() > 0,
                0 <= j < r.len(),
                i == r[j],
                forall|jj: int| 0 <= jj < j ==> bs[#[trigger] r[jj]].key != key,
            ensures
                *self == *old(self),
                !self@.contains_key(key),
                r.len() > 0,
                i as int == r.last(),
            decreases r.len() - j,
        {
            assert(member_ok(bs, shift, h as int, r, j));
            if self.buckets[i].key == key {
                proof {
                    self.lemma_found(i as int, key);
                }
                let previous = self.overwrite_at(i, value);
                proof {
                    assert(bs[i as int].key == key);
                    assert(occupied(bs[i as int]));
                }
                return Some(previous);
            }
            let link: u64 = self.buckets[i].meta & PROBE_BITS_MASK;
            proof {
                if j + 1 < r.len() {
                    assert(member_ok(bs, shift, h as int, r, j + 1));
                }
            }
            let n: usize = link as usize;
            if n == h {
                proof {
                    if j + 1 < r.len() {
                        assert(r[j + 1] == r[0]);
                        assert(r.no_duplicates());
                    }
                    self.lemma_not_on_ring(key, j);
                }
                break;
            }
            i = n;
            proof {
                j = j + 1;
            }
        }
        self.append_after_tail(h, i, key, value);
        None
    }

    /// Replaces the value of the occupied bucket `i`, returning the value it held.
    fn overwrite_at(&mut self, i: usize, value: T) -> (previous: T)
        requires
            old(self).wf(),
            i < old(self).buckets@.len(),
            occupied(old(self).buckets@[i as int]),
        ensures
            final(self).wf(),
            old(self)@.contains_key(old(self).buckets@[i as int].key),
            previous == old(self)@[old(self).buckets@[i as int].key],
            final(self)@ == old(self)@.insert(old(self).buckets@[i as int].key, value),
            final(self).buckets@ == old(self).buckets@.update(
                i as int,
                Bucket { meta: old(self).buckets@[i as int].meta, key: old(self).buckets@[i as int].key, value },
            ),
            final(self).shift == old(self).shift,
            final(self).buckets@.len() == old(self).buckets@.len(),
    {
        reveal(HashTable::wf);
        let ghost bs = self.buckets@;
        let ghost rings = self.rings@;
        let ghost m = self.contents@;
        let ghost shift = self.shift;
        let mut b = self.buckets[i];
        let key = b.key;
        let previous = b.value;
        b.value = value;
        self.buckets[i] = b;
        self.contents = Ghost(m.insert(key, value));
        proof {
            let bs2 = self.buckets@;
            assert forall|g: int| 0 <= g < bs2.len() implies #[trigger] ring_ok(bs2, rings, shift, g) by {
                assert(ring_ok(bs, rings, shift, g));
                assert forall|jj: int| 0 <= jj < rings[g].len() implies bs2[#[trigger] rings[g][jj]].meta
                    == bs[rings[g][jj]].meta && bs2[rings[g][jj]].key == bs[rings[g][jj]].key by {
                    assert(member_ok(bs, shift, g, rings[g], jj));
                }
                lemma_ring_frame(bs, bs2, rings, shift, g);
            }
            assert forall|ii: int| 0 <= ii < bs2.len() && occupied(#[trigger] bs2[ii]) implies rings[home_of(
                bs2[ii],
                shift,
            )].contains(ii) by {
                assert(occupied(bs[ii]));
            }
            assert(occupied_indices(bs2) =~= occupied_indices(bs));
            assert(m.insert(key, value).dom() =~= m.dom());
            assert(holds(bs2, self.contents@)) by {
                assert forall|ii: int| 0 <= ii < bs2.len() && occupied(#[trigger] bs2[ii]) implies self.contents@.contains_key(bs2[ii].key) && self.contents@[bs2[ii].key] == bs2[ii].value by {
                    assert(occupied(bs[ii]));
                }
                assert forall|k: u64| #[trigger] self.contents@.contains_key(k) implies exists|ii: int|
                    0 <= ii < bs2.len() && occupied(#[trigger] bs2[ii]) && bs2[ii].key == k by {
                    let ii = choose|ii: int| 0 <= ii < bs.len() && occupied(#[trigger] bs[ii]) && bs[ii].key == k;
                    assert(occupied(bs2[ii]));
                }
            }
        }
        previous
    }

    /// Puts the absent `key` into a probed empty bucket linked after `tail`, the last
    /// member of the ring rooted at `h`.
    fn append_after_tail(&mut self, h: usize, tail: usize, key: u64, value: T)
        requires
            old(self).wf(),
            h as int == spec_hash(key, old(self).shift) as int,
            old(self).rings@[h as int].len() > 0,
            tail as int == old(self).rings@[h as int].last(),
            !old(self)@.contains_key(key),
            old(self)@.len() < old(self).buckets@.len(),
        ensures
            final(self).wf(),
            final(self)@ == old(self)@.insert(key, value),
            appended(old(self).buckets@, final(self).buckets@, h as int, key, value),
            final(self).shift == old(self).shift,
            final(self).buckets@.len() == old(self).buckets@.len(),
    {
        proof {
            self.lemma_geometry();
            lemma_hash_in_range(key, self.shift);
            self.lemma_ring(h as int);
        }
        let ghost bs = self.buckets@;
        let ghost rings = self.rings@;
        let ghost m = self.contents@;
        let ghost shift = self.shift;
        let ghost r = rings[h as int];
        let ghost j = r.len() - 1;
        assert(member_ok(bs, shift, h as int, r, j));
        let e: usize = self.probe_empty(tail);
        proof {
            reveal(HashTable::wf);
            lemma_occupied_bound(bs, e as int);
            lemma_relink_meta(bs[tail as int].meta, e as u64);
            lemma_member_meta(h as u64);
        }
        let mut t = self.buckets[tail];
        t.meta = (t.meta & HEAD_BIT_MASK) | (e as u64);
        self.buckets[tail] = t;
        self.buckets[e] = Bucket { meta: h as u64, key, value };
        self.count = self.count + 1;
        self.contents = Ghost(m.insert(key, value));
        self.rings = Ghost(rings.update(h as int, r.push(e as int)));
        proof {
            let bs2 = self.buckets@;
            let rings2 = self.rings@;
            let r2 = r.push(e as int);
            assert forall|jj: int| 0 <= jj < r.len() implies r[jj] != e as int by {
                assert(member_ok(bs, shift, h as int, r, jj));
            }
            assert forall|g: int| 0 <= g < bs2.len() implies #[trigger] ring_ok(bs2, rings2, shift, g) by {
                assert(ring_ok(bs, rings, shift, g));
                if g == h as int {
                    assert forall|jj: int| 0 <= jj < r2.len() implies #[trigger] member_ok(bs2, shift, g, r2, jj) by {
                        if jj < r.len() {
                            assert(member_ok(bs, shift, g, r, jj));
                            if jj + 1 < r.len() {
                                assert(member_ok(bs, shift, g, r, jj + 1));
                            }
                        }
                    }
                } else {
                    assert forall|jj: int| 0 <= jj < rings[g].len() implies bs2[#[trigger] rings[g][jj]]
                        == bs[rings[g][jj]] by {
                        assert(member_ok(bs, shift, g, rings[g], jj));
                    }
                    lemma_ring_frame(bs, bs2, rings, shift, g);
                }
            }
            assert forall|ii: int| 0 <= ii < bs2.len() && occupied(#[trigger] bs2[ii]) implies rings2[home_of(
                bs2[ii],
                shift,
            )].contains(ii) by {
                if ii == e as int {
                    assert(r2[r.len() as int] == ii);
                } else if ii == tail as int {
                    assert(r2[j] == ii);
                } else {
                    assert(bs2[ii] == bs[ii]);
                    lemma_hash_in_range(bs[ii].key, shift);
                    if home_of(bs[ii], shift) == h as int {
                        let jj = choose|jj: int| 0 <= jj < r.len() && r[jj] == ii;
                        assert(r2[jj] == ii);
                    }
                }
            }
            assert(occupied_indices(bs2) =~= occupied_indices(bs).insert(e as int));
            assert(holds(bs2, self.contents@)) by {
                assert forall|k: u64| #[trigger] self.contents@.contains_key(k) implies exists|ii: int|
                    0 <= ii < bs2.len() && occupied(#[trigger] bs2[ii]) && bs2[ii].key == k by {
                    if k == key {
                        assert(occupied(bs2[e as int]));
                    } else {
                        let ii = choose|ii: int| 0 <= ii < bs.len() && occupied(#[trigger] bs[ii]) && bs[ii].key == k;
                        assert(occupied(bs2[ii]));
                    }
                }
            }
        }
    }

    /// Case of a home held by a member of another ring: that member moves to a probed
    /// empty bucket, linked in its place, and the new entry takes the home as a ring
    /// of one.
    fn displace(&mut self, h: usize, key: u64, value: T)
        requires
            old(self).wf(),
            h as int == spec_hash(key, old(self).shift) as int,
            occupied(old(self).buckets@[h as int]),
            !is_head(old(self).buckets@[h as int]),
            old(self)@.len() < old(self).buckets@.len(),
        ensures
            final(self).wf(),
            !old(self)@.contains_key(key),
            final(self)@ == old(self)@.insert(key, value),
            displaced(old(self).buckets@, final(self).buckets@, h as int, key, value),
            final(self).shift == old(self).shift,
            final(self).buckets@.len() == old(self).buckets@.len(),
    {
        proof {
            self.lemma_geometry();
            lemma_hash_in_range(key, self.shift);
        }
        let ghost bs = self.buckets@;
        let ghost rings = self.rings@;
        let ghost m = self.contents@;
        let ghost shift = self.shift;
        let cap: usize = self.buckets.len();
        let squatter = self.buckets[h];
        proof {
            lemma_hash_in_range(squatter.key, shift);
        }
        let h2: usize = hash(squatter.key, self.shift) as usize;
        let ghost r2 = rings[h2 as int];
        proof {
            reveal(HashTable::wf);
            assert(occupied(bs[h as int]));
            assert(r2.contains(h as int));
            assert(ring_ok(bs, rings, shift, h as int));
            assert(ring_ok(bs, rings, shift, h2 as int));
            if m.contains_key(key) {
                let i = choose|i: int| 0 <= i < bs.len() && occupied(#[trigger] bs[i]) && bs[i].key == key;
                assert(rings[h as int].contains(i));
            }
        }
        let ghost jh = choose|jh: int| 0 <= jh < r2.len() && r2[jh] == h as int;
        proof {
            assert(member_ok(bs, shift, h2 as int, r2, jh));
            assert(jh > 0);
        }
        let mut p: usize = h2;
        let ghost mut j: int = 0;
        loop
            invariant
                *self == *old(self),
                bs == self.buckets@,
                shift == self.shift,
                cap == bs.len(),
                h < cap,
                ring_ok(bs, rings, shift, h2 as int),
                r2 == rings[h2 as int],
                0 < jh < r2.len(),
                r2[jh] == h as int,
                0 <= j < jh,
                p as int == r2[j],
            ensures
                *self == *old(self),
                p as int == r2[jh - 1],
                ring_ok(bs, rings, shift, h2 as int),
                r2 == rings[h2 as int],
            decreases jh - j,
        {
            assert(member_ok(bs, shift, h2 as int, r2, j));
            assert(member_ok(bs, shift, h2 as int, r2, j + 1));
            let link: u64 = self.buckets[p].meta & PROBE_BITS_MASK;
            let n: usize = link as usize;
            if n == h {
                proof {
                    assert(r2.no_duplicates());
                }
                break;
            }
            p = n;
            proof {
                j = j + 1;
            }
        }
        assert(member_ok(bs, shift, h2 as int, r2, jh - 1));
        let e: usize = self.probe_empty(p);
        proof {
            reveal(HashTable::wf);
            lemma_occupied_bound(bs, e as int);
            lemma_relink_meta(bs[p as int].meta, e as u64);
            lemma_head_meta(h as u64);
        }
        let mut pb = self.buckets[p];
        pb.meta = (pb.meta & HEAD_BIT_MASK) | (e as u64);
        self.buckets[p] = pb;
        self.buckets[e] = squatter;
        self.buckets[h] = Bucket { meta: HEAD_BIT_MASK | (h as u64), key, value };
        self.count = self.count + 1;
        self.contents = Ghost(m.insert(key, value));
        self.rings = Ghost(rings.update(h2 as int, r2.update(jh, e as int)).update(h as int, seq![h as int]));
        proof {
            let bs2 = self.buckets@;
            let rings2 = self.rings@;
            let r3 = r2.update(jh, e as int);
            assert(r2.no_duplicates());
            assert forall|jj: int| 0 <= jj < r2.len() implies r2[jj] != e as int by {
                assert(member_ok(bs, shift, h2 as int, r2, jj));
            }
            assert(rings2[h2 as int] == r3);
            assert forall|g: int| 0 <= g < bs2.len() implies #[trigger] ring_ok(bs2, rings2, shift, g) by {
                assert(ring_ok(bs, rings, shift, g));
                if g == h as int {
                    assert(member_ok(bs2, shift, g, rings2[g], 0));
                } else if g == h2 as int {
                    assert forall|jj: int| 0 <= jj < r3.len() implies #[trigger] member_ok(bs2, shift, g, r3, jj) by {
                        assert(member_ok(bs, shift, g, r2, jj));
                        if jj + 1 < r2.len() {
                            assert(member_ok(bs, shift, g, r2, jj + 1));
                        }
                    }
                } else {
                    assert forall|jj: int| 0 <= jj < rings[g].len() implies bs2[#[trigger] rings[g][jj]]
                        == bs[rings[g][jj]] by {
                        assert(member_ok(bs, shift, g, rings[g], jj));
                    }
                    lemma_ring_frame(bs, bs2, rings, shift, g);
                }
            }
            assert forall|ii: int| 0 <= ii < bs2.len() && occupied(#[trigger] bs2[ii]) implies rings2[home_of(
                bs2[ii],
                shift,
            )].contains(ii) by {
                if ii == h as int {
                    assert(rings2[ii][0] == ii);
                } else if ii == e as int {
                    assert(r3[jh] == ii);
                } else if ii == p as int {
                    assert(r3[jh - 1] == ii);
                } else {
                    assert(bs2[ii] == bs[ii]);
                    lemma_hash_in_range(bs[ii].key, shift);
                    let hk = home_of(bs[ii], shift);
                    assert(rings[hk].contains(ii));
                    if hk == h2 as int {
                        let jj = choose|jj: int| 0 <= jj < r2.len() && r2[jj] == ii;
                        assert(r3[jj] == ii);
                    }
                }
            }
            assert(occupied_indices(bs2) =~= occupied_indices(bs).insert(e as int));
            assert(holds(bs2, self.contents@)) by {
                assert forall|a: int, b: int|
                    0 <= a < bs2.len() && 0 <= b < bs2.len() && occupied(#[trigger] bs2[a]) && occupied(
                        #[trigger] bs2[b],
                    ) && bs2[a].key == bs2[b].key implies a == b by {
                    let a0 = if a == e as int { h as int } else { a };
                    let b0 = if b == e as int { h as int } else { b };
                    assert(occupied(bs[h as int]));
                    if a != h as int && b != h as int {
                        assert(occupied(bs[a0]) && occupied(bs[b0]));
                        assert(bs[a0].key == bs[b0].key);
                    } else if a != h as int {
                        assert(occupied(bs[a0]));
                        assert(m.contains_key(bs[a0].key));
                    } else if b != h as int {
                        assert(occupied(bs[b0]));
                        assert(m.contains_key(bs[b0].key));
                    }
                }
                assert forall|ii: int| 0 <= ii < bs2.len() && occupied(#[trigger] bs2[ii]) implies self.contents@.contains_key(bs2[ii].key) && self.contents@[bs2[ii].key] == bs2[ii].value by {
                    if ii == e as int {
                        assert(occupied(bs[h as int]));
                    } else if ii != h as int {
                        assert(occupied(bs[ii]));
                    }
                }
                assert forall|k: u64| #[trigger] self.contents@.contains_key(k) implies exists|ii: int|
                    0 <= ii < bs2.len() && occupied(#[trigger] bs2[ii]) && bs2[ii].key == k by {
                    if k == key {
                        assert(occupied(bs2[h as int]));
                    } else {
                        let ii = choose|ii: int| 0 <= ii < bs.len() && occupied(#[trigger] bs[ii]) && bs[ii].key == k;
                        if ii == h as int {
                            assert(occupied(bs2[e as int]));
                        } else {
                            assert(occupied(bs2[ii]));
                        }
                    }
                }
            }
        }
    }

    /// Places an entry without looking at the load factor: replaces the value of a
    /// present key and returns the old one; otherwise adds the entry and returns `None`.
    pub fn emplace(&mut self, key: u64, value: T) -> (r: Option<T>)
        requires
            old(self).wf(),
            old(self)@.contains_key(key) || old(self)@.len() < old(self).spec_capacity(),
        ensures
            final(self).wf(),
            final(self)@ == old(self)@.insert(key, value),
            r == lookup(old(self)@, key),
            final(self).spec_shift() == old(self).spec_shift(),
            final(self).spec_capacity() == old(self).spec_capacity(),
            home_holds(
                final(self).spec_buckets(),
                spec_hash(key, old(self).spec_shift()) as int,
                key,
                value,
            ),
            emplaced(
                old(self).spec_buckets(),
                final(self).spec_buckets(),
                old(self)@,
                spec_hash(key, old(self).spec_shift()) as int,
                key,
                value,
            ),
    {
        proof {
            self.lemma_geometry();
            lemma_hash_in_range(key, self.shift);
        }
        let h: usize = hash(key, self.shift) as usize;
        let meta: u64 = self.buckets[h].meta;
        proof {
            reveal(HashTable::wf);
            assert(is_empty_meta(self.buckets@[h as int].meta) ==> !is_head(self.buckets@[h as int]));
        }
        let r = if meta & EMPTY_BIT_MASK != 0 {
            self.place_home(h, key, value);
            None
        } else if meta & HEAD_BIT_MASK != 0 {
            self.emplace_on_ring(h, key, value)
        } else {
            proof {
                self.lemma_absent_without_head(key);
            }
            self.displace(h, key, value);
            None
        };
        proof {
            self.lemma_home_holds(key);
        }
        r
    }

    /// There are no more entries than buckets.
    proof fn lemma_count_bound(&self)
        requires
            self.wf(),
        ensures
            self@.len() <= self.buckets@.len(),
    {
        reveal(HashTable::wf);
        let bs = self.buckets@;
        lemma_int_range(0, bs.len() as int);
        lemma_len_subset(occupied_indices(bs), set_int_range(0, bs.len() as int));
    }

    /// A table with the same entries whose hash is shifted right by `shift`, built by
    /// placing every entry of this one into an empty table of that size.
    fn rehash_into(&self, shift: u64) -> (t: Self)
        requires
            self.wf(),
            valid_shift(shift),
            self@.len() < capacity_of_shift(shift),
        ensures
            t.wf(),
            t@ == self@,
            t.shift == shift,
            t.buckets@.len() == capacity_of_shift(shift),
    {
        proof {
            self.lemma_geometry();
        }
        let ghost bs = self.buckets@;
        let ghost m = self@;
        let mut fresh = Self::empty_with_shift(shift);
        let cap: usize = self.buckets.len();
        let mut i: usize = 0;
        while i < cap
            invariant
                self.wf(),
                bs == self.buckets@,
                m == self@,
                m.dom().finite(),
                m.len() < capacity_of_shift(shift),
                cap == bs.len(),
                i <= cap,
                fresh.wf(),
                fresh.shift == shift,
                fresh.buckets@.len() == capacity_of_shift(shift),
                forall|k: u64| #[trigger]
                    fresh@.contains_key(k) ==> m.contains_key(k) && fresh@[k] == m[k],
                forall|jj: int|
                    0 <= jj < i && occupied(#[trigger] bs[jj]) ==> fresh@.contains_key(bs[jj].key),
                forall|k: u64| #[trigger]
                    fresh@.contains_key(k) ==> exists|jj: int|
                        0 <= jj < i && occupied(#[trigger] bs[jj]) && bs[jj].key == k,
            decreases cap - i,
        {
            let b = self.buckets[i];
            if b.meta & EMPTY_BIT_MASK == 0 {
                proof {
                    reveal(HashTable::wf);
                    fresh.lemma_geometry();
                    assert(occupied(bs[i as int]));
                    if fresh@.contains_key(b.key) {
                        let jj = choose|jj: int| 0 <= jj < i && occupied(#[trigger] bs[jj]) && bs[jj].key == b.key;
                        assert(occupied(bs[jj]));
                    }
                    assert(fresh@.dom().subset_of(m.dom().remove(b.key)));
                    lemma_len_subset(fresh@.dom(), m.dom().remove(b.key));
                }
                fresh.emplace(b.key, b.value);
                proof {
                    reveal(HashTable::wf);
                    assert forall|k: u64| #[trigger] fresh@.contains_key(k) implies exists|jj: int|
                        0 <= jj < i + 1 && occupied(#[trigger] bs[jj]) && bs[jj].key == k by {
                        if k == b.key {
                            assert(occupied(bs[i as int]));
                        } else {
                            assert(exists|jj: int| 0 <= jj < i && occupied(#[trigger] bs[jj]) && bs[jj].key == k);
                        }
                    }
                }
            }
            i = i + 1;
        }
        proof {
            reveal(HashTable::wf);
            assert(fresh@ =~= m) by {
                assert forall|k: u64| m.contains_key(k) implies #[trigger] fresh@.contains_key(k) by {
                    let jj = choose|jj: int| 0 <= jj < bs.len() && occupied(#[trigger] bs[jj]) && bs[jj].key == k;
                    assert(occupied(bs[jj]));
                }
            }
        }
        fresh
    }

    /// Doubles the capacity, keeping every entry; does nothing at MAX_CAPACITY.
    fn grow(&mut self)
        requires
            old(self).wf(),
        ensures
            final(self).wf(),
            final(self)@ == old(self)@,
            final(self).spec_capacity() == (if old(self).spec_capacity() < MAX_CAPACITY {
                2 * old(self).spec_capacity()
            } else {
                old(self).spec_capacity()
            }),
            old(self).spec_capacity() == MAX_CAPACITY ==> *final(self) == *old(self),
    {
        proof {
            self.lemma_geometry();
            self.lemma_count_bound();
            lemma_shift_bounds(self.shift);
        }
        let old_capacity: usize = self.buckets.len();
        if (old_capacity as u64) < MAX_CAPACITY {
            let bigger = self.rehash_into(self.shift - 1);
            *self = bigger;
        }
    }

    /// Halves the capacity of a table loaded at most 3/8, keeping every entry; does
    /// nothing at MIN_CAPACITY.
    fn shrink(&mut self)
        requires
            old(self).wf(),
            old(self).spec_capacity() > MIN_CAPACITY ==> spec_should_shrink(
                old(self)@.len(),
                old(self).spec_capacity(),
            ),
        ensures
            final(self).wf(),
            final(self)@ == old(self)@,
            final(self).spec_capacity() == (if old(self).spec_capacity() > MIN_CAPACITY {
                old(self).spec_capacity() / 2
            } else {
                old(self).spec_capacity()
            }),
            old(self).spec_capacity() == MIN_CAPACITY ==> *final(self) == *old(self),
    {
        proof {
            self.lemma_geometry();
            lemma_shift_bounds(self.shift);
        }
        let old_capacity: usize = self.buckets.len();
        if (old_capacity as u64) > MIN_CAPACITY {
            let smaller = self.rehash_into(self.shift + 1);
            *self = smaller;
        }
    }

    /// Adds or replaces the entry for `key`, first doubling the capacity where the
    /// load factor has reached 15/16. Returns the value that `key` had.
    pub fn insert(&mut self, key: u64, value: T) -> (r: Option<T>)
        requires
            old(self).wf(),
            old(self)@.len() < MAX_CAPACITY,
        ensures
            final(self).wf(),
            final(self)@ == old(self)@.insert(key, value),
            r == lookup(old(self)@, key),
            final(self).spec_capacity() == (if spec_should_grow(
                old(self)@.len(),
                old(self).spec_capacity(),
            ) && old(self).spec_capacity() < MAX_CAPACITY {
                2 * old(self).spec_capacity()
            } else {
                old(self).spec_capacity()
            }),
            home_holds(
                final(self).spec_buckets(),
                spec_hash(key, final(self).spec_shift()) as int,
                key,
                value,
            ),
            !(spec_should_grow(old(self)@.len(), old(self).spec_capacity())
                && old(self).spec_capacity() < MAX_CAPACITY) ==> final(self).spec_shift()
                == old(self).spec_shift(),
            !(spec_should_grow(old(self)@.len(), old(self).spec_capacity())
                && old(self).spec_capacity() < MAX_CAPACITY) ==> emplaced(
                old(self).spec_buckets(),
                final(self).spec_buckets(),
                old(self)@,
                spec_hash(key, old(self).spec_shift()) as int,
                key,
                value,
            ),
    {
        proof {
            self.lemma_geometry();
            self.lemma_count_bound();
        }
        if should_grow(self.count, self.buckets.len()) {
            self.grow();
        }
        proof {
            self.lemma_geometry();
        }
        self.emplace(key, value)
    }

    /// Another name for `insert`.
    pub fn put(&mut self, key: u64, value: T) -> (r: Option<T>)
        requires
            old(self).wf(),
            old(self)@.len() < MAX_CAPACITY,
        ensures
            final(self).wf(),
            final(self)@ == old(self)@.insert(key, value),
            r == lookup(old(self)@, key),
            final(self).spec_capacity() == (if spec_should_grow(
                old(self)@.len(),
                old(self).spec_capacity(),
            ) && old(self).spec_capacity() < MAX_CAPACITY {
                2 * old(self).spec_capacity()
            } else {
                old(self).spec_capacity()
            }),
            home_holds(
                final(self).spec_buckets(),
                spec_hash(key, final(self).spec_shift()) as int,
                key,
                value,
            ),
            !(spec_should_grow(old(self)@.len(), old(self).spec_capacity())
                && old(self).spec_capacity() < MAX_CAPACITY) ==> final(self).spec_shift()
                == old(self).spec_shift(),
            !(spec_should_grow(old(self)@.len(), old(self).spec_capacity())
                && old(self).spec_capacity() < MAX_CAPACITY) ==> emplaced(
                old(self).spec_buckets(),
                final(self).spec_buckets(),
                old(self)@,
                spec_hash(key, old(self).spec_shift()) as int,
                key,
                value,
            ),
    {
        self.insert(key, value)
    }

    /// Removes the entry for `key`, if present, then halves the capacity where the
    /// load factor has fallen to 3/8. An absent key leaves the table as it was.
    pub fn delete(&mut self, key: u64)
        requires
            old(self).wf(),
        ensures
            final(self).wf(),
            final(self)@ == old(self)@.remove(key),
            !old(self)@.contains_key(key) ==> *final(self) == *old(self),
            final(self).spec_capacity() == (if old(self)@.contains_key(key) && spec_should_shrink(
                (old(self)@.len() - 1) as nat,
                old(self).spec_capacity(),
            ) && old(self).spec_capacity() > MIN_CAPACITY {
                old(self).spec_capacity() / 2
            } else {
                old(self).spec_capacity()
            }),
    {
        proof {
            self.lemma_geometry();
            lemma_hash_in_range(key, self.shift);
        }
        let cap: usize = self.buckets.len();
        let h: usize = hash(key, self.shift) as usize;
        if self.buckets[h].meta & HEAD_BIT_MASK == 0 {
            proof {
                self.lemma_absent_without_head(key);
                assert(self@.remove(key) =~= self@);
            }
            return;
        }
        proof {
            self.lemma_ring(h as int);
        }
        let ghost bs = self.buckets@;
        let ghost shift = self.shift;
        let ghost r = self.rings@[h as int];
        let mut erase: Option<usize> = None;
        let mut prev: Option<usize> = None;
        let mut last: usize = h;
        let ghost mut j: int = 0;
        let ghost mut je: int = 0;
        loop
            invariant_except_break
                erase is None ==> forall|jj: int| 0 <= jj < j ==> bs[#[trigger] r[jj]].key != key,
                erase matches Some(x) ==> 0 <= je < j && x as int == r[je] && bs[r[je]].key == key,
            invariant
                *self == *old(self),
                self.wf(),
                bs == self.buckets@,
                shift == self.shift,
                cap == bs.len(),
                h < cap,
                r == self.rings@[h as int],
                h as int == spec_hash(key, shift) as int,
                ring_ok(bs, self.rings@, shift, h as int),
                r.len() > 0,
                0 <= j < r.len(),
                last as int == r[j],
                j == 0 ==> prev is None,
                j > 0 ==> prev == Some(r[j - 1] as usize),
            ensures
                *self == *old(self),
                self.wf(),
                r.len() > 0,
                last as int == r.last(),
                r.len() == 1 ==> prev is None,
                r.len() > 1 ==> prev == Some(r[r.len() - 2] as usize),
                erase is None ==> forall|jj: int| 0 <= jj < r.len() ==> bs[#[trigger] r[jj]].key != key,
                erase matches Some(x) ==> 0 <= je < r.len() && x as int == r[je] && bs[r[je]].key == key,
            decreases r.len() - j,
        {
            assert(member_ok(bs, shift, h as int, r, j));
            if self.buckets[last].key == key {
                erase = Some(last);
                proof {
                    je = j;
                }
            }
            let link: u64 = self.buckets[last].meta & PROBE_BITS_MASK;
            proof {
                if j + 1 < r.len() {
                    assert(member_ok(bs, shift, h as int, r, j + 1));
                }
            }
            let n: usize = link as usize;
            if n == h {
                proof {
                    if j + 1 < r.len() {
                        assert(r[j + 1] == r[0]);
                        assert(r.no_duplicates());
                    }
                }
                break;
            }
            prev = Some(last);
            last = n;
            proof {
                j = j + 1;
            }
        }
        match erase {
            None => {
                proof {
                    self.lemma_not_on_ring(key, r.len() - 1);
                    assert(self@.remove(key) =~= self@);
                }
            },
            Some(x) => {
                self.splice_out(h, x, prev, last, Ghost(je));
                proof {
                    self.lemma_geometry();
                }
                if should_shrink(self.count, self.buckets.len()) {
                    self.shrink();
                }
            },
        }
    }

    /// Removes the entry in bucket `x` of the ring rooted at `h`: the tail's entry
    /// moves into `x`, the bucket before the tail links back to `h`, and the tail
    /// becomes empty.
    fn splice_out(&mut self, h: usize, x: usize, prev: Option<usize>, tail: usize, je: Ghost<int>)
        requires
            old(self).wf(),
            h < old(self).buckets@.len(),
            old(self).rings@[h as int].len() > 0,
            tail as int == old(self).rings@[h as int].last(),
            old(self).rings@[h as int].len() == 1 ==> prev is None,
            old(self).rings@[h as int].len() > 1 ==> prev == Some(
                old(self).rings@[h as int][old(self).rings@[h as int].len() - 2] as usize,
            ),
            0 <= je@ < old(self).rings@[h as int].len(),
            x as int == old(self).rings@[h as int][je@],
        ensures
            final(self).wf(),
            old(self)@.contains_key(old(self).buckets@[x as int].key),
            final(self)@ == old(self)@.remove(old(self).buckets@[x as int].key),
            final(self).shift == old(self).shift,
            final(self).buckets@.len() == old(self).buckets@.len(),
    {
        proof {
            self.lemma_geometry();
            self.lemma_ring(h as int);
        }
        let ghost bs = self.buckets@;
        let ghost rings = self.rings@;
        let ghost m = self.contents@;
        let ghost shift = self.shift;
        let ghost r = rings[h as int];
        let ghost len = r.len();
        let ghost key = bs[x as int].key;
        proof {
            reveal(HashTable::wf);
            lemma_empty_meta();
            assert(member_ok(bs, shift, h as int, r, je@));
            assert(member_ok(bs, shift, h as int, r, len - 1));
            if len > 1 {
                assert(member_ok(bs, shift, h as int, r, len - 2));
                lemma_relink_meta(bs[r[len - 2]].meta, h as u64);
            }
            assert(r.no_duplicates());
        }
        match prev {
            Some(p) => {
                let mut pb = self.buckets[p];
                pb.meta = (pb.meta & HEAD_BIT_MASK) | (h as u64);
                self.buckets[p] = pb;
            },
            None => {},
        }
        proof {
            let bs1 = self.buckets@;
            if len > 1 {
                let p = r[len - 2];
                assert(bs1 == bs.update(p, bs1[p]));
                assert(occupied(bs1[p]) && is_head(bs1[p]) == is_head(bs[p]) && next_of(bs1[p]) == h as int);
            } else {
                assert(bs1 == bs);
            }
        }
        let tb = self.buckets[tail];
        let mut eb = self.buckets[x];
        eb.key = tb.key;
        eb.value = tb.value;
        self.buckets[x] = eb;
        let mut emptied = self.buckets[tail];
        emptied.meta = EMPTY_BIT_MASK;
        self.buckets[tail] = emptied;
        proof {
            let bs2 = self.buckets@;
            let t = tail as int;
            assert(bs2.len() == bs.len());
            assert(is_empty_meta(bs2[t].meta));
            assert(!is_head(bs2[t]));
            assert(x as int != t ==> bs2[x as int].key == bs[t].key && bs2[x as int].value == bs[t].value);
            assert(x as int != t && (len == 1 || x as int != r[len - 2]) ==> bs2[x as int].meta == bs[x as int].meta);
            assert(len > 1 ==> occupied(bs2[r[len - 2]]) && is_head(bs2[r[len - 2]]) == is_head(bs[r[len - 2]]) && next_of(bs2[r[len - 2]]) == h as int);
            assert(len > 1 && r[len - 2] != x as int ==> bs2[r[len - 2]].key == bs[r[len - 2]].key && bs2[r[len - 2]].value == bs[r[len - 2]].value);
            assert(forall|ii: int| 0 <= ii < bs.len() && ii != t && ii != x as int && (len == 1 || ii != r[len - 2]) ==> #[trigger] bs2[ii] == bs[ii]);
            assert(spliced(bs, bs2, r, h as int, x as int));
            lemma_splice_rings(bs, bs2, rings, shift, h as int, je@);
            lemma_splice_holds(bs, bs2, rings, shift, m, h as int, je@);
            assert(occupied_indices(bs).contains(tail as int));
            assert(occupied_indices(bs).remove(tail as int).len() == occupied_indices(bs).len() - 1);
        }
        self.count = self.count - 1;
        self.contents = Ghost(m.remove(key));
        self.rings = Ghost(rings.update(h as int, r.drop_last()));
        proof {
            assert(occupied(bs[tail as int]));
        }
    }

    /// The table's shape: its capacity is the power of two 2^(64 - shift), within
    /// [MIN_CAPACITY, MAX_CAPACITY], and its mask is the capacity less one.
    pub proof fn lemma_shape(&self)
        requires
            self.wf(),
        ensures
            valid_shift(self.spec_shift()),
            self.spec_capacity() == capacity_of_shift(self.spec_shift()),
            MIN_CAPACITY <= self.spec_capacity() <= MAX_CAPACITY,
            self.spec_mask() == self.spec_capacity() - 1,
            self.spec_buckets().len() == self.spec_capacity(),
    {
        self.lemma_geometry();
    }

    /// The entries are what the occupied buckets hold: a key is present exactly when
    /// an occupied bucket holds it, that bucket is the only one, and its value is the
    /// key's value.
    pub proof fn lemma_entries(&self)
        requires
            self.wf(),
        ensures
            holds(self.spec_buckets(), self@),
    {
        reveal(HashTable::wf);
    }

    /// A present key lies on the ring of its home, which is a HEAD.
    pub proof fn lemma_home_holds(&self, key: u64)
        requires
            self.wf(),
            self@.contains_key(key),
        ensures
            home_holds(self.spec_buckets(), spec_hash(key, self.spec_shift()) as int, key, self@[key]),
    {
        reveal(HashTable::wf);
        let bs = self.buckets@;
        let i = choose|i: int| 0 <= i < bs.len() && occupied(#[trigger] bs[i]) && bs[i].key == key;
        assert(occupied(bs[i]));
        self.lemma_home_ring(i);
    }

    /// The probe link of an occupied bucket names a bucket inside the table.
    pub proof fn lemma_link_in_range(&self, i: int)
        requires
            self.wf(),
            0 <= i < self.spec_capacity(),
            occupied(self.spec_buckets()[i]),
        ensures
            0 <= next_of(self.spec_buckets()[i]) < self.spec_capacity(),
    {
        reveal(HashTable::wf);
        let bs = self.buckets@;
        lemma_hash_in_range(bs[i].key, self.shift);
        let h = home_of(bs[i], self.shift);
        let r = self.rings@[h];
        assert(r.contains(i));
        assert(ring_ok(bs, self.rings@, self.shift, h));
        let j = choose|j: int| 0 <= j < r.len() && r[j] == i;
        assert(member_ok(bs, self.shift, h, r, j));
        if j + 1 < r.len() {
            assert(member_ok(bs, self.shift, h, r, j + 1));
        }
    }

    /// The count is the number of buckets whose EMPTY bit is clear.
    pub proof fn lemma_count_is_occupied(&self)
        requires
            self.wf(),
        ensures
            self.spec_count() == self@.len(),
            self.spec_count() == occupied_indices(self.spec_buckets()).len(),
    {
        reveal(HashTable::wf);
    }

    /// A bucket is occupied exactly when it lies on the ring of some HEAD bucket.
    pub proof fn lemma_rings_cover(&self, i: int)
        requires
            self.wf(),
            0 <= i < self.spec_capacity(),
        ensures
            occupied(self.spec_buckets()[i]) <==> exists|h: int|
                0 <= h < self.spec_capacity() && is_head(self.spec_buckets()[h]) && on_ring(
                    self.spec_buckets(),
                    h,
                    i,
                ),
    {
        reveal(HashTable::wf);
        let bs = self.buckets@;
        if occupied(bs[i]) {
            self.lemma_home_ring(i);
            lemma_hash_in_range(bs[i].key, self.shift);
            let h = spec_hash(bs[i].key, self.shift) as int;
            assert(0 <= h < bs.len() && is_head(bs[h]) && on_ring(bs, h, i));
        }
        if exists|h: int| 0 <= h < bs.len() && is_head(bs[h]) && on_ring(bs, h, i) {
            let h = choose|h: int| 0 <= h < bs.len() && is_head(bs[h]) && on_ring(bs, h, i);
            assert(ring_ok(bs, self.rings@, self.shift, h));
            lemma_on_ring_iff(bs, self.rings@, self.shift, h, i);
            lemma_ring_member(bs, self.rings@, self.shift, h, i);
        }
    }

    /// An occupied bucket lies on the ring rooted at its key's home, which is a HEAD.
    pub proof fn lemma_home_ring(&self, i: int)
        requires
            self.wf(),
            0 <= i < self.spec_capacity(),
            occupied(self.spec_buckets()[i]),
        ensures
            is_head(self.spec_buckets()[spec_hash(self.spec_buckets()[i].key, self.spec_shift()) as int]),
            on_ring(
                self.spec_buckets(),
                spec_hash(self.spec_buckets()[i].key, self.spec_shift()) as int,
                i,
            ),
    {
        reveal(HashTable::wf);
        let bs = self.buckets@;
        lemma_hash_in_range(bs[i].key, self.shift);
        let h = home_of(bs[i], self.shift);
        assert(self.rings@[h].contains(i));
        assert(ring_ok(bs, self.rings@, self.shift, h));
        lemma_on_ring_iff(bs, self.rings@, self.shift, h, i);
    }

    /// No bucket lies on the rings of two different HEAD buckets.
    pub proof fn lemma_rings_disjoint(&self, h1: int, h2: int, i: int)
        requires
            self.wf(),
            0 <= h1 < self.spec_capacity(),
            0 <= h2 < self.spec_capacity(),
            is_head(self.spec_buckets()[h1]),
            is_head(self.spec_buckets()[h2]),
            on_ring(self.spec_buckets(), h1, i),
            on_ring(self.spec_buckets(), h2, i),
        ensures
            h1 == h2,
    {
        reveal(HashTable::wf);
        let bs = self.buckets@;
        assert(ring_ok(bs, self.rings@, self.shift, h1));
        assert(ring_ok(bs, self.rings@, self.shift, h2));
        lemma_on_ring_iff(bs, self.rings@, self.shift, h1, i);
        lemma_on_ring_iff(bs, self.rings@, self.shift, h2, i);
        lemma_ring_member(bs, self.rings@, self.shift, h1, i);
        lemma_ring_member(bs, self.rings@, self.shift, h2, i);
    }

    /// Every ring closes: following probe links from a HEAD bucket returns to it in
    /// at most `capacity` steps, passing on the way only occupied buckets inside the
    /// table whose HEAD bit is clear.
    pub proof fn lemma_ring_closes(&self, h: int)
        requires
            self.wf(),
            0 <= h < self.spec_capacity(),
            is_head(self.spec_buckets()[h]),
        ensures
            exists|n: nat|
                1 <= n <= self.spec_capacity() && walk(self.spec_buckets(), h, n) == h && forall|j: nat|
                    0 < j < n ==> {
                        let b = #[trigger] walk(self.spec_buckets(), h, j);
                        &&& 0 <= b < self.spec_capacity()
                        &&& b != h
                        &&& occupied(self.spec_buckets()[b])
                        &&& !is_head(self.spec_buckets()[b])
                    },
    {
        reveal(HashTable::wf);
        let bs = self.buckets@;
        let r = self.rings@[h];
        assert(ring_ok(bs, self.rings@, self.shift, h));
        lemma_walk_ring(bs, self.rings@, self.shift, h, r.len());
        r.unique_seq_to_set();
        lemma_int_range(0, bs.len() as int);
        assert forall|x: int| r.to_set().contains(x) implies set_int_range(0, bs.len() as int).contains(x) by {
            let j = choose|j: int| 0 <= j < r.len() && r[j] == x;
            assert(member_ok(bs, self.shift, h, r, j));
        }
        lemma_len_subset(r.to_set(), set_int_range(0, bs.len() as int));
        assert(walk(bs, h, r.len()) == h);
        assert forall|j: nat| 0 < j < r.len() implies {
            let b = #[trigger] walk(bs, h, j);
            &&& 0 <= b < bs.len()
            &&& b != h
            &&& occupied(bs[b])
            &&& !is_head(bs[b])
        } by {
            lemma_walk_ring(bs, self.rings@, self.shift, h, j);
            assert(member_ok(bs, self.shift, h, r, j as int));
            assert(r.no_duplicates());
            assert(r[j as int] != r[0]);
        }
    }

    /// The count is the number of keys for which `get` finds a value.
    pub proof fn lemma_count_matches_lookup(&self)
        requires
            self.wf(),
        ensures
            self.spec_count() == Set::new(|k: u64| lookup(self@, k) is Some).len(),
    {
        reveal(HashTable::wf);
        assert(Set::new(|k: u64| lookup(self@, k) is Some) =~= self@.dom());
    }

    /// The home bucket of `key` at the table's current size.
    pub fn home(&self, key: u64) -> (r: usize)
        requires
            self.wf(),
        ensures
            r == spec_hash(key, self.spec_shift()),
            r < self.spec_capacity(),
    {
        proof {
            self.lemma_geometry();
            lemma_hash_in_range(key, self.shift);
        }
        hash(key, self.shift) as usize
    }

    /// The right shift applied after multiplying by the hash constant.
    pub fn shift(&self) -> (r: u64)
        ensures
            r == self.spec_shift(),
    {
        self.shift
    }

    /// The capacity less one, with which probe offsets wrap around.
    pub fn mask(&self) -> (r: u64)
        ensures
            r == self.spec_mask(),
    {
        self.mask
    }

    /// Which of its three states bucket `i` is in.
    pub fn bucket_state(&self, i: usize) -> (r: BucketState)
        requires
            i < self.spec_capacity(),
        ensures
            r == (if !occupied(self.spec_buckets()[i as int]) {
                BucketState::Empty
            } else if is_head(self.spec_buckets()[i as int]) {
                BucketState::Head
            } else {
                BucketState::Interior
            }),
    {
        let meta: u64 = self.buckets[i].meta;
        if meta & EMPTY_BIT_MASK != 0 {
            BucketState::Empty
        } else if meta & HEAD_BIT_MASK != 0 {
            BucketState::Head
        } else {
            BucketState::Interior
        }
    }

    /// The next bucket of the chain through the occupied bucket `i`.
    pub fn probe_link(&self, i: usize) -> (r: usize)
        requires
            self.wf(),
            i < self.spec_capacity(),
            occupied(self.spec_buckets()[i as int]),
        ensures
            r == next_of(self.spec_buckets()[i as int]),
    {
        proof {
            self.lemma_home_ring(i as int);
            reveal(HashTable::wf);
            let bs = self.buckets@;
            lemma_hash_in_range(bs[i as int].key, self.shift);
            let h = home_of(bs[i as int], self.shift);
            let r = self.rings@[h];
            assert(r.contains(i as int));
            assert(ring_ok(bs, self.rings@, self.shift, h));
            let j = choose|j: int| 0 <= j < r.len() && r[j] == i as int;
            assert(member_ok(bs, self.shift, h, r, j));
            if j + 1 < r.len() {
                assert(member_ok(bs, self.shift, h, r, j + 1));
            }
            lemma_hash_in_range(bs[i as int].key, self.shift);
        }
        (self.buckets[i].meta & PROBE_BITS_MASK) as usize
    }

    /// The key that bucket `i` holds, if it is occupied.
    pub fn key_at(&self, i: usize) -> (r: Option<u64>)
        requires
            i < self.spec_capacity(),
        ensures
            r == (if occupied(self.spec_buckets()[i as int]) {
                Some(self.spec_buckets()[i as int].key)
            } else {
                None
            }),
    {
        if self.buckets[i].meta & EMPTY_BIT_MASK != 0 {
            None
        } else {
            Some(self.buckets[i].key)
        }
    }

}

} // verus!
