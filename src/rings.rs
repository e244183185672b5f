//! The ring structure of a bucket array: which buckets form the chain rooted at each
//! home, and the facts about it that every table operation relies on.

use vstd::prelude::*;
use vstd::set_lib::{lemma_int_range, lemma_len_subset, set_int_range};

use crate::layout::{
    capacity_of_shift, is_empty_meta, is_head_meta, lemma_hash_in_range, link_of, spec_hash,
    valid_shift,
};

verus! {

/// One slot of the table: metadata word, key and value.
#[derive(Clone, Copy, Debug)]
pub struct Bucket<T> {
    pub meta: u64,
    pub key: u64,
    pub value: T,
}

/// The bucket holds an entry.
pub open spec fn occupied<T>(b: Bucket<T>) -> bool {
    !is_empty_meta(b.meta)
}

/// The bucket is the home of a chain.
pub open spec fn is_head<T>(b: Bucket<T>) -> bool {
    is_head_meta(b.meta)
}

/// The index that a bucket's probe link names.
pub open spec fn next_of<T>(b: Bucket<T>) -> int {
    link_of(b.meta) as int
}

/// The home bucket of the key that a bucket holds.
pub open spec fn home_of<T>(b: Bucket<T>, shift: u64) -> int {
    spec_hash(b.key, shift) as int
}

/// The `j`-th member of the ring `r` rooted at `h` is occupied, belongs to `h`, and
/// links to the member after it (the last one back to `h`).
pub open spec fn member_ok<T>(bs: Seq<Bucket<T>>, shift: u64, h: int, r: Seq<int>, j: int) -> bool {
    let i = r[j];
    &&& 0 <= i < bs.len()
    &&& occupied(bs[i])
    &&& home_of(bs[i], shift) == h
    &&& next_of(bs[i]) == (if j + 1 < r.len() { r[j + 1] } else { h })
    &&& (j > 0 ==> !is_head(bs[i]))
}

/// `rings[h]` lists the ring rooted at `h`, starting at `h`; it is empty where `h` is no HEAD.
pub open spec fn ring_ok<T>(bs: Seq<Bucket<T>>, rings: Seq<Seq<int>>, shift: u64, h: int) -> bool {
    let r = rings[h];
    &&& (r.len() > 0 <==> is_head(bs[h]))
    &&& (r.len() > 0 ==> r[0] == h)
    &&& r.no_duplicates()
    &&& forall|j: int| 0 <= j < r.len() ==> #[trigger] member_ok(bs, shift, h, r, j)
}

/// The indices of the buckets that hold an entry.
pub open spec fn occupied_indices<T>(bs: Seq<Bucket<T>>) -> Set<int> {
    Set::new(|i: int| 0 <= i < bs.len() && occupied(bs[i]))
}

/// The chain structure of a bucket array described by `rings`.
pub open spec fn rings_ok<T>(bs: Seq<Bucket<T>>, rings: Seq<Seq<int>>, shift: u64) -> bool {
    &&& rings.len() == bs.len()
    &&& forall|i: int| 0 <= i < bs.len() && is_empty_meta(#[trigger] bs[i].meta) ==> !is_head(bs[i])
    &&& forall|h: int| 0 <= h < bs.len() ==> #[trigger] ring_ok(bs, rings, shift, h)
    &&& forall|i: int|
        0 <= i < bs.len() && occupied(#[trigger] bs[i]) ==> rings[home_of(bs[i], shift)].contains(i)
}

/// The entries that the buckets hold are exactly `m`, one bucket per key.
pub open spec fn holds<T>(bs: Seq<Bucket<T>>, m: Map<u64, T>) -> bool {
    &&& m.dom().finite()
    &&& forall|i: int, j: int|
        0 <= i < bs.len() && 0 <= j < bs.len() && occupied(#[trigger] bs[i]) && occupied(
            #[trigger] bs[j],
        ) && bs[i].key == bs[j].key ==> i == j
    &&& forall|i: int|
        0 <= i < bs.len() && occupied(#[trigger] bs[i]) ==> m.contains_key(bs[i].key) && m[bs[i].key]
            == bs[i].value
    &&& forall|k: u64|
        #[trigger] m.contains_key(k) ==> exists|i: int|
            0 <= i < bs.len() && occupied(#[trigger] bs[i]) && bs[i].key == k
}

/// The bucket reached from `i` by following `n` probe links.
pub open spec fn walk<T>(bs: Seq<Bucket<T>>, i: int, n: nat) -> int
    decreases n,
{
    if n == 0 {
        i
    } else {
        next_of(bs[walk(bs, i, (n - 1) as nat)])
    }
}

/// Bucket `i` lies on the ring rooted at `h`: a walk from `h` reaches `i` before it
/// first comes back to `h`.
pub open spec fn on_ring<T>(bs: Seq<Bucket<T>>, h: int, i: int) -> bool {
    exists|n: nat|
        #![trigger walk(bs, h, n)]
        walk(bs, h, n) == i && forall|m: nat| 0 < m <= n ==> #[trigger] walk(bs, h, m) != h
}

/// Walking from a ring's root visits its members in order and returns to the root
/// after as many steps as the ring has members.
pub proof fn lemma_walk_ring<T>(bs: Seq<Bucket<T>>, rings: Seq<Seq<int>>, shift: u64, h: int, n: nat)
    requires
        ring_ok(bs, rings, shift, h),
        rings[h].len() > 0,
        n <= rings[h].len(),
    ensures
        n < rings[h].len() ==> walk(bs, h, n) == rings[h][n as int],
        n == rings[h].len() ==> walk(bs, h, n) == h,
    decreases n,
{
    if n > 0 {
        lemma_walk_ring(bs, rings, shift, h, (n - 1) as nat);
        assert(member_ok(bs, shift, h, rings[h], n - 1));
    }
}

/// The buckets on the ring rooted at `h` are exactly the members that `rings[h]` lists.
pub proof fn lemma_on_ring_iff<T>(bs: Seq<Bucket<T>>, rings: Seq<Seq<int>>, shift: u64, h: int, i: int)
    requires
        ring_ok(bs, rings, shift, h),
        rings[h].len() > 0,
    ensures
        on_ring(bs, h, i) <==> rings[h].contains(i),
{
    let r = rings[h];
    if r.contains(i) {
        let j = choose|j: int| 0 <= j < r.len() && r[j] == i;
        lemma_walk_ring(bs, rings, shift, h, j as nat);
        assert forall|m: nat| 0 < m <= j implies #[trigger] walk(bs, h, m) != h by {
            lemma_walk_ring(bs, rings, shift, h, m);
            assert(r.no_duplicates());
            assert(r[m as int] != r[0]);
        }
        assert(walk(bs, h, j as nat) == i);
    }
    if on_ring(bs, h, i) {
        let n = choose|n: nat|
            #![trigger walk(bs, h, n)]
            walk(bs, h, n) == i && forall|m: nat| 0 < m <= n ==> #[trigger] walk(bs, h, m) != h;
        if n >= r.len() {
            lemma_walk_ring(bs, rings, shift, h, r.len());
            assert(walk(bs, h, r.len()) == h);
        }
        lemma_walk_ring(bs, rings, shift, h, n);
        assert(r[n as int] == i);
    }
}

/// A member of a ring is an occupied bucket whose home is the ring's root.
pub proof fn lemma_ring_member<T>(bs: Seq<Bucket<T>>, rings: Seq<Seq<int>>, shift: u64, h: int, i: int)
    requires
        rings_ok(bs, rings, shift),
        0 <= h < bs.len(),
        rings[h].contains(i),
    ensures
        0 <= i < bs.len(),
        occupied(bs[i]),
        home_of(bs[i], shift) == h,
{
    assert(ring_ok(bs, rings, shift, h));
    let j = choose|j: int| 0 <= j < rings[h].len() && rings[h][j] == i;
    assert(member_ok(bs, shift, h, rings[h], j));
}

/// A ring stays well formed where its members keep their metadata and keys and its
/// root keeps its HEAD bit.
pub proof fn lemma_ring_frame<T>(
    bs: Seq<Bucket<T>>,
    bs2: Seq<Bucket<T>>,
    rings: Seq<Seq<int>>,
    shift: u64,
    h: int,
)
    requires
        ring_ok(bs, rings, shift, h),
        bs2.len() == bs.len(),
        0 <= h < bs.len(),
        is_head(bs2[h]) == is_head(bs[h]),
        forall|j: int|
            0 <= j < rings[h].len() ==> bs2[#[trigger] rings[h][j]].meta == bs[rings[h][j]].meta
                && bs2[rings[h][j]].key == bs[rings[h][j]].key,
    ensures
        ring_ok(bs2, rings, shift, h),
{
    let r = rings[h];
    assert forall|j: int| 0 <= j < r.len() implies #[trigger] member_ok(bs2, shift, h, r, j) by {
        assert(member_ok(bs, shift, h, r, j));
        if j + 1 < r.len() {
            assert(bs2[r[j + 1]].meta == bs[r[j + 1]].meta);
        }
    }
}

/// `bs2` is `bs` after the entry in bucket `x` of ring `r` (rooted at `h`) was removed:
/// the tail's entry moved into `x`, the bucket before the tail links back to `h`, and
/// the tail is empty.
pub open spec fn spliced<T>(bs: Seq<Bucket<T>>, bs2: Seq<Bucket<T>>, r: Seq<int>, h: int, x: int) -> bool {
    let len = r.len();
    let tail = r[len - 1];
    let p = r[len - 2];
    &&& bs2.len() == bs.len()
    &&& is_empty_meta(bs2[tail].meta)
    &&& !is_head(bs2[tail])
    &&& (x != tail ==> bs2[x].key == bs[tail].key && bs2[x].value == bs[tail].value)
    &&& (x != tail && (len == 1 || x != p) ==> bs2[x].meta == bs[x].meta)
    &&& (len > 1 ==> occupied(bs2[p]) && is_head(bs2[p]) == is_head(bs[p]) && next_of(bs2[p]) == h)
    &&& (len > 1 && p != x ==> bs2[p].key == bs[p].key && bs2[p].value == bs[p].value)
    &&& forall|ii: int|
        0 <= ii < bs.len() && ii != tail && ii != x && (len == 1 || ii != p) ==> #[trigger] bs2[ii]
            == bs[ii]
}

/// Facts about a ring's last members that the tail splice relies on.
pub proof fn lemma_ring_tail<T>(bs: Seq<Bucket<T>>, rings: Seq<Seq<int>>, shift: u64, h: int, je: int)
    requires
        rings_ok(bs, rings, shift),
        0 <= h < bs.len(),
        0 <= je < rings[h].len(),
    ensures
        rings[h].no_duplicates(),
        rings[h][0] == h,
        is_head(bs[h]),
        member_ok(bs, shift, h, rings[h], je),
        member_ok(bs, shift, h, rings[h], rings[h].len() - 1),
        rings[h].len() > 1 ==> member_ok(bs, shift, h, rings[h], rings[h].len() - 2),
{
    assert(ring_ok(bs, rings, shift, h));
    if rings[h].len() > 1 {
        assert(member_ok(bs, shift, h, rings[h], rings[h].len() - 2));
    }
}

/// After the tail splice the ring rooted at `h`, less its tail, is well formed.
pub proof fn lemma_splice_ring_home<T>(
    bs: Seq<Bucket<T>>,
    bs2: Seq<Bucket<T>>,
    rings: Seq<Seq<int>>,
    shift: u64,
    h: int,
    je: int,
)
    requires
        rings_ok(bs, rings, shift),
        0 <= h < bs.len(),
        0 <= je < rings[h].len(),
        spliced(bs, bs2, rings[h], h, rings[h][je]),
    ensures
        ring_ok(bs2, rings.update(h, rings[h].drop_last()), shift, h),
{
    let r = rings[h];
    let len = r.len();
    let r2 = r.drop_last();
    lemma_ring_tail(bs, rings, shift, h, je);
    assert(ring_ok(bs, rings, shift, h));
    assert forall|jj: int| 0 <= jj < r2.len() implies #[trigger] member_ok(bs2, shift, h, r2, jj) by {
        assert(member_ok(bs, shift, h, r, jj));
        assert(member_ok(bs, shift, h, r, jj + 1));
    }
}

/// After the tail splice every ring but the one rooted at `h` is as it was.
pub proof fn lemma_splice_ring_other<T>(
    bs: Seq<Bucket<T>>,
    bs2: Seq<Bucket<T>>,
    rings: Seq<Seq<int>>,
    shift: u64,
    h: int,
    je: int,
    g: int,
)
    requires
        rings_ok(bs, rings, shift),
        0 <= h < bs.len(),
        0 <= je < rings[h].len(),
        spliced(bs, bs2, rings[h], h, rings[h][je]),
        0 <= g < bs.len(),
        g != h,
    ensures
        ring_ok(bs2, rings, shift, g),
{
    let r = rings[h];
    let len = r.len();
    let tail = r[len - 1];
    let x = r[je];
    lemma_ring_tail(bs, rings, shift, h, je);
    assert(ring_ok(bs, rings, shift, g));
    assert forall|jj: int| 0 <= jj < rings[g].len() implies bs2[#[trigger] rings[g][jj]] == bs[rings[g][jj]] by {
        assert(member_ok(bs, shift, g, rings[g], jj));
    }
    if is_head(bs[g]) {
        assert(member_ok(bs, shift, g, rings[g], 0));
    }
    lemma_ring_frame(bs, bs2, rings, shift, g);
}

/// After the tail splice every occupied bucket lies on the ring rooted at its home.
pub proof fn lemma_splice_membership<T>(
    bs: Seq<Bucket<T>>,
    bs2: Seq<Bucket<T>>,
    rings: Seq<Seq<int>>,
    shift: u64,
    h: int,
    je: int,
)
    requires
        rings_ok(bs, rings, shift),
        valid_shift(shift),
        bs.len() == capacity_of_shift(shift),
        0 <= h < bs.len(),
        0 <= je < rings[h].len(),
        spliced(bs, bs2, rings[h], h, rings[h][je]),
    ensures
        forall|ii: int|
            0 <= ii < bs2.len() && occupied(#[trigger] bs2[ii]) ==> rings.update(
                h,
                rings[h].drop_last(),
            )[home_of(bs2[ii], shift)].contains(ii),
{
    let r = rings[h];
    let len = r.len();
    let tail = r[len - 1];
    let x = r[je];
    let r2 = r.drop_last();
    let rings2 = rings.update(h, r2);
    lemma_ring_tail(bs, rings, shift, h, je);
    assert forall|ii: int| 0 <= ii < bs2.len() && occupied(#[trigger] bs2[ii]) implies rings2[home_of(
        bs2[ii],
        shift,
    )].contains(ii) by {
        assert(ii != tail);
        if ii == x {
            assert(je != len - 1);
            assert(home_of(bs2[ii], shift) == h);
            assert(r2[je] == ii);
        } else if len > 1 && ii == r[len - 2] {
            assert(home_of(bs2[ii], shift) == h);
            assert(r2[len - 2] == ii);
        } else {
            assert(bs2[ii] == bs[ii]);
            lemma_hash_in_range(bs[ii].key, shift);
            let hk = home_of(bs[ii], shift);
            assert(occupied(bs[ii]));
            assert(rings[hk].contains(ii));
            if hk == h {
                let jj = choose|jj: int| 0 <= jj < r.len() && r[jj] == ii;
                assert(jj != len - 1);
                assert(r2[jj] == ii);
            } else {
                assert(rings2[hk] == rings[hk]);
            }
        }
    }
}

/// Removing an entry by the tail splice keeps the rings well formed, with the ring
/// rooted at `h` one member shorter.
pub proof fn lemma_splice_rings<T>(
    bs: Seq<Bucket<T>>,
    bs2: Seq<Bucket<T>>,
    rings: Seq<Seq<int>>,
    shift: u64,
    h: int,
    je: int,
)
    requires
        rings_ok(bs, rings, shift),
        valid_shift(shift),
        bs.len() == capacity_of_shift(shift),
        0 <= h < bs.len(),
        0 <= je < rings[h].len(),
        spliced(bs, bs2, rings[h], h, rings[h][je]),
    ensures
        rings_ok(bs2, rings.update(h, rings[h].drop_last()), shift),
{
    let r = rings[h];
    let len = r.len();
    let tail = r[len - 1];
    let x = r[je];
    let r2 = r.drop_last();
    let rings2 = rings.update(h, r2);
    lemma_ring_tail(bs, rings, shift, h, je);
    assert forall|g: int| 0 <= g < bs2.len() implies #[trigger] ring_ok(bs2, rings2, shift, g) by {
        if g == h {
            lemma_splice_ring_home(bs, bs2, rings, shift, h, je);
        } else {
            lemma_splice_ring_other(bs, bs2, rings, shift, h, je, g);
        }
    }
    lemma_splice_membership(bs, bs2, rings, shift, h, je);
    assert forall|i: int| 0 <= i < bs2.len() && is_empty_meta(#[trigger] bs2[i].meta) implies !is_head(
        bs2[i],
    ) by {
        if i != tail && i != x && (len == 1 || i != r[len - 2]) {
            assert(bs2[i] == bs[i]);
        }
    }
}

/// Removing an entry by the tail splice removes its key from the entries held.
pub proof fn lemma_splice_holds<T>(
    bs: Seq<Bucket<T>>,
    bs2: Seq<Bucket<T>>,
    rings: Seq<Seq<int>>,
    shift: u64,
    m: Map<u64, T>,
    h: int,
    je: int,
)
    requires
        rings_ok(bs, rings, shift),
        holds(bs, m),
        0 <= h < bs.len(),
        rings[h].len() > 0,
        0 <= je < rings[h].len(),
        spliced(bs, bs2, rings[h], h, rings[h][je]),
    ensures
        m.contains_key(bs[rings[h][je]].key),
        holds(bs2, m.remove(bs[rings[h][je]].key)),
        occupied_indices(bs2) == occupied_indices(bs).remove(rings[h].last()),
{
    let r = rings[h];
    let len = r.len();
    let tail = r[len - 1];
    let x = r[je];
    let key = bs[x].key;
    let m2 = m.remove(key);
    assert(ring_ok(bs, rings, shift, h));
    assert(r.no_duplicates());
    assert(member_ok(bs, shift, h, r, je));
    assert(member_ok(bs, shift, h, r, len - 1));
    if len > 1 {
        assert(member_ok(bs, shift, h, r, len - 2));
    }
    assert(occupied(bs[x]));
    assert(occupied(bs[tail]));
    assert forall|a: int, b: int|
        0 <= a < bs2.len() && 0 <= b < bs2.len() && occupied(#[trigger] bs2[a]) && occupied(
            #[trigger] bs2[b],
        ) && bs2[a].key == bs2[b].key implies a == b by {
        let a0 = if a == x { tail } else { a };
        let b0 = if b == x { tail } else { b };
        assert(occupied(bs[a0]) && occupied(bs[b0]));
    }
    assert forall|ii: int| 0 <= ii < bs2.len() && occupied(#[trigger] bs2[ii]) implies m2.contains_key(
        bs2[ii].key,
    ) && m2[bs2[ii].key] == bs2[ii].value by {
        if ii == x {
            assert(occupied(bs[tail]));
        } else {
            assert(occupied(bs[ii]));
        }
    }
    assert forall|k: u64| #[trigger] m2.contains_key(k) implies exists|ii: int|
        0 <= ii < bs2.len() && occupied(#[trigger] bs2[ii]) && bs2[ii].key == k by {
        let ii = choose|ii: int| 0 <= ii < bs.len() && occupied(#[trigger] bs[ii]) && bs[ii].key == k;
        if ii == tail {
            assert(occupied(bs2[x]));
        } else {
            assert(occupied(bs2[ii]));
        }
    }
    assert(occupied_indices(bs2) =~= occupied_indices(bs).remove(tail)) by {
        assert forall|ii: int| 0 <= ii < bs2.len() && ii != tail implies occupied(#[trigger] bs2[ii])
            == occupied(bs[ii]) by {
            if ii == x {
                assert(occupied(bs[ii]));
            } else if len > 1 && ii == r[len - 2] {
                assert(occupied(bs[ii]));
            } else {
                assert(bs2[ii] == bs[ii]);
            }
        }
    }
}

/// The occupied buckets are finitely many, and fewer than all where one is empty.
pub proof fn lemma_occupied_bound<T>(bs: Seq<Bucket<T>>, e: int)
    requires
        0 <= e < bs.len(),
        !occupied(bs[e]),
    ensures
        occupied_indices(bs).finite(),
        occupied_indices(bs).len() < bs.len(),
{
    lemma_int_range(0, bs.len() as int);
    let full = set_int_range(0, bs.len() as int);
    assert(occupied_indices(bs).subset_of(full.remove(e)));
    lemma_len_subset(occupied_indices(bs), full.remove(e));
}

} // verus!
