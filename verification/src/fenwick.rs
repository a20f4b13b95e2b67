//! A set of small indices that can hand out its `n`-th smallest member in
//! logarithmic time, backed by a Fenwick tree of member counts.
use crate::bits::{bit_length, enabled_bits};
use crate::rng::{ranged, RngHandle};
use fixedbitset::FixedBitSet;
use vstd::prelude::*;

verus! {

/// The number of members of `s` in the half-open interval `lo..hi`.
pub open spec fn count_in(s: Set<int>, lo: int, hi: int) -> nat
    decreases hi - lo,
{
    if hi <= lo {
        0
    } else {
        count_in(s, lo, hi - 1) + if s.contains(hi - 1) { 1nat } else { 0nat }
    }
}

/// Whether `m` is the member of `s` that has exactly `k` members below it.
pub open spec fn is_nth(s: Set<int>, k: int, m: int) -> bool {
    s.contains(m) && m >= 0 && count_in(s, 0, m) == k
}

/// The member of `s` that has exactly `k` members below it.
pub open spec fn nth_member(s: Set<int>, k: int) -> int {
    choose|m: int| is_nth(s, k, m)
}

/// The lowest bit that is set in `i`.
pub open spec fn low_bit(i: usize) -> usize {
    i & !((i - 1) as usize)
}

/// An interval holds no more members than it is long.
pub proof fn lemma_count_bounds(s: Set<int>, lo: int, hi: int)
    requires
        lo <= hi,
    ensures
        count_in(s, lo, hi) <= hi - lo,
    decreases hi - lo,
{
    if lo < hi {
        lemma_count_bounds(s, lo, hi - 1);
    }
}

/// The members of an interval are those of its two parts.
pub proof fn lemma_count_split(s: Set<int>, lo: int, mid: int, hi: int)
    requires
        lo <= mid <= hi,
    ensures
        count_in(s, lo, hi) == count_in(s, lo, mid) + count_in(s, mid, hi),
    decreases hi - mid,
{
    if mid < hi {
        lemma_count_split(s, lo, mid, hi - 1);
    }
}

/// A new member counts once in every interval that it lies in.
pub proof fn lemma_count_insert(s: Set<int>, p: int, lo: int, hi: int)
    requires
        !s.contains(p),
    ensures
        count_in(s.insert(p), lo, hi) == count_in(s, lo, hi) + if lo <= p < hi {
            1nat
        } else {
            0nat
        },
    decreases hi - lo,
{
    if lo < hi {
        lemma_count_insert(s, p, lo, hi - 1);
    }
}

/// An interval that counts as many members as it is long lies in the set.
pub proof fn lemma_count_full(s: Set<int>, lo: int, hi: int)
    requires
        lo <= hi,
        count_in(s, lo, hi) == hi - lo,
    ensures
        forall|i: int| lo <= i < hi ==> s.contains(i),
    decreases hi - lo,
{
    if lo < hi {
        lemma_count_bounds(s, lo, hi - 1);
        lemma_count_full(s, lo, hi - 1);
    }
}

/// A rank belongs to one member at most.
pub proof fn lemma_nth_unique(s: Set<int>, k: int, m1: int, m2: int)
    requires
        is_nth(s, k, m1),
        is_nth(s, k, m2),
    ensures
        m1 == m2,
{
    if m1 < m2 {
        lemma_count_split(s, 0, m1 + 1, m2);
    } else if m2 < m1 {
        lemma_count_split(s, 0, m2 + 1, m1);
    }
}

/// The lowest set bit of a positive index is positive and no larger than it.
proof fn lemma_low_bit_range(i: usize)
    by (bit_vector)
    requires
        i > 0,
    ensures
        0 < low_bit(i) <= i,
{
}

/// The node after `i` on the way up covers everything that `i` covers.
proof fn lemma_low_bit_parent(i: usize, j: usize)
    by (bit_vector)
    requires
        i > 0,
        i + low_bit(i) == j,
    ensures
        j - low_bit(j) <= i - low_bit(i),
{
}

/// A node strictly between `i` and the node after it covers nothing below `i`.
proof fn lemma_low_bit_between(i: usize, k: usize)
    by (bit_vector)
    requires
        i > 0,
        i < k,
        k < i + low_bit(i),
    ensures
        k - low_bit(k) >= i,
{
}

/// Whether `step` is a power of two and the bits of `pos` from that of `step`
/// downwards are clear.
spec fn aligned(pos: usize, step: usize) -> bool {
    step > 0 && step & ((step - 1) as usize) == 0 && pos & (step | ((step - 1) as usize)) == 0
}

/// The node in the middle of an aligned window covers its lower half, and
/// both halves are aligned windows of half the size.
proof fn lemma_aligned_mid(pos: usize, step: usize, mid: usize)
    by (bit_vector)
    requires
        aligned(pos, step),
        pos + step == mid,
    ensures
        low_bit(mid) == step,
        step >= 2 ==> aligned(mid, step / 2),
        step >= 2 ==> aligned(pos, step / 2),
{
}

/// An aligned window starts an aligned window of half the size.
proof fn lemma_aligned_halve(pos: usize, step: usize)
    by (bit_vector)
    requires
        aligned(pos, step),
        step >= 2,
    ensures
        aligned(pos, step / 2),
{
}

/// Twice a power of two is a power of two.
proof fn lemma_aligned_double(step: usize, twice: usize)
    by (bit_vector)
    requires
        aligned(0, step),
        step + step == twice,
    ensures
        aligned(0, twice),
{
}

/// The empty set has no member in any interval.
pub proof fn lemma_count_empty(lo: int, hi: int)
    ensures
        count_in(Set::<int>::empty(), lo, hi) == 0,
    decreases hi - lo,
{
    if lo < hi {
        lemma_count_empty(lo, hi - 1);
    }
}

/// The lowest bit that is set in `i`.
fn lowbit(i: usize) -> (low: usize)
    requires
        i > 0,
    ensures
        low == low_bit(i),
        0 < low <= i,
{
    proof {
        lemma_low_bit_range(i);
    }
    i & !(i - 1)
}

/// A set of indices below a fixed capacity. Its view is the set of its members.
pub struct FenwickSet {
    /// Node `j`, for `j` from 1 to the capacity, counts the members among the
    /// `low_bit(j)` indices that end just before `j`. Node 0 is unused.
    tree: Vec<usize>,
    table: FixedBitSet,
    size: usize,
}

impl View for FenwickSet {
    type V = Set<int>;

    closed spec fn view(&self) -> Set<int> {
        enabled_bits(self.table)
    }
}

impl FenwickSet {
    /// The bound that every member lies below.
    pub closed spec fn capacity(&self) -> nat {
        bit_length(self.table)
    }

    /// Whether node `j` of `tree` counts what it stands for in the set `s`.
    spec fn node_counts(tree: Seq<usize>, s: Set<int>, j: int) -> bool {
        tree[j] == count_in(s, j - low_bit(j as usize), j)
    }

    /// The invariant that every operation keeps.
    pub closed spec fn wf(&self) -> bool {
        &&& self.tree.len() == self.capacity() + 1
        &&& self@.finite()
        &&& forall|m: int| self@.contains(m) ==> 0 <= m < self.capacity()
        &&& self.size == self@.len()
        &&& self.size == count_in(self@, 0, self.capacity() as int)
        &&& forall|j: int|
            1 <= j <= self.capacity() ==> #[trigger] Self::node_counts(self.tree@, self@, j)
    }

    /// A well-formed set has finitely many members, all below its capacity.
    pub proof fn lemma_members_bounded(&self)
        requires
            self.wf(),
        ensures
            self@.finite(),
            self@.len() <= self.capacity(),
            forall|m: int| self@.contains(m) ==> 0 <= m < self.capacity(),
    {
        lemma_count_bounds(self@, 0, self.capacity() as int);
    }

    /// A set with as many members as its capacity holds every index below it.
    pub proof fn lemma_full(&self)
        requires
            self.wf(),
            self@.len() == self.capacity(),
        ensures
            forall|i: int| 0 <= i < self.capacity() ==> self@.contains(i),
    {
        lemma_count_full(self@, 0, self.capacity() as int);
    }

    /// An empty set for the indices below `n`.
    pub fn with_capacity(n: usize) -> (set: FenwickSet)
        requires
            n < usize::MAX,
        ensures
            set.wf(),
            set.capacity() == n,
            set@ == Set::<int>::empty(),
    {
        let mut tree: Vec<usize> = Vec::new();
        let mut i: usize = 0;
        while i <= n
            invariant
                i <= n + 1,
                n < usize::MAX,
                tree.len() == i,
                forall|j: int| 0 <= j < i ==> tree@[j] == 0,
            decreases n + 1 - i,
        {
            tree.push(0);
            i = i + 1;
        }
        let set = FenwickSet { tree, table: FixedBitSet::with_capacity(n), size: 0 };
        proof {
            lemma_count_empty(0, n as int);
            assert forall|j: int| 1 <= j <= n implies #[trigger] Self::node_counts(
                set.tree@,
                set@,
                j,
            ) by {
                lemma_count_empty(j - low_bit(j as usize), j);
            }
        }
        set
    }

    /// Whether `elem` is a member.
    pub fn contains(&self, elem: usize) -> (found: bool)
        ensures
            found == self@.contains(elem as int),
    {
        self.table.contains(elem)
    }

    /// The number of members.
    pub fn len(&self) -> (n: usize)
        requires
            self.wf(),
        ensures
            n == self@.len(),
            n <= self.capacity(),
    {
        proof {
            lemma_count_bounds(self@, 0, self.capacity() as int);
        }
        self.size
    }

    /// Adds `elem`, if it lies below the capacity and is not yet a member, and
    /// tells whether it was added.
    pub fn insert(&mut self, elem: usize) -> (added: bool)
        requires
            old(self).wf(),
        ensures
            final(self).wf(),
            final(self).capacity() == old(self).capacity(),
            added == (elem < old(self).capacity() && !old(self)@.contains(elem as int)),
            final(self)@ == if added {
                old(self)@.insert(elem as int)
            } else {
                old(self)@
            },
    {
        let cap: usize = self.tree.len() - 1;
        if elem >= cap || self.table.contains(elem) {
            return false;
        }
        let ghost before = self@;
        let ghost after = before.insert(elem as int);
        let ghost old_tree = self.tree@;
        proof {
            lemma_count_insert(before, elem as int, 0, cap as int);
            lemma_count_bounds(after, 0, cap as int);
        }
        self.table.insert(elem);
        self.size = self.size + 1;
        let mut j: usize = elem + 1;
        proof {
            lemma_low_bit_range(j);
            assert forall|k: int| 1 <= k < j implies #[trigger] Self::node_counts(
                self.tree@,
                after,
                k,
            ) by {
                assert(Self::node_counts(old_tree, before, k));
                lemma_count_insert(before, elem as int, k - low_bit(k as usize), k);
            }
        }
        while j <= cap
            invariant
                cap + 1 == self.tree.len(),
                self.tree.len() == old_tree.len(),
                self@ == after,
                self.capacity() == cap,
                self.size == old(self).size + 1,
                !before.contains(elem as int),
                after == before.insert(elem as int),
                elem < j <= cap + 1,
                j <= cap ==> j - low_bit(j) <= elem,
                forall|k: int| 1 <= k < j ==> #[trigger] Self::node_counts(self.tree@, after, k),
                forall|k: int| j <= k <= cap ==> self.tree@[k] == old_tree[k],
                forall|k: int| 1 <= k <= cap ==> #[trigger] Self::node_counts(old_tree, before, k),
            decreases cap + 1 - j,
        {
            let low: usize = lowbit(j);
            let ghost prev = j;
            proof {
                assert(Self::node_counts(old_tree, before, j as int));
                lemma_count_insert(before, elem as int, j - low, j as int);
                lemma_count_bounds(after, j - low, j as int);
            }
            let ghost mid_tree = self.tree@;
            let bumped: usize = self.tree[j] + 1;
            self.tree.set(j, bumped);
            if low > cap - j {
                j = cap + 1;
            } else {
                j = j + low;
            }
            proof {
                assert(Self::node_counts(self.tree@, after, prev as int));
                assert forall|k: int| 1 <= k < prev implies #[trigger] Self::node_counts(
                    self.tree@,
                    after,
                    k,
                ) by {
                    assert(Self::node_counts(mid_tree, after, k));
                }
                assert forall|k: int| prev < k < j implies #[trigger] Self::node_counts(
                    self.tree@,
                    after,
                    k,
                ) by {
                    lemma_low_bit_between(prev, k as usize);
                    assert(Self::node_counts(old_tree, before, k));
                    lemma_count_insert(before, elem as int, k - low_bit(k as usize), k);
                }
                if j <= cap {
                    lemma_low_bit_parent(prev, j);
                }
            }
        }
        true
    }

    /// The member that has exactly `k` members below it, if the set has more
    /// than `k` members.
    pub fn nth(&self, k: usize) -> (found: Option<usize>)
        requires
            self.wf(),
        ensures
            k >= self@.len() ==> found.is_none(),
            k < self@.len() ==> found == Some(nth_member(self@, k as int) as usize),
            k < self@.len() ==> is_nth(self@, k as int, nth_member(self@, k as int)),
            k < self@.len() ==> nth_member(self@, k as int) < self.capacity(),
    {
        if k >= self.size {
            return None;
        }
        let cap: usize = self.tree.len() - 1;
        let ghost s = self@;
        proof {
            lemma_count_bounds(s, 0, cap as int);
        }
        let mut step: usize = 1;
        proof {
            assert(aligned(0usize, 1usize)) by (bit_vector);
        }
        while step <= cap / 2
            invariant
                aligned(0usize, step),
                1 <= step <= cap,
            decreases cap - step,
        {
            proof {
                lemma_aligned_double(step, (step + step) as usize);
            }
            step = step + step;
        }
        let mut pos: usize = 0;
        let mut rem: usize = k;
        let ghost mut width: int = 2 * step;
        while step > 0
            invariant
                self.wf(),
                s == self@,
                cap + 1 == self.tree.len(),
                pos <= cap,
                step > 0 ==> aligned(pos, step) && width == 2 * step,
                step == 0 ==> width == 1,
                rem + count_in(s, 0, pos as int) == k,
                k < count_in(s, 0, if pos + width <= cap { pos + width } else { cap as int }),
            decreases step,
        {
            let ghost win = if pos + width <= cap { pos + width } else { cap as int };
            if step <= cap - pos {
                let mid: usize = pos + step;
                proof {
                    lemma_aligned_mid(pos, step, mid);
                    assert(Self::node_counts(self.tree@, s, mid as int));
                    lemma_count_split(s, 0, pos as int, mid as int);
                    lemma_count_split(s, 0, mid as int, win);
                }
                if self.tree[mid] <= rem {
                    rem = rem - self.tree[mid];
                    pos = mid;
                }
            } else {
                proof {
                    if step >= 2 {
                        lemma_aligned_halve(pos, step);
                    }
                }
            }
            proof {
                width = step as int;
            }
            step = step / 2;
            proof {
                assert(step > 0 ==> width == 2 * step) by {
                    if step > 0 {
                        let full = width as usize;
                        assert(full & ((full - 1) as usize) == 0 && full >= 2 ==> 2 * (full / 2)
                            == full) by (bit_vector);
                    }
                }
            }
        }
        proof {
            if pos < cap {
                assert(count_in(s, 0, pos + 1) == count_in(s, 0, pos as int) + if s.contains(
                    pos as int,
                ) {
                    1nat
                } else {
                    0nat
                });
            }
            assert(is_nth(s, k as int, pos as int));
            lemma_nth_unique(s, k as int, pos as int, nth_member(s, k as int));
        }
        Some(pos)
    }

    /// Draws one of the members, each with the same chance; nothing is drawn
    /// from an empty set.
    pub fn select(&self, rng: &mut RngHandle) -> (picked: Option<usize>)
        requires
            self.wf(),
        ensures
            self@.len() == 0 ==> picked.is_none() && final(rng)@ == old(rng)@,
            self@.len() > 0 ==> {
                let drawn = ranged(old(rng)@, 0, self@.len() as int);
                &&& picked == Some(nth_member(self@, drawn.0) as usize)
                &&& self@.contains(nth_member(self@, drawn.0))
                &&& 0 <= nth_member(self@, drawn.0) < self.capacity()
                &&& final(rng)@ == drawn.1
            },
    {
        let num_elems: usize = self.len();
        if num_elems == 0 {
            return None;
        }
        let n: usize = rng.range(0..num_elems);
        self.nth(n)
    }
}

} // verus!
