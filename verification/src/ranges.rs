//! Sets of integers kept as disjoint ranges.

use vstd::prelude::*;

verus! {

/// Whether one of the inclusive ranges in `r` holds `x`.
pub open spec fn in_ranges(r: Seq<(u64, u64)>, x: u64) -> bool {
    exists|i: int| 0 <= i < r.len() && (#[trigger] r[i]).0 <= x <= r[i].1
}

/// Whether `r` lists ranges in ascending order that neither overlap nor
/// touch: between two neighbours at least one integer is missing. A set of
/// integers has exactly one such list.
pub open spec fn canonical(r: Seq<(u64, u64)>) -> bool {
    &&& forall|i: int| 0 <= i < r.len() ==> (#[trigger] r[i]).0 <= r[i].1
    &&& forall|i: int, j: int| 0 <= i < j < r.len()
        ==> (#[trigger] r[i]).1 + 1 < (#[trigger] r[j]).0
}

/// What the ranges behind the first hold: what all ranges hold above the
/// first range.
proof fn lemma_rest_holds(r: Seq<(u64, u64)>, x: u64)
    requires
        canonical(r),
        r.len() > 0,
    ensures
        in_ranges(r.skip(1), x) <==> in_ranges(r, x) && x > r[0].1,
        canonical(r.skip(1)),
{
    let t = r.skip(1);
    assert forall|i: int, j: int| 0 <= i < j < t.len() implies (#[trigger] t[i]).1 + 1 < (
    #[trigger] t[j]).0 by {
        assert(r[i + 1].1 + 1 < r[j + 1].0);
    }
    assert forall|i: int| 0 <= i < t.len() implies (#[trigger] t[i]).0 <= t[i].1 by {
        assert(r[i + 1].0 <= r[i + 1].1);
    }
    if in_ranges(t, x) {
        let i = choose|i: int| 0 <= i < t.len() && (#[trigger] t[i]).0 <= x <= t[i].1;
        assert(r[i + 1].0 <= x <= r[i + 1].1);
        assert(r[0].1 + 1 < r[i + 1].0);
    }
    if in_ranges(r, x) && x > r[0].1 {
        let i = choose|i: int| 0 <= i < r.len() && (#[trigger] r[i]).0 <= x <= r[i].1;
        assert(i > 0);
        assert(t[i - 1].0 <= x <= t[i - 1].1);
    }
}

/// The first range of a canonical list starts at the least integer that
/// the list holds, and ends before the least integer above that the list
/// does not hold.
proof fn lemma_first_range(r: Seq<(u64, u64)>, x: u64)
    requires
        canonical(r),
        r.len() > 0,
    ensures
        in_ranges(r, r[0].0),
        in_ranges(r, r[0].1),
        in_ranges(r, x) ==> r[0].0 <= x,
        r[0].0 <= x <= r[0].1 ==> in_ranges(r, x),
        x == r[0].1 + 1 ==> !in_ranges(r, x),
{
    assert(r[0].0 <= r[0].1);
    if in_ranges(r, x) {
        let i = choose|i: int| 0 <= i < r.len() && (#[trigger] r[i]).0 <= x <= r[i].1;
        if i > 0 {
            assert(r[0].1 + 1 < r[i].0);
        }
    }
}

/// A set of integers has one canonical list only: canonical lists that
/// hold the same integers are the same list.
pub proof fn lemma_canonical_unique(a: Seq<(u64, u64)>, b: Seq<(u64, u64)>)
    requires
        canonical(a),
        canonical(b),
        forall|x: u64| in_ranges(a, x) == in_ranges(b, x),
    ensures
        a == b,
    decreases a.len(),
{
    if a.len() == 0 {
        if b.len() > 0 {
            lemma_first_range(b, b[0].0);
            assert(in_ranges(a, b[0].0));
        }
        assert(a =~= b);
    } else {
        lemma_first_range(a, a[0].0);
        assert(in_ranges(b, a[0].0));
        assert(b.len() > 0);
        lemma_first_range(b, a[0].0);
        lemma_first_range(a, b[0].0);
        lemma_first_range(b, b[0].0);
        assert(a[0].0 == b[0].0);
        // Neither first range ends before the other.
        if a[0].1 < b[0].1 {
            let y = (a[0].1 + 1) as u64;
            lemma_first_range(a, y);
            lemma_first_range(b, y);
        }
        if b[0].1 < a[0].1 {
            let y = (b[0].1 + 1) as u64;
            lemma_first_range(b, y);
            lemma_first_range(a, y);
        }
        assert(a[0] == b[0]);
        assert forall|x: u64| in_ranges(a.skip(1), x) == in_ranges(b.skip(1), x) by {
            lemma_rest_holds(a, x);
            lemma_rest_holds(b, x);
        }
        lemma_rest_holds(a, 0);
        lemma_rest_holds(b, 0);
        lemma_canonical_unique(a.skip(1), b.skip(1));
        assert(a =~= seq![a[0]] + a.skip(1));
        assert(b =~= seq![b[0]] + b.skip(1));
    }
}

/// The place of the first range in `r`, from `i` on, that holds `n` or
/// touches it or lies above it: the first that does not end below `n - 1`.
pub open spec fn slot(r: Seq<(u64, u64)>, n: u64, i: int) -> int
    decreases r.len() - i,
{
    if 0 <= i < r.len() && r[i].1 + 1 < n {
        slot(r, n, i + 1)
    } else {
        i
    }
}

/// The canonical list of the set that `r` lists, with `n` added.
pub open spec fn inserted(r: Seq<(u64, u64)>, n: u64) -> Seq<(u64, u64)> {
    let i = slot(r, n, 0);
    if i >= r.len() {
        r.push((n, n))
    } else if r[i].0 <= n <= r[i].1 {
        r
    } else if r[i].1 < n {
        if i + 1 < r.len() && r[i + 1].0 == n + 1 {
            r.update(i, (r[i].0, r[i + 1].1)).remove(i + 1)
        } else {
            r.update(i, (r[i].0, n))
        }
    } else if r[i].0 == n + 1 {
        r.update(i, (n, r[i].1))
    } else {
        r.insert(i, (n, n))
    }
}

/// A set of integers, kept as the canonical list of its ranges.
#[derive(Debug, PartialEq, Eq)]
pub struct RangeSet {
    v: Vec<(u64, u64)>,
}

impl View for RangeSet {
    type V = Seq<(u64, u64)>;

    closed spec fn view(&self) -> Seq<(u64, u64)> {
        self.v@
    }
}

impl Clone for RangeSet {
    fn clone(&self) -> (r: RangeSet)
        ensures
            r@ == self@,
    {
        let mut v: Vec<(u64, u64)> = Vec::new();
        let mut i: usize = 0;
        while i < self.v.len()
            invariant
                0 <= i <= self.v@.len(),
                v@ == self.v@.take(i as int),
            decreases self.v@.len() - i,
        {
            v.push(self.v[i]);
            i += 1;
            assert(v@ =~= self.v@.take(i as int));
        }
        assert(self.v@.take(self.v@.len() as int) =~= self.v@);
        RangeSet { v }
    }
}

impl RangeSet {
    /// The list of ranges is canonical.
    pub open spec fn wf(&self) -> bool {
        canonical(self@)
    }

    /// Whether the set holds `x`.
    pub open spec fn contains(&self, x: u64) -> bool {
        in_ranges(self@, x)
    }

    /// The empty set.
    pub fn new() -> (r: RangeSet)
        ensures
            r.wf(),
            r@ == Seq::<(u64, u64)>::empty(),
    {
        RangeSet { v: Vec::new() }
    }

    /// The set whose canonical list is `v`; `None` where `v` is not canonical.
    pub fn from_ranges(v: Vec<(u64, u64)>) -> (r: Option<RangeSet>)
        ensures
            match r {
                Some(s) => canonical(v@) && s@ == v@ && s.wf(),
                None => !canonical(v@),
            },
    {
        let mut i: usize = 0;
        while i < v.len()
            invariant
                0 <= i <= v@.len(),
                forall|j: int| 0 <= j < i ==> (#[trigger] v@[j]).0 <= v@[j].1,
                forall|j: int, k: int|
                    0 <= j < k < i ==> (#[trigger] v@[j]).1 + 1 < (#[trigger] v@[k]).0,
            decreases v@.len() - i,
        {
            if v[i].0 > v[i].1 {
                return None;
            }
            if i > 0 && (v[i].0 <= v[i - 1].1 || v[i].0 - v[i - 1].1 <= 1) {
                assert(!(v@[i - 1].1 + 1 < v@[i as int].0));
                return None;
            }
            proof {
                assert forall|j: int| 0 <= j < i
                    implies (#[trigger] v@[j]).1 + 1 < v@[i as int].0 by {
                    if j < i - 1 {
                        assert(v@[j].1 + 1 < v@[i - 1].0);
                    }
                }
            }
            i += 1;
        }
        Some(RangeSet { v })
    }

    /// The number of ranges.
    pub fn len(&self) -> (n: usize)
        ensures
            n == self@.len(),
    {
        self.v.len()
    }

    /// The `i`-th range, counted from the lowest.
    pub fn get(&self, i: usize) -> (r: (u64, u64))
        requires
            i < self@.len(),
        ensures
            r == self@[i as int],
    {
        self.v[i]
    }

    /// Removes every element.
    pub fn clear(&mut self)
        ensures
            final(self).wf(),
            final(self)@ == Seq::<(u64, u64)>::empty(),
    {
        self.v.clear();
    }

    /// The least element.
    pub fn first(&self) -> (r: Option<u64>)
        requires
            self.wf(),
        ensures
            match r {
                Some(m) => self.contains(m) && forall|x: u64| self.contains(x) ==> m <= x,
                None => self@.len() == 0,
            },
    {
        if self.v.len() == 0 {
            return None;
        }
        let m: u64 = self.v[0].0;
        proof {
            assert(self@[0].0 <= m <= self@[0].1);
            assert forall|x: u64| self.contains(x) implies m <= x by {
                let i = choose|i: int| 0 <= i < self@.len()
                    && (#[trigger] self@[i]).0 <= x <= self@[i].1;
            }
        }
        Some(m)
    }

    /// The greatest element.
    pub fn last(&self) -> (r: Option<u64>)
        requires
            self.wf(),
        ensures
            match r {
                Some(m) => self.contains(m) && forall|x: u64| self.contains(x) ==> x <= m,
                None => self@.len() == 0,
            },
    {
        let n: usize = self.v.len();
        if n == 0 {
            return None;
        }
        let m: u64 = self.v[n - 1].1;
        proof {
            assert(self@[n - 1].0 <= m <= self@[n - 1].1);
            assert forall|x: u64| self.contains(x) implies x <= m by {
                let i = choose|i: int| 0 <= i < self@.len()
                    && (#[trigger] self@[i]).0 <= x <= self@[i].1;
            }
        }
        Some(m)
    }

    /// Adds `n` to the set. A range that `n` touches grows by it, and two
    /// ranges that `n` joins become one.
    pub fn push_item(&mut self, n: u64)
        requires
            old(self).wf(),
        ensures
            final(self).wf(),
            forall|x: u64|
                #![trigger final(self).contains(x)]
                #![trigger old(self).contains(x)]
                final(self).contains(x) <==> (old(self).contains(x) || x == n),
            final(self)@ == inserted(old(self)@, n),
    {
        let len: usize = self.v.len();
        let mut i: usize = 0;
        while i < len && self.v[i].1 < n && n - self.v[i].1 > 1
            invariant
                0 <= i <= len,
                len == self.v@.len(),
                self.v@ == old(self).v@,
                forall|j: int| 0 <= j < i ==> (#[trigger] self.v@[j]).1 + 1 < n,
                slot(self.v@, n, 0) == slot(self.v@, n, i as int),
            decreases len - i,
        {
            i += 1;
        }
        let ghost before = self.v@;
        if i == len {
            self.v.push((n, n));
            proof {
                lemma_add_above(before, n);
            }
            return ;
        }
        let lo: u64 = self.v[i].0;
        let hi: u64 = self.v[i].1;
        if lo <= n && n <= hi {
            assert(before[i as int].0 <= n <= before[i as int].1);
            return ;
        }
        if hi < n {
            if i + 1 < len && self.v[i + 1].0 - n == 1 {
                let next_hi: u64 = self.v[i + 1].1;
                self.v[i] = (lo, next_hi);
                self.v.remove(i + 1);
                proof {
                    lemma_join(before, i as int, n);
                }
            } else {
                self.v[i] = (lo, n);
                proof {
                    lemma_grow(before, i as int, n);
                }
            }
            return ;
        }
        if lo - n == 1 {
            self.v[i] = (n, hi);
            proof {
                lemma_grow(before, i as int, n);
            }
        } else {
            self.v.insert(i, (n, n));
            proof {
                lemma_add_between(before, i as int, n);
            }
        }
    }
}

/// A new greatest element, apart from all ranges, becomes a range of its own
/// at the end.
proof fn lemma_add_above(before: Seq<(u64, u64)>, n: u64)
    requires
        canonical(before),
        forall|j: int| 0 <= j < before.len() ==> (#[trigger] before[j]).1 + 1 < n,
    ensures
        canonical(before.push((n, n))),
        forall|x: u64| in_ranges(before.push((n, n)), x) <==> (in_ranges(before, x) || x == n),
{
    let after = before.push((n, n));
    let len = before.len() as int;
    assert(after[len] == (n, n));
    assert forall|a: int, b: int| 0 <= a < b < after.len() implies (#[trigger] after[a]).1 + 1 < (
    #[trigger] after[b]).0 by {
        assert(after[a] == before[a]);
        if b < len {
            assert(after[b] == before[b]);
        }
    }
    assert forall|x: u64| in_ranges(after, x) <==> (in_ranges(before, x) || x == n) by {
        if in_ranges(before, x) {
            let j = choose|j: int|
                0 <= j < before.len() && (#[trigger] before[j]).0 <= x <= before[j].1;
            assert(after[j] == before[j]);
        }
        if in_ranges(after, x) {
            let j = choose|j: int| 0 <= j < after.len()
                && (#[trigger] after[j]).0 <= x <= after[j].1;
            if j < len {
                assert(before[j] == after[j]);
            }
        }
    }
}

/// An element that touches the `i`-th range at one end, and no other range,
/// makes that range one longer.
proof fn lemma_grow(before: Seq<(u64, u64)>, i: int, n: u64)
    requires
        canonical(before),
        0 <= i < before.len(),
        n == before[i].1 + 1 || n + 1 == before[i].0,
        i > 0 ==> before[i - 1].1 + 1 < n,
        i + 1 < before.len() ==> n + 1 < before[i + 1].0,
    ensures
        ({
            let r = if n < before[i].0 {
                (n, before[i].1)
            } else {
                (before[i].0, n)
            };
            let after = before.update(i, r);
            &&& canonical(after)
            &&& forall|x: u64| in_ranges(after, x) <==> (in_ranges(before, x) || x == n)
        }),
{
    let r = if n < before[i].0 {
        (n, before[i].1)
    } else {
        (before[i].0, n)
    };
    let after = before.update(i, r);
    assert(after[i] == r);
    assert(before[i].0 <= before[i].1);
    assert forall|a: int, b: int| 0 <= a < b < after.len() implies (#[trigger] after[a]).1 + 1 < (
    #[trigger] after[b]).0 by {
        assert(before[a].1 + 1 < before[b].0);
        if a != i {
            assert(after[a] == before[a]);
        }
        if b != i {
            assert(after[b] == before[b]);
        }
        if a == i && b > i + 1 {
            assert(before[i + 1].1 + 1 < before[b].0);
            assert(before[i + 1].0 <= before[i + 1].1);
        }
        if b == i && a < i - 1 {
            assert(before[a].1 + 1 < before[i - 1].0);
            assert(before[i - 1].0 <= before[i - 1].1);
        }
    }
    assert forall|j: int| 0 <= j < after.len() implies (#[trigger] after[j]).0 <= after[j].1 by {
        if j != i {
            assert(after[j] == before[j]);
        }
    }
    assert forall|x: u64| in_ranges(after, x) <==> (in_ranges(before, x) || x == n) by {
        if in_ranges(before, x) {
            let j = choose|j: int|
                0 <= j < before.len() && (#[trigger] before[j]).0 <= x <= before[j].1;
            if j != i {
                assert(after[j] == before[j]);
            } else {
                assert(after[i].0 <= x <= after[i].1);
            }
        }
        if x == n {
            assert(after[i].0 <= x <= after[i].1);
        }
        if in_ranges(after, x) {
            let j = choose|j: int| 0 <= j < after.len()
                && (#[trigger] after[j]).0 <= x <= after[j].1;
            if j != i {
                assert(before[j] == after[j]);
            } else if x != n {
                assert(before[i].0 <= x <= before[i].1);
            }
        }
    }
}

/// The one element missing between the `i`-th range and the next makes one
/// range of the two.
proof fn lemma_join(before: Seq<(u64, u64)>, i: int, n: u64)
    requires
        canonical(before),
        0 <= i < before.len() - 1,
        n == before[i].1 + 1,
        n + 1 == before[i + 1].0,
    ensures
        ({
            let after = before.update(i, (before[i].0, before[i + 1].1)).remove(i + 1);
            &&& canonical(after)
            &&& forall|x: u64| in_ranges(after, x) <==> (in_ranges(before, x) || x == n)
        }),
{
    let lo = before[i].0;
    let hi = before[i].1;
    let next_hi = before[i + 1].1;
    let after = before.update(i, (lo, next_hi)).remove(i + 1);
    assert(after[i] == (lo, next_hi));
    assert(before[i].0 <= before[i].1);
    assert(before[i + 1].0 <= before[i + 1].1);
    assert forall|j: int| 0 <= j < after.len() implies (#[trigger] after[j]).0 <= after[j].1 by {
        if j < i {
            assert(after[j] == before[j]);
        } else if j > i {
            assert(after[j] == before[j + 1]);
        }
    }
    assert forall|a: int, b: int| 0 <= a < b < after.len() implies (#[trigger] after[a]).1 + 1 < (
    #[trigger] after[b]).0 by {
        let a0 = if a <= i { a } else { a + 1 };
        let b0 = if b <= i { b } else { b + 1 };
        assert(before[a0].1 + 1 < before[b0].0);
        if a != i {
            assert(after[a] == before[a0]);
        } else {
            assert(before[i + 1].1 + 1 < before[b0].0);
        }
        if b != i {
            assert(after[b] == before[b0]);
        }
    }
    assert forall|x: u64| in_ranges(after, x) <==> (in_ranges(before, x) || x == n) by {
        if in_ranges(before, x) {
            let j = choose|j: int|
                0 <= j < before.len() && (#[trigger] before[j]).0 <= x <= before[j].1;
            if j < i {
                assert(after[j] == before[j]);
            } else if j == i || j == i + 1 {
                assert(after[i].0 <= x <= after[i].1);
            } else {
                assert(after[j - 1] == before[j]);
            }
        }
        if x == n {
            assert(after[i].0 <= x <= after[i].1);
        }
        if in_ranges(after, x) {
            let j = choose|j: int| 0 <= j < after.len()
                && (#[trigger] after[j]).0 <= x <= after[j].1;
            if j < i {
                assert(before[j] == after[j]);
            } else if j == i {
                if x <= hi {
                    assert(before[i].0 <= x <= before[i].1);
                } else if x > n {
                    assert(before[i + 1].0 <= x <= before[i + 1].1);
                }
            } else {
                assert(before[j + 1] == after[j]);
            }
        }
    }
}

/// An element apart from all ranges, below the `i`-th, becomes a range of
/// its own before it.
proof fn lemma_add_between(before: Seq<(u64, u64)>, i: int, n: u64)
    requires
        canonical(before),
        0 <= i < before.len(),
        n + 1 < before[i].0,
        i > 0 ==> before[i - 1].1 + 1 < n,
    ensures
        canonical(before.insert(i, (n, n))),
        forall|x: u64|
            in_ranges(before.insert(i, (n, n)), x) <==> (in_ranges(before, x) || x == n),
{
    let after = before.insert(i, (n, n));
    assert(after[i] == (n, n));
    assert forall|j: int| 0 <= j < after.len() implies (#[trigger] after[j]).0 <= after[j].1 by {
        if j < i {
            assert(after[j] == before[j]);
        } else if j > i {
            assert(after[j] == before[j - 1]);
        }
    }
    assert forall|a: int, b: int| 0 <= a < b < after.len() implies (#[trigger] after[a]).1 + 1 < (
    #[trigger] after[b]).0 by {
        if a < i {
            assert(after[a] == before[a]);
            if a < i - 1 {
                assert(before[a].1 + 1 < before[i - 1].0);
                assert(before[i - 1].0 <= before[i - 1].1);
            }
        } else if a > i {
            assert(after[a] == before[a - 1]);
        }
        if b < i {
            assert(after[b] == before[b]);
            assert(before[a].1 + 1 < before[b].0);
        } else if b > i {
            assert(after[b] == before[b - 1]);
            if a < i {
                assert(before[a].1 + 1 < before[b - 1].0);
            } else if a > i {
                assert(before[a - 1].1 + 1 < before[b - 1].0);
            } else if b - 1 > i {
                assert(before[i].1 + 1 < before[b - 1].0);
                assert(before[i].0 <= before[i].1);
            }
        }
    }
    assert forall|x: u64| in_ranges(after, x) <==> (in_ranges(before, x) || x == n) by {
        if in_ranges(before, x) {
            let j = choose|j: int|
                0 <= j < before.len() && (#[trigger] before[j]).0 <= x <= before[j].1;
            if j < i {
                assert(after[j] == before[j]);
            } else {
                assert(after[j + 1] == before[j]);
            }
        }
        if x == n {
            assert(after[i].0 <= x <= after[i].1);
        }
        if in_ranges(after, x) {
            let j = choose|j: int| 0 <= j < after.len()
                && (#[trigger] after[j]).0 <= x <= after[j].1;
            if j < i {
                assert(before[j] == after[j]);
            } else if j > i {
                assert(before[j - 1] == after[j]);
            }
        }
    }
}

} // verus!
