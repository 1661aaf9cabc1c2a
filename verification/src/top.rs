//! The largest files seen during a scan: a bounded collection that keeps the
//! `cap` biggest offers and drops the smallest when it overflows.
use vstd::prelude::*;
use crate::text::chars_of;

verus! {

/// A file offered to the collection: its size and its path.
pub type Entry = (u64, String);

/// Smallest size among `s`, or 0 when `s` is empty.
pub open spec fn min_size(s: Seq<Entry>) -> u64
    decreases s.len(),
{
    if s.len() == 0 {
        0
    } else if s.len() == 1 {
        s[0].0
    } else {
        let m = min_size(s.drop_last());
        if s.last().0 < m { s.last().0 } else { m }
    }
}

pub proof fn lemma_min_size(s: Seq<Entry>)
    ensures
        forall|i: int| 0 <= i < s.len() ==> min_size(s) <= (#[trigger] s[i]).0,
        s.len() > 0 ==> exists|i: int| 0 <= i < s.len() && (#[trigger] s[i]).0 == min_size(s),
    decreases s.len(),
{
    if s.len() == 1 {
        assert(s[0].0 == min_size(s));
    } else if s.len() > 1 {
        let s0 = s.drop_last();
        lemma_min_size(s0);
        assert forall|i: int| 0 <= i < s.len() implies min_size(s) <= (#[trigger] s[i]).0 by {
            if i < s.len() - 1 {
                assert(s[i] == s0[i]);
            }
        }
        if s.last().0 >= min_size(s0) {
            let i = choose|i: int| 0 <= i < s0.len() && (#[trigger] s0[i]).0 == min_size(s0);
            assert(s[i] == s0[i]);
        } else {
            assert(s[s.len() - 1] == s.last());
        }
    }
}

/// How characters rank when paths are compared: `/` below every other
/// character, the others by code point.
pub open spec fn path_rank(c: char) -> int {
    if c == '/' {
        -1
    } else {
        (c as u32) as int
    }
}

/// `a` comes before `b` from position `i` on, in the order `Path` gives paths
/// without empty or `.` parts: part by part, each part character by
/// character, a part that is a prefix of another first.
pub open spec fn path_before(a: Seq<char>, b: Seq<char>, i: int) -> bool
    decreases a.len() - i,
{
    if i < 0 || i >= a.len() {
        0 <= i < b.len()
    } else if i >= b.len() {
        false
    } else if a[i] == b[i] {
        path_before(a, b, i + 1)
    } else {
        path_rank(a[i]) < path_rank(b[i])
    }
}

/// Entry `x` is smaller than `y`: a smaller size, or the same size and a path
/// that comes first.
pub open spec fn entry_less(x: Entry, y: Entry) -> bool {
    x.0 < y.0 || (x.0 == y.0 && path_before(x.1@, y.1@, 0))
}

/// Index of the smallest entry of `s` (by size, then path; the first of
/// equal ones).
pub open spec fn first_min(s: Seq<Entry>) -> int
    decreases s.len(),
{
    if s.len() <= 1 {
        0
    } else {
        let i = first_min(s.drop_last());
        if entry_less(s.last(), s[i]) {
            s.len() - 1
        } else {
            i
        }
    }
}

proof fn lemma_before_from(a: Seq<char>, b: Seq<char>, i: int)
    requires
        0 <= i <= a.len(),
    ensures
        path_before(a, b, i) <==> exists|m: int|
            i <= m && (forall|k: int| i <= k < m ==> a[k] == b[k]) && #[trigger] differs_at(a, b, m),
    decreases a.len() - i,
{
    if i < a.len() && i < b.len() && a[i] == b[i] {
        lemma_before_from(a, b, i + 1);
        if path_before(a, b, i) {
            let m = choose|m: int| i + 1 <= m && (forall|k: int| i + 1 <= k < m ==> a[k] == b[k]) && #[trigger] differs_at(a, b, m);
            assert(forall|k: int| i <= k < m ==> a[k] == b[k]);
        }
        if exists|m: int| i <= m && (forall|k: int| i <= k < m ==> a[k] == b[k]) && #[trigger] differs_at(a, b, m) {
            let m = choose|m: int| i <= m && (forall|k: int| i <= k < m ==> a[k] == b[k]) && #[trigger] differs_at(a, b, m);
            if m == i {
                assert(false);
            }
            assert(forall|k: int| i + 1 <= k < m ==> a[k] == b[k]);
        }
    } else {
        if path_before(a, b, i) {
            assert(differs_at(a, b, i));
        }
        if exists|m: int| i <= m && (forall|k: int| i <= k < m ==> a[k] == b[k]) && #[trigger] differs_at(a, b, m) {
            let m = choose|m: int| i <= m && (forall|k: int| i <= k < m ==> a[k] == b[k]) && #[trigger] differs_at(a, b, m);
            if m > i {
                assert(a[i] == b[i]);
            }
        }
    }
}

/// `a` and `b` agree before `m` and `a` ranks first at `m`: `a` ends there
/// while `b` goes on, or both go on and `a`'s character ranks lower.
pub open spec fn differs_at(a: Seq<char>, b: Seq<char>, m: int) -> bool {
    ||| (m == a.len() && m < b.len())
    ||| (m < a.len() && m < b.len() && a[m] != b[m] && path_rank(a[m]) < path_rank(b[m]))
}

/// Law: how paths are ordered. `a` comes before `b` exactly when, at the
/// first place they differ, `a` ends or has the lower character, `/` ranking
/// below every other character. So no path comes before itself, of two
/// different paths exactly one comes first, and a directory comes before
/// everything inside it.
pub proof fn law_path_order(a: Seq<char>, b: Seq<char>, rest: Seq<char>)
    ensures
        path_before(a, b, 0) <==> exists|m: int|
            0 <= m && (forall|k: int| 0 <= k < m ==> a[k] == b[k]) && #[trigger] differs_at(a, b, m),
        !path_before(a, a, 0),
        a != b ==> (path_before(a, b, 0) <==> !path_before(b, a, 0)),
        path_before(a, a.push('/') + rest, 0),
{
    lemma_before_from(a, b, 0);
    lemma_before_from(b, a, 0);
    lemma_before_from(a, a, 0);
    if path_before(a, a, 0) {
        let m = choose|m: int| 0 <= m && (forall|k: int| 0 <= k < m ==> a[k] == a[k]) && #[trigger] differs_at(a, a, m);
    }
    if a != b {
        if path_before(a, b, 0) && path_before(b, a, 0) {
            let m = choose|m: int| 0 <= m && (forall|k: int| 0 <= k < m ==> a[k] == b[k]) && #[trigger] differs_at(a, b, m);
            let m2 = choose|m: int| 0 <= m && (forall|k: int| 0 <= k < m ==> b[k] == a[k]) && #[trigger] differs_at(b, a, m);
            if m < m2 {
                assert(a[m] == b[m]);
            } else if m2 < m {
                assert(a[m2] == b[m2]);
            }
        }
        if !path_before(a, b, 0) && !path_before(b, a, 0) {
            lemma_first_difference(a, b, 0);
        }
    }
    let c = a.push('/') + rest;
    lemma_before_from(a, c, 0);
    assert(forall|k: int| 0 <= k < a.len() ==> a[k] == c[k]);
    assert(differs_at(a, c, a.len() as int));
}

proof fn lemma_chars_apart(c: char, d: char)
    requires
        c != d,
    ensures
        (c as u32) != (d as u32),
{
}

proof fn lemma_first_difference(a: Seq<char>, b: Seq<char>, i: int)
    requires
        0 <= i,
        a != b,
        forall|k: int| 0 <= k < i ==> a[k] == b[k],
        i <= a.len() && i <= b.len(),
    ensures
        path_before(a, b, 0) || path_before(b, a, 0),
    decreases a.len() - i,
{
    lemma_before_from(a, b, 0);
    lemma_before_from(b, a, 0);
    if i < a.len() && i < b.len() && a[i] == b[i] {
        lemma_first_difference(a, b, i + 1);
    } else if i == a.len() && i == b.len() {
        assert(a =~= b);
    } else if i < a.len() && i < b.len() {
        if path_rank(a[i]) < path_rank(b[i]) {
            assert(differs_at(a, b, i));
        } else {
            assert(path_rank(b[i]) != path_rank(a[i])) by {
                if a[i] != '/' && b[i] != '/' {
                    lemma_chars_apart(a[i], b[i]);
                }
            }
            assert(differs_at(b, a, i));
        }
    } else if i == a.len() {
        assert(differs_at(a, b, i));
    } else {
        assert(differs_at(b, a, i));
    }
}

/// Whether path `a` comes before path `b` (see `path_before`).
pub fn path_less(a: &str, b: &str) -> (r: bool)
    ensures
        r == path_before(a@, b@, 0),
{
    let x = chars_of(a);
    let y = chars_of(b);
    let mut i: usize = 0;
    while i < x.len() && i < y.len() && x[i] == y[i]
        invariant
            0 <= i <= x@.len(),
            i <= y@.len(),
            x@ == a@,
            y@ == b@,
            path_before(a@, b@, 0) == path_before(a@, b@, i as int),
        decreases x@.len() - i,
    {
        i = i + 1;
    }
    if i >= x.len() {
        return i < y.len();
    }
    if i >= y.len() {
        return false;
    }
    let (c, d) = (x[i], y[i]);
    if c == '/' {
        d != '/'
    } else if d == '/' {
        false
    } else {
        (c as u32) < (d as u32)
    }
}

/// Index of the first biggest entry among `items[0..k]` whose index is not
/// in `used`, or -1 when there is none.
pub open spec fn biggest_unused(items: Seq<Entry>, used: Set<int>, k: int) -> int
    decreases k,
{
    if k <= 0 {
        -1
    } else {
        let b = biggest_unused(items, used, k - 1);
        if !used.contains(k - 1) && (b < 0 || items[k - 1].0 > items[b].0) {
            k - 1
        } else {
            b
        }
    }
}

/// Indices of the `m` biggest entries, biggest first; of equal sizes the
/// earlier entry comes first.
pub open spec fn ranking(items: Seq<Entry>, m: nat) -> Seq<int>
    decreases m,
{
    if m == 0 {
        Seq::empty()
    } else {
        let prev = ranking(items, (m - 1) as nat);
        prev.push(biggest_unused(items, prev.to_set(), items.len() as int))
    }
}

/// `r` lists distinct entries of `items` (the ones at the indices `idx`), and
/// no entry left out is bigger than the last one listed.
pub open spec fn picked(items: Seq<Entry>, r: Seq<Entry>, idx: Seq<int>) -> bool {
    &&& idx.len() == r.len()
    &&& forall|i: int| 0 <= i < idx.len() ==> 0 <= #[trigger] idx[i] < items.len() && r[i] == items[idx[i]]
    &&& forall|i: int, j: int| 0 <= i < j < idx.len() ==> #[trigger] idx[i] != #[trigger] idx[j]
    &&& forall|m: int| 0 <= m < items.len() && !idx.contains(m) && r.len() > 0 ==> (#[trigger] items[m]).0 <= r.last().0
}

/// The `cap` biggest files offered so far. `dropped` remembers every offer
/// that was refused or later evicted.
pub struct TopFiles {
    pub cap: usize,
    pub items: Vec<Entry>,
    pub dropped: Ghost<Seq<Entry>>,
}

impl TopFiles {
    /// At most `cap` files are kept, nothing was dropped while there was
    /// room, and no dropped file is bigger than a kept one.
    pub open spec fn wf(&self) -> bool {
        &&& self.items@.len() <= self.cap
        &&& (self.items@.len() < self.cap ==> self.dropped@.len() == 0)
        &&& forall|i: int, j: int|
            0 <= i < self.dropped@.len() && 0 <= j < self.items@.len() ==> (#[trigger] self.dropped@[i]).0
                <= (#[trigger] self.items@[j]).0
    }

    pub fn new(cap: usize) -> (t: Self)
        ensures
            t.wf(),
            t.cap == cap,
            t.items@.len() == 0,
            t.dropped@.len() == 0,
    {
        TopFiles { cap, items: Vec::new(), dropped: Ghost(Seq::empty()) }
    }

    /// Offer a file: kept while there is room, else, when it is bigger than
    /// the smallest kept file, it replaces the smallest kept entry (by size,
    /// then path).
    pub fn offer_top(&mut self, size: u64, path: String)
        requires
            old(self).wf(),
        ensures
            final(self).wf(),
            final(self).cap == old(self).cap,
            ({
                let old_items = old(self).items@;
                let item = (size, path);
                if old(self).cap == 0 || (old_items.len() >= old(self).cap && size <= min_size(old_items)) {
                    &&& final(self).items@ == old_items
                    &&& final(self).dropped@ == old(self).dropped@.push(item)
                } else if old_items.len() < old(self).cap {
                    &&& final(self).items@ == old_items.push(item)
                    &&& final(self).dropped@ == old(self).dropped@
                } else {
                    let j = first_min(old_items);
                    &&& 0 <= j < old_items.len()
                    &&& old_items[j].0 == min_size(old_items)
                    &&& final(self).items@ == old_items.remove(j).push(item)
                    &&& final(self).dropped@ == old(self).dropped@.push(old_items[j])
                }
            }),
    {
        let ghost old_items = self.items@;
        let ghost old_dropped = self.dropped@;
        proof {
            lemma_min_size(old_items);
        }
        if self.cap == 0 {
            proof {
                self.dropped@ = old_dropped.push((size, path));
            }
            return;
        }
        let n = self.items.len();
        // Index and size of a smallest kept file.
        let mut j: usize = 0;
        let mut k: usize = 1;
        if n > 0 {
            proof {
                assert(old_items.take(1).len() == 1);
            }
            while k < n
                invariant
                    n == self.items@.len(),
                    self.items@ == old_items,
                    0 <= j < k <= n,
                    forall|m: int| 0 <= m < k ==> self.items@[j as int].0 <= (#[trigger] self.items@[m]).0,
                    j == first_min(old_items.take(k as int)),
                decreases n - k,
            {
                proof {
                    let t = old_items.take(k as int + 1);
                    assert(t.drop_last() =~= old_items.take(k as int));
                    assert(t.last() == old_items[k as int]);
                    assert(old_items.take(k as int)[j as int] == old_items[j as int]);
                }
                if self.items[k].0 < self.items[j].0 || (self.items[k].0 == self.items[j].0 && path_less(
                    self.items[k].1.as_str(),
                    self.items[j].1.as_str(),
                )) {
                    j = k;
                }
                k = k + 1;
            }
            proof {
                assert(old_items.take(n as int) =~= old_items);
            }
        }
        let smallest = if n > 0 { self.items[j].0 } else { 0 };
        proof {
            if n > 0 {
                let i = choose|i: int| 0 <= i < old_items.len() && (#[trigger] old_items[i]).0 == min_size(old_items);
                assert(old_items[j as int].0 <= old_items[i].0);
                assert(smallest == min_size(old_items));
            } else {
                assert(smallest == min_size(old_items));
            }
        }
        if n >= self.cap && size <= smallest {
            proof {
                self.dropped@ = old_dropped.push((size, path));
                assert forall|i: int, m: int|
                    0 <= i < self.dropped@.len() && 0 <= m < self.items@.len() implies (#[trigger] self.dropped@[i]).0
                        <= (#[trigger] self.items@[m]).0 by {
                    if i == old_dropped.len() {
                        assert(min_size(old_items) <= old_items[m].0);
                    } else {
                        assert(self.dropped@[i] == old_dropped[i]);
                    }
                }
            }
            return;
        }
        if n < self.cap {
            self.items.push((size, path));
            proof {
                assert forall|i: int, m: int|
                    0 <= i < self.dropped@.len() && 0 <= m < self.items@.len() implies (#[trigger] self.dropped@[i]).0
                        <= (#[trigger] self.items@[m]).0 by {
                    assert(old_dropped.len() == 0);
                }
            }
        } else {
            let gone = self.items.remove(j);
            self.items.push((size, path));
            proof {
                self.dropped@ = old_dropped.push(gone);
                assert(old_items[j as int].0 == min_size(old_items));
                assert forall|i: int, m: int|
                    0 <= i < self.dropped@.len() && 0 <= m < self.items@.len() implies (#[trigger] self.dropped@[i]).0
                        <= (#[trigger] self.items@[m]).0 by {
                    if m < old_items.len() - 1 {
                        let src = if m < j { m } else { m + 1 };
                        assert(self.items@[m] == old_items[src]);
                        if i < old_dropped.len() {
                            assert(self.dropped@[i] == old_dropped[i]);
                            assert(old_dropped[i].0 <= old_items[src].0);
                        } else {
                            assert(min_size(old_items) <= old_items[src].0);
                        }
                    } else {
                        assert(self.items@[m] == (size, path));
                        if i < old_dropped.len() {
                            assert(self.dropped@[i] == old_dropped[i]);
                            assert(old_dropped[i].0 <= old_items[j as int].0);
                        }
                    }
                }
                assert(self.items@ == old_items.remove(j as int).push((size, path)));
            }
        }
    }

    /// The kept files, biggest first (equal sizes in the order they are
    /// kept), at most `limit` of them.
    pub fn top_files(&self, limit: usize) -> (r: Vec<Entry>)
        requires
            self.wf(),
        ensures
            r@.len() == (if limit < self.items@.len() { limit as int } else { self.items@.len() as int }),
            r@ == Seq::new(r@.len(), |i: int| self.items@[ranking(self.items@, r@.len())[i]]),
            forall|i: int, j: int| 0 <= i < j < r@.len() ==> (#[trigger] r@[i]).0 >= (#[trigger] r@[j]).0,
            exists|idx: Seq<int>| #[trigger] picked(self.items@, r@, idx),
    {
        let n = self.items.len();
        let want = if limit < n { limit } else { n };
        let mut used: Vec<bool> = Vec::new();
        let mut q: usize = 0;
        while q < n
            invariant
                n == self.items@.len(),
                q <= n,
                used@.len() == q,
                forall|m: int| 0 <= m < q ==> !used@[m],
            decreases n - q,
        {
            used.push(false);
            q = q + 1;
        }
        let mut r: Vec<Entry> = Vec::new();
        let ghost mut idx: Seq<int> = Seq::empty();
        while r.len() < want
            invariant
                n == self.items@.len(),
                want <= n,
                used@.len() == n,
                r@.len() <= want,
                idx.len() == r@.len(),
                forall|m: int| 0 <= m < n ==> (used@[m] <==> idx.contains(m)),
                forall|i: int| 0 <= i < idx.len() ==> 0 <= #[trigger] idx[i] < n && r@[i] == self.items@[idx[i]],
                forall|i: int, j: int| 0 <= i < j < idx.len() ==> #[trigger] idx[i] != #[trigger] idx[j],
                forall|i: int, j: int| 0 <= i < j < r@.len() ==> (#[trigger] r@[i]).0 >= (#[trigger] r@[j]).0,
                forall|m: int|
                    0 <= m < n && !used@[m] && r@.len() > 0 ==> (#[trigger] self.items@[m]).0 <= r@.last().0,
                idx == ranking(self.items@, r@.len()),
            decreases want - r@.len(),
        {
            // Some entry is still unused: fewer than `n` have been taken.
            proof {
                if forall|m: int| 0 <= m < n ==> used@[m] {
                    assert forall|m: int| 0 <= m < n implies idx.contains(m) by {
                        assert(used@[m]);
                    }
                    lemma_injective_covers(idx, n as int);
                    assert(false);
                }
            }
            let mut best: usize = 0;
            let mut found = false;
            let mut k: usize = 0;
            while k < n
                invariant
                    n == self.items@.len(),
                    used@.len() == n,
                    k <= n,
                    found ==> best < k && !used@[best as int],
                    found ==> forall|m: int| 0 <= m < k && !used@[m] ==> (#[trigger] self.items@[m]).0 <= self.items@[best as int].0,
                    !found ==> forall|m: int| 0 <= m < k ==> used@[m],
                    forall|m: int| 0 <= m < n ==> (used@[m] <==> idx.contains(m)),
                    (if found { best as int } else { -1int }) == biggest_unused(self.items@, idx.to_set(), k as int),
                decreases n - k,
            {
                if !used[k] && (!found || self.items[k].0 > self.items[best].0) {
                    best = k;
                    found = true;
                }
                k = k + 1;
            }
            proof {
                if !found {
                    let m = choose|m: int| 0 <= m < n && !used@[m];
                    assert(used@[m]);
                }
            }
            let ghost old_idx = idx;
            let ghost old_used = used@;
            let e = (self.items[best].0, self.items[best].1.clone());
            r.push(e);
            used.set(best, true);
            proof {
                idx = old_idx.push(best as int);
                assert(r@.last() == self.items@[best as int]);
                assert forall|m: int| 0 <= m < n implies (used@[m] <==> idx.contains(m)) by {
                    if m == best {
                        assert(idx[idx.len() - 1] == m);
                    } else {
                        assert(used@[m] == old_used[m]);
                        if old_idx.contains(m) {
                            let i = choose|i: int| 0 <= i < old_idx.len() && old_idx[i] == m;
                            assert(idx[i] == m);
                        }
                        if idx.contains(m) {
                            let i = choose|i: int| 0 <= i < idx.len() && idx[i] == m;
                            if i < old_idx.len() {
                                assert(old_idx[i] == m);
                            }
                        }
                    }
                }
                assert forall|i: int, j: int| 0 <= i < j < idx.len() implies #[trigger] idx[i] != #[trigger] idx[j] by {
                    assert(idx[i] == old_idx[i]);
                    if j == idx.len() - 1 {
                        assert(old_idx.contains(old_idx[i]));
                        assert(old_used[old_idx[i]]);
                    } else {
                        assert(idx[j] == old_idx[j]);
                    }
                }
            }
        }
        proof {
            assert forall|m: int| 0 <= m < self.items@.len() && !idx.contains(m) && r@.len() > 0 implies (
            #[trigger] self.items@[m]).0 <= r@.last().0 by {
                assert(!used@[m]);
            }
            assert(picked(self.items@, r@, idx));
        }
        r
    }
}

/// An injective list of indices that covers `0..n` has at least `n` entries.
proof fn lemma_injective_covers(idx: Seq<int>, n: int)
    requires
        0 <= n,
        forall|m: int| 0 <= m < n ==> idx.contains(m),
        forall|i: int, j: int| 0 <= i < j < idx.len() ==> #[trigger] idx[i] != #[trigger] idx[j],
    ensures
        idx.len() >= n,
{
    let s = Set::new(|m: int| 0 <= m < n);
    let t = idx.to_set();
    assert(s.subset_of(t));
    vstd::set_lib::lemma_int_range(0, n);
    assert(s =~= vstd::set_lib::set_int_range(0, n));
    idx.unique_seq_to_set();
    vstd::set_lib::lemma_len_subset(s, t);
}

} // verus!
