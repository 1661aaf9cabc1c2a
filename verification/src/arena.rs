//! Arena-allocated directory tree. Nodes are plain indices, so the whole tree
//! is one `Vec<Node>`; every node's `size` and `files` are the totals of its
//! subtree, kept up to date as entries are attached.
use vstd::prelude::*;

verus! {

/// Index of a node in the arena.
pub type NodeId = u32;

#[derive(Debug)]
pub struct Node {
    pub name: String,
    pub parent: Option<NodeId>,
    pub children: Vec<NodeId>,
    /// Bytes attributed to this node itself (file bytes, or the directory inode).
    pub own: u64,
    /// Subtree total: `own` plus everything below.
    pub size: u64,
    /// Number of files in the subtree (directories not counted).
    pub files: u64,
    pub is_dir: bool,
    pub mtime: i64,
}

#[derive(Debug)]
pub struct Arena {
    pub nodes: Vec<Node>,
    pub root: NodeId,
}

/// `a` is `j` itself or one of `j`'s ancestors.
pub open spec fn is_anc(nodes: Seq<Node>, a: int, j: int) -> bool
    decreases j,
{
    if a == j {
        true
    } else if 0 <= j < nodes.len() {
        match nodes[j].parent {
            Some(p) => if (p as int) < j {
                is_anc(nodes, a, p as int)
            } else {
                false
            },
            None => false,
        }
    } else {
        false
    }
}

/// Sum of `own` over the nodes below index `k` that lie in the subtree of `a`.
pub open spec fn sum_own(nodes: Seq<Node>, a: int, k: int) -> int
    decreases k,
{
    if k <= 0 {
        0
    } else {
        sum_own(nodes, a, k - 1) + if is_anc(nodes, a, k - 1) {
            nodes[k - 1].own as int
        } else {
            0
        }
    }
}

/// Number of files (non-directories) below index `k` in the subtree of `a`.
pub open spec fn sum_files(nodes: Seq<Node>, a: int, k: int) -> int
    decreases k,
{
    if k <= 0 {
        0
    } else {
        sum_files(nodes, a, k - 1) + if is_anc(nodes, a, k - 1) && !nodes[k - 1].is_dir {
            1int
        } else {
            0
        }
    }
}

/// Total bytes of the subtree rooted at `a`.
pub open spec fn subtree_size(nodes: Seq<Node>, a: int) -> int {
    sum_own(nodes, a, nodes.len() as int)
}

/// Number of files in the subtree rooted at `a`.
pub open spec fn subtree_files(nodes: Seq<Node>, a: int) -> int {
    sum_files(nodes, a, nodes.len() as int)
}

/// The structural part of a well-formed tree: node 0 is the root, every other
/// node's parent has a smaller index, and `children` lists exactly the nodes
/// whose parent it is, in increasing order.
pub open spec fn shape_ok(n: Seq<Node>) -> bool {
    &&& 1 <= n.len() <= u32::MAX
    &&& n[0].parent is None
    &&& forall|j: int|
        1 <= j < n.len() ==> (#[trigger] n[j].parent) is Some && n[j].parent->0 < j
    &&& forall|i: int, k: int|
        0 <= i < n.len() && 0 <= k < n[i].children@.len() ==> {
            let c = #[trigger] n[i].children@[k];
            &&& 0 < c < n.len()
            &&& n[c as int].parent == Some(i as u32)
        }
    &&& forall|i: int, k1: int, k2: int|
        0 <= i < n.len() && 0 <= k1 < k2 < n[i].children@.len() ==> #[trigger] n[i].children@[k1]
            < #[trigger] n[i].children@[k2]
    &&& forall|j: int|
        1 <= j < n.len() ==> n[(#[trigger] n[j].parent)->0 as int].children@.contains(j as u32)
}

/// Every node carries the totals of its subtree.
pub open spec fn totals_ok(n: Seq<Node>) -> bool {
    forall|i: int|
        0 <= i < n.len() ==> (#[trigger] n[i].size) == subtree_size(n, i) && n[i].files
            == subtree_files(n, i)
}

impl Arena {
    pub open spec fn wf(&self) -> bool {
        &&& self.root == 0
        &&& shape_ok(self.nodes@)
        &&& totals_ok(self.nodes@)
    }
}

// ---------------------------------------------------------------------------
// Lemmas about ancestry and subtree sums.
pub proof fn lemma_anc_le(n: Seq<Node>, a: int, j: int)
    requires
        is_anc(n, a, j),
    ensures
        a <= j,
    decreases j,
{
    if a != j {
        let p = n[j].parent->0 as int;
        lemma_anc_le(n, a, p);
    }
}

pub proof fn lemma_anc_trans(n: Seq<Node>, a: int, b: int, j: int)
    requires
        is_anc(n, a, b),
        is_anc(n, b, j),
    ensures
        is_anc(n, a, j),
    decreases j,
{
    if b != j {
        let p = n[j].parent->0 as int;
        lemma_anc_trans(n, a, b, p);
    }
}

pub proof fn lemma_root_anc(n: Seq<Node>, j: int)
    requires
        shape_ok(n),
        0 <= j < n.len(),
    ensures
        is_anc(n, 0, j),
    decreases j,
{
    if j != 0 {
        let p = n[j].parent->0 as int;
        lemma_root_anc(n, p);
    }
}

/// Ancestry only depends on the parent links of the nodes up to `j`.
pub proof fn lemma_anc_frame(n1: Seq<Node>, n2: Seq<Node>, a: int, j: int)
    requires
        0 <= j < n1.len(),
        j < n2.len(),
        forall|k: int| 0 <= k <= j ==> n1[k].parent == n2[k].parent,
    ensures
        is_anc(n1, a, j) == is_anc(n2, a, j),
    decreases j,
{
    if a != j {
        match n1[j].parent {
            Some(p) => {
                if (p as int) < j {
                    lemma_anc_frame(n1, n2, a, p as int);
                }
            },
            None => {},
        }
    }
}

pub proof fn lemma_sums_frame(n1: Seq<Node>, n2: Seq<Node>, a: int, k: int)
    requires
        0 <= k <= n1.len(),
        k <= n2.len(),
        forall|m: int|
            0 <= m < k ==> n1[m].parent == n2[m].parent && n1[m].own == n2[m].own
                && n1[m].is_dir == n2[m].is_dir,
    ensures
        sum_own(n1, a, k) == sum_own(n2, a, k),
        sum_files(n1, a, k) == sum_files(n2, a, k),
    decreases k,
{
    if k > 0 {
        lemma_sums_frame(n1, n2, a, k - 1);
        lemma_anc_frame(n1, n2, a, k - 1);
    }
}

pub proof fn lemma_sums_mono(n: Seq<Node>, a: int, b: int, k: int)
    requires
        is_anc(n, a, b),
        0 <= k <= n.len(),
    ensures
        sum_own(n, b, k) <= sum_own(n, a, k),
        sum_files(n, b, k) <= sum_files(n, a, k),
    decreases k,
{
    if k > 0 {
        lemma_sums_mono(n, a, b, k - 1);
        if is_anc(n, b, k - 1) {
            lemma_anc_trans(n, a, b, k - 1);
        }
    }
}

pub proof fn lemma_sums_above(n: Seq<Node>, a: int, k: int)
    requires
        0 <= k <= a,
    ensures
        sum_own(n, a, k) == 0,
        sum_files(n, a, k) == 0,
    decreases k,
{
    if k > 0 {
        lemma_sums_above(n, a, k - 1);
        if is_anc(n, a, k - 1) {
            lemma_anc_le(n, a, k - 1);
        }
    }
}

/// No subtree is bigger than the whole tree.
pub proof fn lemma_size_le_root(n: Seq<Node>, a: int)
    requires
        shape_ok(n),
        totals_ok(n),
        0 <= a < n.len(),
    ensures
        n[a].size <= n[0].size,
        n[a].files <= n[0].files,
{
    lemma_root_anc(n, a);
    lemma_sums_mono(n, 0, a, n.len() as int);
}


/// A node's own bytes are part of its subtree total.
pub proof fn lemma_own_le_sum(n: Seq<Node>, a: int, k: int)
    requires
        0 <= a < k <= n.len(),
    ensures
        n[a].own <= sum_own(n, a, k),
    decreases k,
{
    lemma_sums_nonneg(n, a, k - 1);
    if k - 1 > a {
        lemma_own_le_sum(n, a, k - 1);
    }
}

pub proof fn lemma_sums_nonneg(n: Seq<Node>, a: int, k: int)
    ensures
        sum_own(n, a, k) >= 0,
        sum_files(n, a, k) >= 0,
    decreases k,
{
    if k > 0 {
        lemma_sums_nonneg(n, a, k - 1);
    }
}

/// Changing one node's `own` by `delta` changes exactly the sums of its
/// ancestors, by `delta`.
pub proof fn lemma_sum_own_bump(n1: Seq<Node>, n2: Seq<Node>, a: int, k: int, m: int, delta: int)
    requires
        0 <= k <= n1.len(),
        n1.len() == n2.len(),
        0 <= m < n1.len(),
        forall|x: int| 0 <= x < n1.len() ==> n1[x].parent == n2[x].parent && n1[x].is_dir == n2[x].is_dir,
        forall|x: int| 0 <= x < n1.len() && x != m ==> n1[x].own == n2[x].own,
        n2[m].own == n1[m].own + delta,
    ensures
        sum_own(n2, a, k) == sum_own(n1, a, k) + if k > m && is_anc(n1, a, m) { delta } else { 0 },
        sum_files(n2, a, k) == sum_files(n1, a, k),
    decreases k,
{
    if k > 0 {
        lemma_sum_own_bump(n1, n2, a, k - 1, m, delta);
        lemma_anc_frame(n1, n2, a, k - 1);
    }
}

/// Attaching node `len0` under `p` and bumping the totals of `p`'s ancestors
/// keeps a tree well formed.
proof fn lemma_add_keeps_wf(n0: Seq<Node>, n2: Seq<Node>, p: int, own: u64, is_dir: bool)
    requires
        shape_ok(n0),
        totals_ok(n0),
        0 <= p < n0.len(),
        n0.len() < u32::MAX,
        n2.len() == n0.len() + 1,
        forall|m: int| 0 <= m < n0.len() ==> {
            &&& (#[trigger] n2[m]).parent == n0[m].parent
            &&& n2[m].own == n0[m].own
            &&& n2[m].is_dir == n0[m].is_dir
            &&& n2[m].children@ == if m == p { n0[m].children@.push(n0.len() as u32) } else { n0[m].children@ }
            &&& n2[m].size == n0[m].size + if is_anc(n0, m, p) { own as int } else { 0 }
            &&& n2[m].files == n0[m].files + if is_anc(n0, m, p) && !is_dir { 1int } else { 0 }
        },
        n2[n0.len() as int].parent == Some(p as u32),
        n2[n0.len() as int].children@.len() == 0,
        n2[n0.len() as int].own == own,
        n2[n0.len() as int].size == own,
        n2[n0.len() as int].is_dir == is_dir,
        n2[n0.len() as int].files == if is_dir { 0u64 } else { 1u64 },
    ensures
        shape_ok(n2),
        totals_ok(n2),
{
    let len0 = n0.len() as int;
    let id = len0 as u32;
    let parent = p as u32;
    assert(n2[len0].parent == Some(parent));
    assert forall|a: int| 0 <= a < len0 + 1 implies (#[trigger] n2[a].size) == subtree_size(n2, a)
        && n2[a].files == subtree_files(n2, a) by {
        lemma_sums_frame(n0, n2, a, len0);
        if a < len0 {
            lemma_anc_frame(n0, n2, a, p);
            assert(is_anc(n2, a, len0) == is_anc(n2, a, p));
        } else {
            lemma_sums_above(n2, a, len0);
        }
    }
    assert(shape_ok(n2)) by {
        assert forall|i: int, k: int|
            0 <= i < n2.len() && 0 <= k < n2[i].children@.len() implies {
                let c = #[trigger] n2[i].children@[k];
                &&& 0 < c < n2.len()
                &&& n2[c as int].parent == Some(i as u32)
            } by {
            if i == p {
                if k < n0[i].children@.len() {
                    assert(n2[i].children@[k] == n0[i].children@[k]);
                }
            } else if i < len0 {
                assert(n2[i].children@ == n0[i].children@);
            }
        }
        assert forall|i: int, k1: int, k2: int|
            0 <= i < n2.len() && 0 <= k1 < k2 < n2[i].children@.len() implies #[trigger] n2[i].children@[k1]
                < #[trigger] n2[i].children@[k2] by {
            if i == p {
                assert(n2[i].children@[k1] == n0[i].children@[k1]);
                if k2 < n0[i].children@.len() {
                    assert(n2[i].children@[k2] == n0[i].children@[k2]);
                }
            } else if i < len0 {
                assert(n2[i].children@ == n0[i].children@);
            }
        }
        assert forall|j: int| 1 <= j < n2.len() implies n2[(#[trigger] n2[j].parent)->0 as int].children@.contains(j as u32) by {
            if j < len0 {
                let q = n0[j].parent->0 as int;
                assert(n0[q].children@.contains(j as u32));
                if q == p {
                    let kk = choose|kk: int| 0 <= kk < n0[q].children@.len() && n0[q].children@[kk] == j as u32;
                    assert(n2[q].children@[kk] == j as u32);
                } else {
                    assert(n2[q].children@ == n0[q].children@);
                }
            } else {
                assert(n2[p].children@[n2[p].children@.len() - 1] == id);
            }
        }
    }
}

/// The entries of `ch` whose subtree holds at least one byte, in list order.
pub open spec fn nonempty(n: Seq<Node>, ch: Seq<NodeId>) -> Seq<NodeId>
    decreases ch.len(),
{
    if ch.len() == 0 {
        ch
    } else {
        let r = nonempty(n, ch.drop_last());
        if n[ch.last() as int].size > 0 {
            r.push(ch.last())
        } else {
            r
        }
    }
}

/// Sum of the subtree sizes of the listed nodes.
pub open spec fn sizes_total(n: Seq<Node>, s: Seq<NodeId>) -> int
    decreases s.len(),
{
    if s.len() == 0 {
        0
    } else {
        sizes_total(n, s.drop_last()) + n[s.last() as int].size
    }
}

/// Sum of the file counts of the listed nodes.
pub open spec fn files_total(n: Seq<Node>, s: Seq<NodeId>) -> int
    decreases s.len(),
{
    if s.len() == 0 {
        0
    } else {
        files_total(n, s.drop_last()) + n[s.last() as int].files
    }
}

/// Biggest subtree first.
pub open spec fn sorted_by_size(n: Seq<Node>, s: Seq<NodeId>) -> bool {
    forall|i: int, j: int| 0 <= i < j < s.len() ==> n[s[i] as int].size >= n[s[j] as int].size
}

/// How many of the listed nodes are `m` or an ancestor of `m`.
pub open spec fn anc_count(n: Seq<Node>, l: Seq<NodeId>, m: int) -> int
    decreases l.len(),
{
    if l.len() == 0 {
        0
    } else {
        anc_count(n, l.drop_last(), m) + if is_anc(n, l.last() as int, m) { 1int } else { 0 }
    }
}

pub open spec fn own_over(n: Seq<Node>, l: Seq<NodeId>, k: int) -> int
    decreases l.len(),
{
    if l.len() == 0 {
        0
    } else {
        own_over(n, l.drop_last(), k) + sum_own(n, l.last() as int, k)
    }
}

pub open spec fn files_over(n: Seq<Node>, l: Seq<NodeId>, k: int) -> int
    decreases l.len(),
{
    if l.len() == 0 {
        0
    } else {
        files_over(n, l.drop_last(), k) + sum_files(n, l.last() as int, k)
    }
}

/// Distinct children of `a`.
pub open spec fn sibling_set(n: Seq<Node>, a: int, l: Seq<NodeId>) -> bool {
    &&& l.no_duplicates()
    &&& forall|i: int| 0 <= i < l.len() ==> 0 < #[trigger] l[i] < n.len() && n[l[i] as int].parent == Some(a as u32)
}

pub proof fn lemma_anc_comparable(n: Seq<Node>, x: int, y: int, j: int)
    requires
        is_anc(n, x, j),
        is_anc(n, y, j),
    ensures
        is_anc(n, x, y) || is_anc(n, y, x),
    decreases j,
{
    if x != j && y != j {
        lemma_anc_comparable(n, x, y, n[j].parent->0 as int);
    }
}

/// Two different children of one node never share a descendant.
pub proof fn lemma_siblings_disjoint(n: Seq<Node>, a: int, c1: int, c2: int, m: int)
    requires
        shape_ok(n),
        0 <= a < n.len(),
        0 < c1 < n.len(),
        0 < c2 < n.len(),
        c1 != c2,
        n[c1].parent == Some(a as u32),
        n[c2].parent == Some(a as u32),
        is_anc(n, c1, m),
    ensures
        !is_anc(n, c2, m),
{
    if is_anc(n, c2, m) {
        lemma_anc_comparable(n, c1, c2, m);
        assert(n[c1].parent->0 < c1 && n[c2].parent->0 < c2);
        if is_anc(n, c1, c2) {
            assert(is_anc(n, c1, a));
            lemma_anc_le(n, c1, a);
        } else {
            assert(is_anc(n, c2, a));
            lemma_anc_le(n, c2, a);
        }
    }
}

pub proof fn lemma_anc_count(n: Seq<Node>, a: int, l: Seq<NodeId>, m: int)
    requires
        shape_ok(n),
        0 <= a < n.len(),
        sibling_set(n, a, l),
    ensures
        0 <= anc_count(n, l, m) <= 1,
        anc_count(n, l, m) > 0 ==> exists|i: int| 0 <= i < l.len() && is_anc(n, #[trigger] l[i] as int, m),
        anc_count(n, l, m) > 0 ==> is_anc(n, a, m),
    decreases l.len(),
{
    if l.len() > 0 {
        let l0 = l.drop_last();
        assert(sibling_set(n, a, l0)) by {
            assert forall|i: int| 0 <= i < l0.len() implies 0 < #[trigger] l0[i] < n.len() && n[l0[i] as int].parent == Some(a as u32) by {
                assert(l0[i] == l[i]);
            }
            assert forall|i: int, j: int| 0 <= i < l0.len() && 0 <= j < l0.len() && i != j implies l0[i] != l0[j] by {
                assert(l0[i] == l[i] && l0[j] == l[j]);
            }
        }
        lemma_anc_count(n, a, l0, m);
        let c = l.last() as int;
        assert(l[l.len() - 1] == l.last());
        if is_anc(n, c, m) {
            if anc_count(n, l0, m) > 0 {
                let i = choose|i: int| 0 <= i < l0.len() && is_anc(n, #[trigger] l0[i] as int, m);
                assert(l0[i] == l[i]);
                lemma_siblings_disjoint(n, a, c, l0[i] as int, m);
            }
            assert(is_anc(n, a, a));
            assert(is_anc(n, a, c));
            lemma_anc_trans(n, a, c, m);
        } else if anc_count(n, l0, m) > 0 {
            let i = choose|i: int| 0 <= i < l0.len() && is_anc(n, #[trigger] l0[i] as int, m);
            assert(l0[i] == l[i]);
        }
    }
}

pub proof fn lemma_over_step(n: Seq<Node>, l: Seq<NodeId>, k: int)
    requires
        0 < k,
    ensures
        own_over(n, l, k) == own_over(n, l, k - 1) + anc_count(n, l, k - 1) * (n[k - 1].own as int),
        files_over(n, l, k) == files_over(n, l, k - 1) + anc_count(n, l, k - 1) * (if !n[k - 1].is_dir { 1int } else { 0 }),
    decreases l.len(),
{
    if l.len() > 0 {
        lemma_over_step(n, l.drop_last(), k);
        let c0 = anc_count(n, l.drop_last(), k - 1);
        let b: int = if is_anc(n, l.last() as int, k - 1) { 1 } else { 0 };
        let o = n[k - 1].own as int;
        let fi: int = if !n[k - 1].is_dir { 1 } else { 0 };
        assert((c0 + b) * o == c0 * o + b * o) by (nonlinear_arith);
        assert((c0 + b) * fi == c0 * fi + b * fi) by (nonlinear_arith);
    }
}

/// The subtrees of distinct children of `a` together hold no more than `a`'s subtree.
pub proof fn lemma_children_within(n: Seq<Node>, a: int, l: Seq<NodeId>, k: int)
    requires
        shape_ok(n),
        0 <= a < n.len(),
        sibling_set(n, a, l),
        0 <= k <= n.len(),
    ensures
        own_over(n, l, k) <= sum_own(n, a, k),
        files_over(n, l, k) <= sum_files(n, a, k),
    decreases k,
{
    if k > 0 {
        lemma_children_within(n, a, l, k - 1);
        lemma_over_step(n, l, k);
        lemma_anc_count(n, a, l, k - 1);
        let c = anc_count(n, l, k - 1);
        let o = n[k - 1].own as int;
        assert(c * o <= if is_anc(n, a, k - 1) { o } else { 0 }) by {
            if c == 0 {
                assert(c * o == 0);
            } else {
                assert(c == 1);
                assert(c * o == o);
            }
        }
    } else {
        lemma_over_zero(n, l);
    }
}

proof fn lemma_over_zero(n: Seq<Node>, l: Seq<NodeId>)
    ensures
        own_over(n, l, 0) == 0,
        files_over(n, l, 0) == 0,
    decreases l.len(),
{
    if l.len() > 0 {
        lemma_over_zero(n, l.drop_last());
    }
}

proof fn lemma_over_is_totals(n: Seq<Node>, l: Seq<NodeId>)
    requires
        totals_ok(n),
        forall|i: int| 0 <= i < l.len() ==> 0 <= #[trigger] l[i] < n.len(),
    ensures
        own_over(n, l, n.len() as int) == sizes_total(n, l),
        files_over(n, l, n.len() as int) == files_total(n, l),
    decreases l.len(),
{
    if l.len() > 0 {
        let l0 = l.drop_last();
        assert forall|i: int| 0 <= i < l0.len() implies 0 <= #[trigger] l0[i] < n.len() by {
            assert(l0[i] == l[i]);
        }
        lemma_over_is_totals(n, l0);
        assert(l[l.len() - 1] == l.last());
    }
}

/// Distinct children of a node never add up to more than the node itself.
pub proof fn lemma_siblings_total(n: Seq<Node>, a: int, l: Seq<NodeId>)
    requires
        shape_ok(n),
        totals_ok(n),
        0 <= a < n.len(),
        sibling_set(n, a, l),
    ensures
        sizes_total(n, l) <= n[a].size,
        files_total(n, l) <= n[a].files,
{
    lemma_children_within(n, a, l, n.len() as int);
    lemma_over_is_totals(n, l);
}

pub proof fn lemma_totals_concat(n: Seq<Node>, s1: Seq<NodeId>, s2: Seq<NodeId>)
    ensures
        sizes_total(n, s1 + s2) == sizes_total(n, s1) + sizes_total(n, s2),
        files_total(n, s1 + s2) == files_total(n, s1) + files_total(n, s2),
    decreases s2.len(),
{
    if s2.len() > 0 {
        lemma_totals_concat(n, s1, s2.drop_last());
        assert((s1 + s2).drop_last() =~= s1 + s2.drop_last());
        assert((s1 + s2).last() == s2.last());
    } else {
        assert(s1 + s2 =~= s1);
    }
}

pub proof fn lemma_totals_nonneg(n: Seq<Node>, s: Seq<NodeId>)
    ensures
        sizes_total(n, s) >= 0,
        files_total(n, s) >= 0,
    decreases s.len(),
{
    if s.len() > 0 {
        lemma_totals_nonneg(n, s.drop_last());
    }
}

/// `nonempty` keeps a strictly increasing list strictly increasing, and only
/// keeps entries of the list.
pub proof fn lemma_nonempty_sub(n: Seq<Node>, ch: Seq<NodeId>)
    requires
        forall|i: int, j: int| 0 <= i < j < ch.len() ==> ch[i] < ch[j],
    ensures
        forall|i: int, j: int| 0 <= i < j < nonempty(n, ch).len() ==> nonempty(n, ch)[i] < nonempty(n, ch)[j],
        forall|i: int| 0 <= i < nonempty(n, ch).len() ==> ch.contains(#[trigger] nonempty(n, ch)[i]),
        forall|i: int| 0 <= i < ch.len() && n[ch[i] as int].size > 0 ==> nonempty(n, ch).contains(#[trigger] ch[i]),
    decreases ch.len(),
{
    if ch.len() > 0 {
        let c0 = ch.drop_last();
        lemma_nonempty_sub(n, c0);
        let r0 = nonempty(n, c0);
        let r = nonempty(n, ch);
        assert forall|i: int| 0 <= i < r0.len() implies ch.contains(#[trigger] r0[i]) && r0[i] < ch.last() by {
            assert(c0.contains(r0[i]));
            let j = choose|j: int| 0 <= j < c0.len() && c0[j] == r0[i];
            assert(ch[j] == r0[i]);
            assert(ch[ch.len() - 1] == ch.last());
        }
        assert forall|i: int| 0 <= i < ch.len() && n[ch[i] as int].size > 0 implies r.contains(#[trigger] ch[i]) by {
            if i < ch.len() - 1 {
                assert(c0[i] == ch[i]);
                assert(r0.contains(c0[i]));
                let j = choose|j: int| 0 <= j < r0.len() && r0[j] == c0[i];
                assert(r[j] == ch[i]);
            } else {
                assert(ch[i] == ch.last());
                assert(r[r.len() - 1] == ch.last());
            }
        }
        assert forall|i: int| 0 <= i < r.len() implies ch.contains(#[trigger] r[i]) by {
            if i < r0.len() {
                assert(r[i] == r0[i]);
            } else {
                assert(ch[ch.len() - 1] == ch.last());
            }
        }
    }
}

pub proof fn lemma_totals_subrange(n: Seq<Node>, s: Seq<NodeId>, a: int, b: int)
    requires
        0 <= a <= b <= s.len(),
    ensures
        sizes_total(n, s.subrange(a, b)) <= sizes_total(n, s),
        files_total(n, s.subrange(a, b)) <= files_total(n, s),
{
    let s0 = s.subrange(0, a);
    let s1 = s.subrange(a, b);
    let s2 = s.subrange(b, s.len() as int);
    assert(s =~= s0 + s1 + s2);
    lemma_totals_concat(n, s0 + s1, s2);
    lemma_totals_concat(n, s0, s1);
    lemma_totals_nonneg(n, s0);
    lemma_totals_nonneg(n, s2);
}

/// Path of node `j` from the root, components joined by `/`.
pub open spec fn path_of(n: Seq<Node>, j: int) -> Seq<char>
    decreases j,
{
    if 0 <= j < n.len() {
        match n[j].parent {
            Some(p) => if (p as int) < j {
                path_of(n, p as int) + seq!['/'] + n[j].name@
            } else {
                n[j].name@
            },
            None => n[j].name@,
        }
    } else {
        Seq::empty()
    }
}

/// Law: a node's path is fixed once the node is in the tree. Growing the
/// tree in a way that keeps every existing node's name and parent (as `add`
/// and `attach` do) keeps every existing path.
pub proof fn law_path_stable(n1: Seq<Node>, n2: Seq<Node>, j: int)
    requires
        0 <= j < n1.len() <= n2.len(),
        forall|k: int| 0 <= k < n1.len() ==> (#[trigger] n2[k]).name == n1[k].name && n2[k].parent == n1[k].parent,
    ensures
        path_of(n2, j) == path_of(n1, j),
    decreases j,
{
    assert(n2[j].name == n1[j].name && n2[j].parent == n1[j].parent);
    match n1[j].parent {
        Some(p) => {
            if (p as int) < j {
                law_path_stable(n1, n2, p as int);
            }
        },
        None => {},
    }
}

/// Law: the root's path is its name, and every other node's path is its
/// parent's path, `/`, and its own name.
pub proof fn law_path_of_child(arena: &Arena, j: int)
    requires
        arena.wf(),
        0 <= j < arena.nodes@.len(),
    ensures
        j == 0 ==> path_of(arena.nodes@, 0) == arena.nodes@[0].name@,
        j > 0 ==> path_of(arena.nodes@, j) == path_of(arena.nodes@, arena.nodes@[j].parent->0 as int) + seq!['/']
            + arena.nodes@[j].name@,
{
    let n = arena.nodes@;
    if j > 0 {
        assert(n[j].parent is Some && n[j].parent->0 < j);
    }
}

/// Law: the path of an added node is its parent's path at the time of the
/// add, `/`, and its name, however the tree grows afterwards. `n0` is the
/// tree before the add, `n1` right after it (as `add` leaves it: older nodes
/// keep their names and parents, the new node `n0.len()` hangs below `p`),
/// and `n2` any later tree that keeps the names and parents of `n1`.
pub proof fn law_path_after_add(n0: Seq<Node>, n1: Seq<Node>, n2: Seq<Node>, p: NodeId, name: Seq<char>)
    requires
        (p as int) < n0.len(),
        n0.len() < n1.len() <= n2.len(),
        forall|k: int| 0 <= k < n0.len() ==> (#[trigger] n1[k]).name == n0[k].name && n1[k].parent == n0[k].parent,
        n1[n0.len() as int].parent == Some(p),
        n1[n0.len() as int].name@ == name,
        forall|k: int| 0 <= k < n1.len() ==> (#[trigger] n2[k]).name == n1[k].name && n2[k].parent == n1[k].parent,
    ensures
        path_of(n2, n0.len() as int) == path_of(n0, p as int) + seq!['/'] + name,
{
    let id = n0.len() as int;
    assert(n2[id].parent == Some(p) && n2[id].name@ == name);
    assert forall|k: int| 0 <= k < n0.len() implies (#[trigger] n2[k]).name == n0[k].name && n2[k].parent == n0[k].parent by {
        assert(n1[k].name == n0[k].name);
    }
    law_path_stable(n0, n2, p as int);
}

/// Law: in a well-formed tree every node's size is its own bytes plus the
/// sizes of its children, its file count is one for a file plus the file
/// counts of its children, and a node lists exactly the nodes whose parent it
/// is. `add` and `attach` keep the tree well-formed.
pub proof fn law_tree_totals(arena: &Arena, a: int)
    requires
        arena.wf(),
        0 <= a < arena.nodes@.len(),
    ensures
        arena.nodes@[a].size == arena.nodes@[a].own + sizes_total(arena.nodes@, arena.nodes@[a].children@),
        arena.nodes@[a].files == (if arena.nodes@[a].is_dir { 0int } else { 1 }) + files_total(
            arena.nodes@,
            arena.nodes@[a].children@,
        ),
        forall|c: int|
            0 <= c < arena.nodes@.len() ==> (arena.nodes@[a].children@.contains(c as u32) <==> #[trigger] arena.nodes@[c].parent
                == Some(a as u32)),
{
    law_size_is_own_plus_children(arena, a);
    let n = arena.nodes@;
    assert forall|c: int| 0 <= c < n.len() implies (n[a].children@.contains(c as u32) <==> #[trigger] n[c].parent == Some(a as u32)) by {
        if n[a].children@.contains(c as u32) {
            let k = choose|k: int| 0 <= k < n[a].children@.len() && n[a].children@[k] == c as u32;
            assert(n[a].children@[k] == c as u32);
        }
        if n[c].parent == Some(a as u32) {
            if c == 0 {
                assert(n[0].parent is None);
            }
            assert(n[(n[c].parent)->0 as int].children@.contains(c as u32));
        }
    }
}

proof fn lemma_sorted_insert(n: Seq<Node>, s0: Seq<NodeId>, pos: int, x: NodeId, t0: Seq<NodeId>)
    requires
        0 <= pos <= s0.len(),
        (x as int) < n.len(),
        forall|i: int| 0 <= i < s0.len() ==> (#[trigger] s0[i] as int) < n.len(),
        s0.no_duplicates(),
        !t0.contains(x),
        forall|y: NodeId| s0.contains(y) <==> t0.contains(y),
        sorted_by_size(n, s0),
        forall|q: int| 0 <= q < pos ==> n[s0[q] as int].size >= n[x as int].size,
        forall|q: int| pos <= q < s0.len() ==> n[s0[q] as int].size < n[x as int].size,
        sizes_total(n, s0) == sizes_total(n, t0),
        files_total(n, s0) == files_total(n, t0),
    ensures
        ({
            let s1 = s0.insert(pos, x);
            let t1 = t0.push(x);
            &&& s1.len() == s0.len() + 1
            &&& forall|i: int| 0 <= i < s1.len() ==> (#[trigger] s1[i] as int) < n.len()
            &&& s1.no_duplicates()
            &&& forall|y: NodeId| s1.contains(y) <==> t1.contains(y)
            &&& sorted_by_size(n, s1)
            &&& sizes_total(n, s1) == sizes_total(n, t1)
            &&& files_total(n, s1) == files_total(n, t1)
        }),
{
    let s1 = s0.insert(pos, x);
    let t1 = t0.push(x);
    s0.insert_ensures(pos, x);
    let t = s0.subrange(0, pos);
    let u = s0.subrange(pos, s0.len() as int);
    assert(s0 =~= t + u);
    assert(s1 =~= t + seq![x] + u);
    lemma_totals_concat(n, t + seq![x], u);
    lemma_totals_concat(n, t, seq![x]);
    lemma_totals_concat(n, t, u);
    assert(seq![x].drop_last() =~= Seq::<NodeId>::empty());
    assert(t1.drop_last() =~= t0);
    assert(seq![x].last() == x);
    assert(sizes_total(n, Seq::<NodeId>::empty()) == 0);
    assert(files_total(n, Seq::<NodeId>::empty()) == 0);
    assert(sizes_total(n, seq![x]) == n[x as int].size);
    assert(files_total(n, seq![x]) == n[x as int].files);
    assert(sizes_total(n, t1) == sizes_total(n, t0) + n[x as int].size);
    assert(files_total(n, t1) == files_total(n, t0) + n[x as int].files);
    assert forall|i: int| 0 <= i < s1.len() implies (#[trigger] s1[i] as int) < n.len() by {
        if i < pos {
            assert(s1[i] == s0[i]);
        } else if i > pos {
            assert(s1[i] == s0[i - 1]);
        }
    }
    assert forall|y: NodeId| s1.contains(y) <==> t1.contains(y) by {
        if s1.contains(y) {
            let j = choose|j: int| 0 <= j < s1.len() && s1[j] == y;
            if j < pos {
                assert(s0[j] == y);
                assert(s0.contains(y));
                assert(t0.contains(y));
                let q = choose|q: int| 0 <= q < t0.len() && t0[q] == y;
                assert(t1[q] == y);
            } else if j > pos {
                assert(s0[j - 1] == y);
                assert(s0.contains(y));
                assert(t0.contains(y));
                let q = choose|q: int| 0 <= q < t0.len() && t0[q] == y;
                assert(t1[q] == y);
            } else {
                assert(t1[t0.len() as int] == y);
            }
        }
        if t1.contains(y) {
            let j = choose|j: int| 0 <= j < t1.len() && #[trigger] t1[j] == y;
            if j < t0.len() {
                assert(t0[j] == y);
                assert(t0.contains(y));
                assert(s0.contains(y));
                let q = choose|q: int| 0 <= q < s0.len() && s0[q] == y;
                if q < pos {
                    assert(s1[q] == y);
                } else {
                    assert(s1[q + 1] == y);
                }
            } else {
                assert(s1[pos] == y);
            }
        }
    }
    assert forall|i: int, j: int| 0 <= i < s1.len() && 0 <= j < s1.len() && i != j implies s1[i] != s1[j] by {
        let a = if i < pos { i } else if i == pos { -1 } else { i - 1 };
        let b = if j < pos { j } else if j == pos { -1 } else { j - 1 };
        if a >= 0 && b >= 0 {
            assert(s1[i] == s0[a] && s1[j] == s0[b]);
        } else if a >= 0 {
            assert(s1[i] == s0[a]);
            assert(s0.contains(s0[a]));
        } else if b >= 0 {
            assert(s1[j] == s0[b]);
            assert(s0.contains(s0[b]));
        }
    }
    assert forall|i: int, j: int| 0 <= i < j < s1.len() implies n[s1[i] as int].size >= n[s1[j] as int].size by {
        if j < pos {
        } else if j == pos {
            assert(s1[i] == s0[i]);
        } else if i < pos {
            assert(s1[i] == s0[i] && s1[j] == s0[j - 1]);
        } else if i == pos {
            assert(s1[j] == s0[j - 1]);
        } else {
            assert(s1[i] == s0[i - 1] && s1[j] == s0[j - 1]);
        }
    }
}

/// Where `x` of subtree size `v` goes in a list sorted biggest first: after
/// every entry from `i` on that is at least as big.
pub open spec fn ins_pos(n: Seq<Node>, s: Seq<NodeId>, v: u64, i: int) -> int
    decreases s.len() - i,
{
    if i < 0 || i >= s.len() || n[s[i] as int].size < v {
        i
    } else {
        ins_pos(n, s, v, i + 1)
    }
}

/// `ids` sorted biggest subtree first; entries of equal size keep their order.
pub open spec fn sorted_ids(n: Seq<Node>, ids: Seq<NodeId>) -> Seq<NodeId>
    decreases ids.len(),
{
    if ids.len() == 0 {
        ids
    } else {
        let s = sorted_ids(n, ids.drop_last());
        let x = ids.last();
        s.insert(ins_pos(n, s, n[x as int].size, 0), x)
    }
}

/// Stable sort of `ids`, biggest subtree first.
fn sort_by_size(nodes: &Vec<Node>, ids: &Vec<NodeId>) -> (s: Vec<NodeId>)
    requires
        forall|i: int| 0 <= i < ids@.len() ==> (#[trigger] ids@[i] as int) < nodes@.len(),
        ids@.no_duplicates(),
    ensures
        s@.len() == ids@.len(),
        s@.no_duplicates(),
        forall|x: NodeId| s@.contains(x) <==> ids@.contains(x),
        sorted_by_size(nodes@, s@),
        sizes_total(nodes@, s@) == sizes_total(nodes@, ids@),
        files_total(nodes@, s@) == files_total(nodes@, ids@),
        s@ == sorted_ids(nodes@, ids@),
{
    let ghost n = nodes@;
    let mut s: Vec<NodeId> = Vec::new();
    let mut k: usize = 0;
    while k < ids.len()
        invariant
            n == nodes@,
            0 <= k <= ids@.len(),
            forall|i: int| 0 <= i < ids@.len() ==> (#[trigger] ids@[i] as int) < n.len(),
            ids@.no_duplicates(),
            s@.len() == k,
            forall|i: int| 0 <= i < s@.len() ==> (#[trigger] s@[i] as int) < n.len(),
            s@.no_duplicates(),
            forall|x: NodeId| s@.contains(x) <==> ids@.take(k as int).contains(x),
            sorted_by_size(n, s@),
            sizes_total(n, s@) == sizes_total(n, ids@.take(k as int)),
            files_total(n, s@) == files_total(n, ids@.take(k as int)),
            s@ == sorted_ids(n, ids@.take(k as int)),
        decreases ids@.len() - k,
    {
        let x = ids[k];
        let sx = nodes[x as usize].size;
        let mut pos: usize = 0;
        while pos < s.len() && nodes[s[pos] as usize].size >= sx
            invariant
                n == nodes@,
                0 <= pos <= s@.len(),
                forall|i: int| 0 <= i < s@.len() ==> (#[trigger] s@[i] as int) < n.len(),
                forall|q: int| 0 <= q < pos ==> n[s@[q] as int].size >= sx,
                ins_pos(n, s@, sx, 0) == ins_pos(n, s@, sx, pos as int),
            decreases s@.len() - pos,
        {
            pos = pos + 1;
        }
        let ghost s0 = s@;
        proof {
            assert(ins_pos(n, s0, sx, pos as int) == pos);
            assert(ids@.take(k as int + 1).drop_last() =~= ids@.take(k as int));
            assert(ids@.take(k as int + 1).last() == x);
            assert forall|q: int| pos <= q < s0.len() implies n[s0[q] as int].size < sx by {
                assert(n[s0[pos as int] as int].size < sx);
            }
            assert(ids@.take(k as int + 1) =~= ids@.take(k as int).push(x));
            assert(!ids@.take(k as int).contains(x)) by {
                if ids@.take(k as int).contains(x) {
                    let j = choose|j: int| 0 <= j < k && ids@.take(k as int)[j] == x;
                    assert(ids@[j] == ids@[k as int]);
                }
            }
            lemma_sorted_insert(n, s0, pos as int, x, ids@.take(k as int));
        }
        s.insert(pos, x);
        k = k + 1;
    }
    proof {
        assert(ids@.take(ids@.len() as int) =~= ids@);
    }
    s
}

impl Arena {
    pub fn new_root(name: String) -> (a: Self)
        ensures
            a.wf(),
            a.nodes@.len() == 1,
            a.nodes@[0].name == name,
            a.nodes@[0].parent is None,
            a.nodes@[0].children@.len() == 0,
            a.nodes@[0].own == 0,
            a.nodes@[0].size == 0,
            a.nodes@[0].files == 0,
            a.nodes@[0].is_dir,
            a.nodes@[0].mtime == 0,
    {
        let root = Node {
            name,
            parent: None,
            children: Vec::new(),
            own: 0,
            size: 0,
            files: 0,
            is_dir: true,
            mtime: 0,
        };
        let a = Arena { nodes: vec![root], root: 0 };
        proof {
            let n = a.nodes@;
            assert(n[0].own == 0 && n[0].is_dir);
            assert(is_anc(n, 0, 0));
            assert(sum_own(n, 0, 0) == 0);
            assert(sum_files(n, 0, 0) == 0);
            assert(sum_own(n, 0, 1) == 0);
            assert(sum_files(n, 0, 1) == 0);
        }
        a
    }

    /// Root's own inode size (added once, when the walk yields depth 0).
    pub fn add_root_own(&mut self, own: u64)
        requires
            old(self).wf(),
            old(self).nodes@[0].size + own <= u64::MAX,
        ensures
            final(self).wf(),
            final(self).nodes@.len() == old(self).nodes@.len(),
            final(self).nodes@[0].own == old(self).nodes@[0].own + own,
            final(self).nodes@[0].size == old(self).nodes@[0].size + own,
            final(self).nodes@[0].files == old(self).nodes@[0].files,
            final(self).nodes@[0].name == old(self).nodes@[0].name,
            final(self).nodes@[0].parent == old(self).nodes@[0].parent,
            final(self).nodes@[0].children == old(self).nodes@[0].children,
            final(self).nodes@[0].is_dir == old(self).nodes@[0].is_dir,
            final(self).nodes@[0].mtime == old(self).nodes@[0].mtime,
            forall|j: int| 0 < j < old(self).nodes@.len() ==> final(self).nodes@[j] == old(self).nodes@[j],
    {
        let ghost n0 = self.nodes@;
        proof {
            lemma_size_le_root(n0, 0);
            assert(n0[0].own <= n0[0].size) by {
                lemma_own_le_sum(n0, 0, n0.len() as int);
            }
        }
        let r = self.root as usize;
        self.nodes[r].own = self.nodes[r].own + own;
        self.nodes[r].size = self.nodes[r].size + own;
        proof {
            let n2 = self.nodes@;
            assert forall|a: int| 0 <= a < n2.len() implies (#[trigger] n2[a].size) == subtree_size(n2, a)
                && n2[a].files == subtree_files(n2, a) by {
                lemma_sum_own_bump(n0, n2, a, n0.len() as int, 0, own as int);
                if a != 0 && is_anc(n0, a, 0) {
                    lemma_anc_le(n0, a, 0);
                }
            }
            assert(shape_ok(n2)) by {
                assert forall|i: int, k: int|
                    0 <= i < n2.len() && 0 <= k < n2[i].children@.len() implies {
                        let c = #[trigger] n2[i].children@[k];
                        &&& 0 < c < n2.len()
                        &&& n2[c as int].parent == Some(i as u32)
                    } by {
                    assert(n2[i].children == n0[i].children);
                    let c = n0[i].children@[k];
                    assert(n2[c as int].parent == n0[c as int].parent);
                }
                assert forall|j: int| 1 <= j < n2.len() implies n2[(#[trigger] n2[j].parent)->0 as int].children@.contains(j as u32) by {
                    assert(n2[j].parent == n0[j].parent);
                    let q = n0[j].parent->0 as int;
                    assert(n2[q].children == n0[q].children);
                }
            }
        }
    }

    /// Attach a child and propagate its size/file count through all ancestors.
    pub fn add(&mut self, parent: NodeId, name: String, is_dir: bool, own: u64, mtime: i64) -> (id: NodeId)
        requires
            old(self).wf(),
            (parent as int) < old(self).nodes@.len(),
            old(self).nodes@.len() < u32::MAX,
            old(self).nodes@[0].size + own <= u64::MAX,
            !is_dir ==> old(self).nodes@[0].files + 1 <= u64::MAX,
        ensures
            final(self).wf(),
            id as int == old(self).nodes@.len(),
            final(self).nodes@.len() == old(self).nodes@.len() + 1,
            final(self).nodes@[id as int].name == name,
            final(self).nodes@[id as int].parent == Some(parent),
            final(self).nodes@[id as int].children@.len() == 0,
            final(self).nodes@[id as int].own == own,
            final(self).nodes@[id as int].size == own,
            final(self).nodes@[id as int].files == if is_dir { 0u64 } else { 1u64 },
            final(self).nodes@[id as int].is_dir == is_dir,
            final(self).nodes@[id as int].mtime == mtime,
            forall|j: int|
                0 <= j < old(self).nodes@.len() ==> {
                    let o = #[trigger] old(self).nodes@[j];
                    let n = final(self).nodes@[j];
                    &&& n.name == o.name
                    &&& n.parent == o.parent
                    &&& n.own == o.own
                    &&& n.is_dir == o.is_dir
                    &&& n.mtime == o.mtime
                    &&& n.children@ == if j == parent as int { o.children@.push(id) } else { o.children@ }
                    &&& n.size == o.size + if is_anc(old(self).nodes@, j, parent as int) { own as int } else { 0 }
                    &&& n.files == o.files + if is_anc(old(self).nodes@, j, parent as int) && !is_dir { 1int } else { 0 }
                },
    {
        let ghost n0 = self.nodes@;
        let ghost len0 = n0.len() as int;
        let ghost p = parent as int;
        proof {
            assert forall|a: int| 0 <= a < len0 implies n0[a].size + own <= u64::MAX && (!is_dir ==> n0[a].files + 1 <= u64::MAX) by {
                lemma_size_le_root(n0, a);
            }
        }
        let id = self.nodes.len() as NodeId;
        let f: u64 = if is_dir { 0 } else { 1 };
        self.nodes.push(Node {
            name,
            parent: Some(parent),
            children: Vec::new(),
            own,
            size: own,
            files: f,
            is_dir,
            mtime,
        });
        self.nodes[parent as usize].children.push(id);
        let ghost n1 = self.nodes@;
        let mut cur: Option<NodeId> = Some(parent);
        while cur.is_some()
            invariant
                self.root == 0,
                shape_ok(n0),
                n0.len() == len0,
                0 <= p < len0,
                id as int == len0,
                self.nodes@.len() == len0 + 1,
                f == if is_dir { 0u64 } else { 1u64 },
                forall|a: int| 0 <= a < len0 ==> n0[a].size + own <= u64::MAX && n0[a].files + f <= u64::MAX,
                forall|k: int|
                    0 <= k <= len0 ==> {
                        let x = #[trigger] self.nodes@[k];
                        let y = n1[k];
                        &&& x.name == y.name
                        &&& x.parent == y.parent
                        &&& x.children == y.children
                        &&& x.own == y.own
                        &&& x.is_dir == y.is_dir
                        &&& x.mtime == y.mtime
                    },
                forall|k: int| 0 <= k < len0 ==> n1[k].parent == n0[k].parent,
                self.nodes@[len0].size == own,
                self.nodes@[len0].files == f,
                cur matches Some(c) ==> (c as int) < len0 && is_anc(n0, c as int, p),
                forall|a: int|
                    0 <= a < len0 ==> {
                        let upd = is_anc(n0, a, p) && (cur matches Some(c) ==> !is_anc(n0, a, c as int));
                        &&& (#[trigger] self.nodes@[a]).size == n0[a].size + if upd { own as int } else { 0 }
                        &&& self.nodes@[a].files == n0[a].files + if upd { f as int } else { 0 }
                    },
            decreases
                match cur {
                    Some(c) => c as int + 1,
                    None => 0,
                },
        {
            let c = cur.unwrap();
            let ghost ci = c as int;
            proof {
                assert(is_anc(n0, ci, ci));
            }
            let ghost before = self.nodes@;
            self.nodes[c as usize].size = self.nodes[c as usize].size + own;
            self.nodes[c as usize].files = self.nodes[c as usize].files + f;
            cur = self.nodes[c as usize].parent;
            proof {
                assert(self.nodes@[ci].parent == n0[ci].parent);
                match cur {
                    Some(q) => {
                        assert(ci != 0);
                        assert((q as int) < ci);
                        assert(is_anc(n0, q as int, q as int));
                        assert(is_anc(n0, q as int, ci));
                        lemma_anc_trans(n0, q as int, ci, p);
                        assert forall|a: int| 0 <= a < len0 implies
                            (is_anc(n0, a, p) && !is_anc(n0, a, q as int)) == (
                                (is_anc(n0, a, p) && !is_anc(n0, a, ci)) || a == ci) by {
                            if a == ci && is_anc(n0, a, q as int) {
                                lemma_anc_le(n0, a, q as int);
                            }
                        }
                    },
                    None => {
                        assert(ci == 0);
                        lemma_root_anc(n0, p);
                        assert forall|a: int| 0 <= a < len0 implies
                            is_anc(n0, a, p) == ((is_anc(n0, a, p) && !is_anc(n0, a, ci)) || a == ci) by {
                            if is_anc(n0, a, ci) {
                                lemma_anc_le(n0, a, ci);
                            }
                        }
                    },
                }
                assert forall|k: int| 0 <= k <= len0 && k != ci implies #[trigger] self.nodes@[k] == before[k] by {}
            }
        }
        proof {
            let n2 = self.nodes@;
            assert forall|m: int| 0 <= m < len0 implies {
                &&& (#[trigger] n2[m]).parent == n0[m].parent
                &&& n2[m].own == n0[m].own
                &&& n2[m].is_dir == n0[m].is_dir
                &&& n2[m].children@ == if m == p { n0[m].children@.push(len0 as u32) } else { n0[m].children@ }
            } by {
                assert(n2[m].parent == n1[m].parent);
            }
            lemma_add_keeps_wf(n0, n2, p, own, is_dir);
        }
        id
    }

    /// Attach the next entry of a depth-first walk: it hangs below the last
    /// directory seen at `depth - 1` (`stack` holds the open directories, the
    /// root's children at depth 1), and a directory becomes the new one at
    /// its depth.
    pub fn attach(
        &mut self,
        stack: &mut Vec<NodeId>,
        depth: usize,
        name: String,
        is_dir: bool,
        own: u64,
        mtime: i64,
    ) -> (id: NodeId)
        requires
            old(self).wf(),
            forall|i: int| 0 <= i < old(stack)@.len() ==> (#[trigger] old(stack)@[i] as int) < old(self).nodes@.len(),
            old(self).nodes@.len() < u32::MAX,
            old(self).nodes@[0].size + own <= u64::MAX,
            !is_dir ==> old(self).nodes@[0].files + 1 <= u64::MAX,
        ensures
            ({
                let kept = if depth < old(stack)@.len() { old(stack)@.take(depth as int) } else { old(stack)@ };
                let parent: NodeId = if kept.len() > 0 { kept.last() } else { 0 };
                &&& final(self).wf()
                &&& id as int == old(self).nodes@.len()
                &&& final(self).nodes@.len() == old(self).nodes@.len() + 1
                &&& final(self).nodes@[id as int].parent == Some(parent)
                &&& final(self).nodes@[id as int].name == name
                &&& final(self).nodes@[id as int].own == own
                &&& final(self).nodes@[id as int].is_dir == is_dir
                &&& final(self).nodes@[id as int].mtime == mtime
                &&& final(self).nodes@[id as int].children@.len() == 0
                &&& forall|j: int|
                    0 <= j < old(self).nodes@.len() ==> {
                        let o = #[trigger] old(self).nodes@[j];
                        let m = final(self).nodes@[j];
                        &&& m.name == o.name
                        &&& m.parent == o.parent
                        &&& m.own == o.own
                        &&& m.is_dir == o.is_dir
                        &&& m.mtime == o.mtime
                        &&& m.children@ == if j == parent as int { o.children@.push(id) } else { o.children@ }
                    }
                &&& final(stack)@ == if is_dir { kept.push(id) } else { kept }
                &&& forall|i: int| 0 <= i < final(stack)@.len() ==> (#[trigger] final(stack)@[i] as int) < final(self).nodes@.len()
            }),
    {
        if depth < stack.len() {
            stack.truncate(depth);
        }
        let parent: NodeId = if stack.len() > 0 { stack[stack.len() - 1] } else { 0 };
        let id = self.add(parent, name, is_dir, own, mtime);
        if is_dir {
            stack.push(id);
        }
        id
    }

    pub fn basename(&self, id: NodeId) -> (r: &str)
        requires
            (id as int) < self.nodes@.len(),
        ensures
            r@ == self.nodes@[id as int].name@,
    {
        self.nodes[id as usize].name.as_str()
    }

    /// Names from the root down to `id`, joined by `/`.
    pub fn path_string(&self, id: NodeId) -> (r: String)
        requires
            self.wf(),
            (id as int) < self.nodes@.len(),
        ensures
            r@ == path_of(self.nodes@, id as int),
    {
        let ghost n = self.nodes@;
        // Walk up to the root, remembering every node on the way.
        let mut chain: Vec<NodeId> = Vec::new();
        let mut cur: Option<NodeId> = Some(id);
        while cur.is_some()
            invariant
                n == self.nodes@,
                shape_ok(n),
                cur matches Some(c) ==> (c as int) < n.len(),
                chain@.len() == 0 ==> cur == Some(id),
                chain@.len() > 0 ==> chain@[0] == id && n[chain@.last() as int].parent == cur,
                forall|k: int| 0 <= k < chain@.len() ==> (#[trigger] chain@[k] as int) < n.len(),
                forall|k: int| 0 <= k < chain@.len() - 1 ==> n[chain@[k] as int].parent == Some(#[trigger] chain@[k + 1]),
            decreases
                match cur {
                    Some(c) => c as int + 1,
                    None => 0,
                },
        {
            let c = cur.unwrap();
            chain.push(c);
            cur = self.nodes[c as usize].parent;
            proof {
                if c != 0 {
                    assert(n[c as int].parent->0 < c);
                }
            }
        }
        // Rebuild the path from the root end of the chain.
        let mut out = String::new();
        let mut k = chain.len();
        proof {
            assert(n[chain@[k - 1] as int].parent is None);
        }
        while k > 0
            invariant
                n == self.nodes@,
                shape_ok(n),
                0 <= k <= chain@.len(),
                chain@.len() > 0,
                chain@[0] == id,
                n[chain@.last() as int].parent is None,
                forall|m: int| 0 <= m < chain@.len() ==> (#[trigger] chain@[m] as int) < n.len(),
                forall|m: int| 0 <= m < chain@.len() - 1 ==> n[chain@[m] as int].parent == Some(#[trigger] chain@[m + 1]),
                k < chain@.len() ==> out@ == path_of(n, chain@[k as int] as int),
                k == chain@.len() ==> out@.len() == 0,
            decreases k,
        {
            k = k - 1;
            let c = chain[k];
            if k + 1 < chain.len() {
                out.append("/");
                proof {
                    reveal_strlit("/");
                    let q = chain@[k + 1];
                    assert(n[c as int].parent == Some(q));
                    if c == 0 {
                        assert(false);
                    }
                    assert(n[c as int].parent->0 < c);
                }
            }
            out.append(self.nodes[c as usize].name.as_str());
        }
        out
    }

    /// The `limit` biggest children plus an aggregate of the remainder.
    /// Returns `(children, Some((rest_size, rest_count, rest_files)))`.
    #[verifier::spinoff_prover]
    #[verifier::rlimit(30)]
    pub fn top_children(&self, id: NodeId, limit: usize) -> (r: (Vec<NodeId>, Option<(u64, u64, u64)>))
        requires
            self.wf(),
            (id as int) < self.nodes@.len(),
        ensures
            ({
                let n = self.nodes@;
                let ids = nonempty(n, n[id as int].children@);
                let top = r.0@;
                &&& top == if limit == 0 || ids.len() <= limit {
                    sorted_ids(n, ids)
                } else {
                    sorted_ids(n, ids).take(limit as int)
                }
                &&& top.no_duplicates()
                &&& sorted_by_size(n, top)
                &&& forall|x: NodeId| top.contains(x) ==> ids.contains(x)
                &&& if limit == 0 || ids.len() <= limit {
                    top.len() == ids.len() && r.1 is None
                } else {
                    &&& top.len() == limit
                    &&& forall|x: NodeId|
                        ids.contains(x) && !top.contains(x) ==> n[x as int].size <= n[top.last() as int].size
                    &&& r.1 matches Some((rest_size, rest_count, rest_files)) && {
                        &&& rest_size == sizes_total(n, ids) - sizes_total(n, top)
                        &&& rest_count == ids.len() - limit
                        &&& rest_files == files_total(n, ids) - files_total(n, top)
                    }
                }
            }),
    {
        let ghost n = self.nodes@;
        let ghost a = id as int;
        let ch = &self.nodes[id as usize].children;
        let ghost chs = ch@;
        let mut ids: Vec<NodeId> = Vec::new();
        let mut i: usize = 0;
        while i < ch.len()
            invariant
                n == self.nodes@,
                shape_ok(n),
                0 <= a < n.len(),
                chs == n[a].children@,
                ch@ == chs,
                0 <= i <= chs.len(),
                ids@ == nonempty(n, chs.take(i as int)),
            decreases chs.len() - i,
        {
            let c = ch[i];
            proof {
                assert(chs.take(i as int + 1).drop_last() =~= chs.take(i as int));
                assert(chs.take(i as int + 1).last() == c);
            }
            if self.nodes[c as usize].size > 0 {
                ids.push(c);
            }
            i = i + 1;
        }
        proof {
            assert(chs.take(chs.len() as int) =~= chs);
            lemma_nonempty_sub(n, chs);
            assert forall|k: int| 0 <= k < ids@.len() implies (#[trigger] ids@[k] as int) < n.len() by {
                assert(chs.contains(ids@[k]));
            }
        }
        let ghost idv = ids@;
        let mut s = sort_by_size(&self.nodes, &ids);
        proof {
            assert forall|k: int| 0 <= k < s@.len() implies 0 < #[trigger] s@[k] < n.len() && n[s@[k] as int].parent == Some(a as u32) by {
                assert(s@.contains(s@[k]));
                assert(idv.contains(s@[k]));
                assert(chs.contains(s@[k]));
                let q = choose|q: int| 0 <= q < chs.len() && chs[q] == s@[k];
                assert(n[a].children@[q] == s@[k]);
            }
            assert(sibling_set(n, a, s@));
            lemma_siblings_total(n, a, s@);
        }
        if limit == 0 || s.len() <= limit {
            return (s, None);
        }
        let mut rest_size: u64 = 0;
        let mut rest_files: u64 = 0;
        let mut k: usize = limit;
        while k < s.len()
            invariant
                n == self.nodes@,
                limit <= k <= s@.len(),
                forall|m: int| 0 <= m < s@.len() ==> (#[trigger] s@[m] as int) < n.len(),
                sizes_total(n, s@) <= u64::MAX,
                files_total(n, s@) <= u64::MAX,
                rest_size == sizes_total(n, s@.subrange(limit as int, k as int)),
                rest_files == files_total(n, s@.subrange(limit as int, k as int)),
            decreases s@.len() - k,
        {
            proof {
                assert(s@.subrange(limit as int, k as int + 1).drop_last() =~= s@.subrange(limit as int, k as int));
                lemma_totals_subrange(n, s@, limit as int, k as int + 1);
            }
            let c = s[k];
            rest_size = rest_size + self.nodes[c as usize].size;
            rest_files = rest_files + self.nodes[c as usize].files;
            k = k + 1;
        }
        let rest_count = (s.len() - limit) as u64;
        let ghost full = s@;
        s.truncate(limit);
        proof {
            let top = s@;
            assert(full =~= top + full.subrange(limit as int, full.len() as int));
            lemma_totals_concat(n, top, full.subrange(limit as int, full.len() as int));
            assert forall|i: int, j: int| 0 <= i < top.len() && 0 <= j < top.len() && i != j implies top[i] != top[j] by {
                assert(top[i] == full[i] && top[j] == full[j]);
            }
            assert forall|x: NodeId| top.contains(x) implies idv.contains(x) by {
                let j = choose|j: int| 0 <= j < top.len() && top[j] == x;
                assert(full[j] == x);
                assert(full.contains(x));
            }
            assert forall|x: NodeId| idv.contains(x) && !top.contains(x) implies n[x as int].size <= n[top.last() as int].size by {
                assert(full.contains(x));
                let j = choose|j: int| 0 <= j < full.len() && full[j] == x;
                if j < limit {
                    assert(top[j] == x);
                }
                assert(top.last() == full[limit - 1]);
            }
        }
        (s, Some((rest_size, rest_count, rest_files)))
    }
}


// ---------------------------------------------------------------------------
// Laws of the tree.

proof fn lemma_anc_count_pos(n: Seq<Node>, l: Seq<NodeId>, i: int, m: int)
    requires
        0 <= i < l.len(),
        is_anc(n, l[i] as int, m),
    ensures
        anc_count(n, l, m) >= 1,
    decreases l.len(),
{
    lemma_anc_count_nonneg(n, l.drop_last(), m);
    if i < l.len() - 1 {
        assert(l.drop_last()[i] == l[i]);
        lemma_anc_count_pos(n, l.drop_last(), i, m);
    } else {
        assert(l[l.len() - 1] == l.last());
    }
}

proof fn lemma_anc_count_nonneg(n: Seq<Node>, l: Seq<NodeId>, m: int)
    ensures
        anc_count(n, l, m) >= 0,
    decreases l.len(),
{
    if l.len() > 0 {
        lemma_anc_count_nonneg(n, l.drop_last(), m);
    }
}

/// Every proper descendant of `a` lies below one of `a`'s children.
proof fn lemma_child_on_path(n: Seq<Node>, a: int, m: int)
    requires
        shape_ok(n),
        0 <= a < n.len(),
        0 <= m < n.len(),
        is_anc(n, a, m),
        m != a,
    ensures
        exists|i: int| 0 <= i < n[a].children@.len() && is_anc(n, #[trigger] n[a].children@[i] as int, m),
    decreases m,
{
    let p = n[m].parent->0 as int;
    assert(m >= 1);
    assert(is_anc(n, a, p));
    if p == a {
        assert(n[a].children@.contains(m as u32));
        let i = choose|i: int| 0 <= i < n[a].children@.len() && n[a].children@[i] == m as u32;
        assert(is_anc(n, n[a].children@[i] as int, m));
    } else {
        lemma_child_on_path(n, a, p);
        let i = choose|i: int| 0 <= i < n[a].children@.len() && is_anc(n, #[trigger] n[a].children@[i] as int, p);
        assert(is_anc(n, n[a].children@[i] as int, m));
    }
}

proof fn lemma_children_siblings(n: Seq<Node>, a: int)
    requires
        shape_ok(n),
        0 <= a < n.len(),
    ensures
        sibling_set(n, a, n[a].children@),
{
    let l = n[a].children@;
    assert forall|i: int| 0 <= i < l.len() implies 0 < #[trigger] l[i] < n.len() && n[l[i] as int].parent == Some(a as u32) by {
        let c = n[a].children@[i];
    }
    assert forall|i: int, j: int| 0 <= i < l.len() && 0 <= j < l.len() && i != j implies l[i] != l[j] by {
        if i < j {
            assert(n[a].children@[i] < n[a].children@[j]);
        } else {
            assert(n[a].children@[j] < n[a].children@[i]);
        }
    }
}

/// The subtree of `a` below index `k` is `a` itself plus the subtrees of its children.
proof fn lemma_children_exact(n: Seq<Node>, a: int, k: int)
    requires
        shape_ok(n),
        0 <= a < n.len(),
        0 <= k <= n.len(),
    ensures
        sum_own(n, a, k) == own_over(n, n[a].children@, k) + if a < k { n[a].own as int } else { 0 },
        sum_files(n, a, k) == files_over(n, n[a].children@, k) + if a < k && !n[a].is_dir { 1int } else { 0 },
    decreases k,
{
    let l = n[a].children@;
    if k == 0 {
        lemma_over_zero(n, l);
    } else {
        lemma_children_exact(n, a, k - 1);
        lemma_over_step(n, l, k);
        let m = k - 1;
        lemma_children_siblings(n, a);
        lemma_anc_count(n, a, l, m);
        if is_anc(n, a, m) && m != a {
            lemma_child_on_path(n, a, m);
            let i = choose|i: int| 0 <= i < l.len() && is_anc(n, #[trigger] l[i] as int, m);
            lemma_anc_count_pos(n, l, i, m);
        }
        if m == a && anc_count(n, l, m) > 0 {
            let i = choose|i: int| 0 <= i < l.len() && is_anc(n, #[trigger] l[i] as int, m);
            lemma_anc_le(n, l[i] as int, m);
            assert(n[l[i] as int].parent == Some(a as u32));
        }
        let c = anc_count(n, l, m);
        assert(c == 0 || c == 1);
        assert(c * (n[m].own as int) == if c == 1 { n[m].own as int } else { 0 });
    }
}

/// A directory holds its own bytes plus exactly what its children hold, and
/// counts the files of its children (plus itself when it is a file).
pub proof fn law_size_is_own_plus_children(arena: &Arena, a: int)
    requires
        arena.wf(),
        0 <= a < arena.nodes@.len(),
    ensures
        arena.nodes@[a].size == arena.nodes@[a].own + sizes_total(arena.nodes@, arena.nodes@[a].children@),
        arena.nodes@[a].files == (if arena.nodes@[a].is_dir { 0int } else { 1 }) + files_total(
            arena.nodes@,
            arena.nodes@[a].children@,
        ),
{
    let n = arena.nodes@;
    lemma_children_exact(n, a, n.len() as int);
    let l = n[a].children@;
    assert forall|i: int| 0 <= i < l.len() implies 0 <= #[trigger] l[i] < n.len() by {
        let c = n[a].children@[i];
    }
    lemma_over_is_totals(n, l);
    assert(n[a].size == subtree_size(n, a));
}

/// Bytes of all nodes below index `k`.
pub open spec fn all_own(n: Seq<Node>, k: int) -> int
    decreases k,
{
    if k <= 0 {
        0
    } else {
        all_own(n, k - 1) + n[k - 1].own as int
    }
}

/// The root holds every byte in the tree.
pub proof fn law_root_holds_everything(arena: &Arena)
    requires
        arena.wf(),
    ensures
        arena.nodes@[0].size == all_own(arena.nodes@, arena.nodes@.len() as int),
{
    let n = arena.nodes@;
    lemma_root_sum(n, n.len() as int);
}

proof fn lemma_root_sum(n: Seq<Node>, k: int)
    requires
        shape_ok(n),
        0 <= k <= n.len(),
    ensures
        sum_own(n, 0, k) == all_own(n, k),
    decreases k,
{
    if k > 0 {
        lemma_root_sum(n, k - 1);
        lemma_root_anc(n, k - 1);
    }
}

} // verus!
