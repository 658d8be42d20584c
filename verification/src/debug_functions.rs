//! Read access over the tree's shape for external rendering, and the
//! structural comparison of two trees.

use vstd::arithmetic::power2::pow2;
use vstd::prelude::*;

use crate::hash_structures::bit_of;
use crate::treenode::TreeNode;
use crate::MerkleTree;

verus! {

/// Whether two nodes have the same shape: the same arrangement of present
/// and absent children, all the way down.
pub open spec fn shape_eq(x: TreeNode, y: TreeNode) -> bool
    decreases x,
{
    match (x, y) {
        (TreeNode::Leaf { .. }, TreeNode::Leaf { .. }) => true,
        (
            TreeNode::Inner { left: la, right: ra, .. },
            TreeNode::Inner { left: lb, right: rb, .. },
        ) => opt_shape_eq(la, lb) && opt_shape_eq(ra, rb),
        _ => false,
    }
}

/// Shape comparison of two child slots.
pub open spec fn opt_shape_eq(a: Option<Box<TreeNode>>, b: Option<Box<TreeNode>>) -> bool
    decreases a,
{
    match (a, b) {
        (Option::Some(x), Option::Some(y)) => shape_eq(*x, *y),
        (Option::None, Option::None) => true,
        _ => false,
    }
}

/// Whether two trees have the same shape.
pub closed spec fn spec_same_structure(tree1: MerkleTree, tree2: MerkleTree) -> bool {
    match (tree1.root, tree2.root) {
        (Option::Some(x), Option::Some(y)) => shape_eq(x, y),
        (Option::None, Option::None) => true,
        _ => false,
    }
}


/// The content of a well-formed subtree — which keys it holds and with
/// which counters — determines its effective digest and its shape, whatever
/// the order of the insertions that built it.
pub proof fn lemma_content_determines(a: TreeNode, b: TreeNode, level: nat)
    requires
        a.wf(level),
        b.wf(level),
        forall|k: Seq<u8>| a.count_of(k) == b.count_of(k),
    ensures
        a.eff() == b.eff(),
        shape_eq(a, b),
    decreases a,
{
    match (a, b) {
        (
            TreeNode::Leaf { key: ka, count: ca, version_hash: va },
            TreeNode::Leaf { key: kb, count: cb, version_hash: vb },
        ) => {
            assert(a.count_of(ka@) == ca as int);
            assert(b.count_of(ka@) >= 1);
            assert(kb@ == ka@);
            assert(cb as int == ca as int);
            assert(va@ == vb@);
        },
        (TreeNode::Leaf { key: ka, .. }, TreeNode::Inner { .. }) => {
            crate::treenode::lemma_two_keys(b, level);
            let (k1, k2) = choose|k1: Seq<u8>, k2: Seq<u8>|
                k1 != k2 && b.count_of(k1) >= 1 && b.count_of(k2) >= 1;
            assert(a.count_of(k1) >= 1);
            assert(a.count_of(k2) >= 1);
            assert(k1 == ka@ && k2 == ka@);
            assert(false);
        },
        (TreeNode::Inner { .. }, TreeNode::Leaf { key: kb, .. }) => {
            crate::treenode::lemma_two_keys(a, level);
            let (k1, k2) = choose|k1: Seq<u8>, k2: Seq<u8>|
                k1 != k2 && a.count_of(k1) >= 1 && a.count_of(k2) >= 1;
            assert(b.count_of(k1) >= 1);
            assert(b.count_of(k2) >= 1);
            assert(k1 == kb@ && k2 == kb@);
            assert(false);
        },
        (
            TreeNode::Inner { aggregate: ga, left: la, right: ra },
            TreeNode::Inner { aggregate: gb, left: lb, right: rb },
        ) => {
            assert forall|k: Seq<u8>| TreeNode::opt_count(la, k) == TreeNode::opt_count(lb, k)
                && TreeNode::opt_count(ra, k) == TreeNode::opt_count(rb, k) by {
                crate::hash_structures::lemma_bit_01(k, level as int);
                crate::treenode::lemma_opt_count_nonneg(la, k, level + 1);
                crate::treenode::lemma_opt_count_nonneg(ra, k, level + 1);
                crate::treenode::lemma_opt_count_nonneg(lb, k, level + 1);
                crate::treenode::lemma_opt_count_nonneg(rb, k, level + 1);
                assert(a.count_of(k) == TreeNode::opt_count(la, k) + TreeNode::opt_count(ra, k));
                assert(b.count_of(k) == TreeNode::opt_count(lb, k) + TreeNode::opt_count(rb, k));
                if bit_of(k, level as int) == 0 {
                    assert(TreeNode::opt_count(ra, k) == 0);
                    assert(TreeNode::opt_count(rb, k) == 0);
                } else {
                    assert(TreeNode::opt_count(la, k) == 0);
                    assert(TreeNode::opt_count(lb, k) == 0);
                }
            }
            match (la, lb) {
                (Option::Some(x), Option::Some(y)) => {
                    assert forall|k: Seq<u8>| x.count_of(k) == y.count_of(k) by {
                        assert(TreeNode::opt_count(la, k) == TreeNode::opt_count(lb, k));
                    }
                    lemma_content_determines(*x, *y, level + 1);
                    assert(opt_shape_eq(la, lb));
                },
                (Option::Some(x), Option::None) => {
                    crate::treenode::lemma_nonempty(*x, level + 1);
                    let k = choose|k: Seq<u8>| x.count_of(k) >= 1;
                    assert(TreeNode::opt_count(la, k) >= 1);
                    assert(TreeNode::opt_count(lb, k) == 0);
                    assert(false);
                },
                (Option::None, Option::Some(y)) => {
                    crate::treenode::lemma_nonempty(*y, level + 1);
                    let k = choose|k: Seq<u8>| y.count_of(k) >= 1;
                    assert(TreeNode::opt_count(lb, k) >= 1);
                    assert(TreeNode::opt_count(la, k) == 0);
                    assert(false);
                },
                (Option::None, Option::None) => {
                    assert(opt_shape_eq(la, lb));
                },
            }
            match (ra, rb) {
                (Option::Some(x), Option::Some(y)) => {
                    assert forall|k: Seq<u8>| x.count_of(k) == y.count_of(k) by {
                        assert(TreeNode::opt_count(ra, k) == TreeNode::opt_count(rb, k));
                    }
                    lemma_content_determines(*x, *y, level + 1);
                    assert(opt_shape_eq(ra, rb));
                },
                (Option::Some(x), Option::None) => {
                    crate::treenode::lemma_nonempty(*x, level + 1);
                    let k = choose|k: Seq<u8>| x.count_of(k) >= 1;
                    assert(TreeNode::opt_count(ra, k) >= 1);
                    assert(TreeNode::opt_count(rb, k) == 0);
                    assert(false);
                },
                (Option::None, Option::Some(y)) => {
                    crate::treenode::lemma_nonempty(*y, level + 1);
                    let k = choose|k: Seq<u8>| y.count_of(k) >= 1;
                    assert(TreeNode::opt_count(rb, k) >= 1);
                    assert(TreeNode::opt_count(ra, k) == 0);
                    assert(false);
                },
                (Option::None, Option::None) => {
                    assert(opt_shape_eq(ra, rb));
                },
            }
            assert(TreeNode::opt_eff(la) == TreeNode::opt_eff(lb));
            assert(TreeNode::opt_eff(ra) == TreeNode::opt_eff(rb));
            assert(ga@ == gb@);
            assert(shape_eq(a, b));
        },
    }
}


/// Shape equality of the roots gives shape equality of the trees.
pub(crate) proof fn lemma_same_structure_roots(a: MerkleTree, b: MerkleTree)
    requires
        match (a.root, b.root) {
            (Option::Some(x), Option::Some(y)) => shape_eq(x, y),
            (Option::None, Option::None) => true,
            _ => false,
        },
    ensures
        spec_same_structure(a, b),
{
}

fn same_structure_hashnodes(x: &TreeNode, y: &TreeNode) -> (r: bool)
    ensures
        r == shape_eq(*x, *y),
    decreases *x,
{
    match (x, y) {
        (TreeNode::Leaf { .. }, TreeNode::Leaf { .. }) => true,
        (
            TreeNode::Inner { left: la, right: ra, .. },
            TreeNode::Inner { left: lb, right: rb, .. },
        ) => {
            let l_ok = match (la, lb) {
                (Option::Some(c1), Option::Some(c2)) => same_structure_hashnodes(c1, c2),
                (Option::None, Option::None) => true,
                _ => false,
            };
            if !l_ok {
                return false;
            }
            match (ra, rb) {
                (Option::Some(c1), Option::Some(c2)) => same_structure_hashnodes(c1, c2),
                (Option::None, Option::None) => true,
                _ => false,
            }
        },
        _ => false,
    }
}

/// Whether two trees arrange their nodes identically.
pub fn same_structure(tree1: &MerkleTree, tree2: &MerkleTree) -> (r: bool)
    ensures
        r == spec_same_structure(*tree1, *tree2),
{
    match (&tree1.root, &tree2.root) {
        (Option::Some(x), Option::Some(y)) => same_structure_hashnodes(x, y),
        (Option::None, Option::None) => true,
        _ => false,
    }
}


proof fn lemma_pow2_bound(e: nat)
    requires
        e <= 30,
    ensures
        pow2(e) <= 0x40000000,
{
    vstd::arithmetic::power2::lemma2_to64();
    if e < 30 {
        vstd::arithmetic::power2::lemma_pow2_strictly_increases(e, 30);
    }
}

/// The depth of a subtree: one at a leaf, one more than the deeper child at
/// an inner node.
pub open spec fn spec_depth(n: TreeNode) -> nat
    decreases n,
{
    match n {
        TreeNode::Leaf { .. } => 1,
        TreeNode::Inner { left, right, .. } => {
            let dl = opt_depth(left);
            let dr = opt_depth(right);
            1 + if dl >= dr {
                dl
            } else {
                dr
            }
        },
    }
}

pub open spec fn opt_depth(o: Option<Box<TreeNode>>) -> nat
    decreases o,
{
    match o {
        Option::Some(n) => spec_depth(*n),
        Option::None => 0,
    }
}

/// A well-formed subtree at `level` is at most `257 - level` deep.
pub proof fn lemma_depth_bound(n: TreeNode, level: nat)
    requires
        n.wf(level),
    ensures
        spec_depth(n) + level <= 257,
    decreases n,
{
    match n {
        TreeNode::Leaf { .. } => {},
        TreeNode::Inner { left, right, .. } => {
            match left {
                Option::Some(l) => lemma_depth_bound(*l, level + 1),
                Option::None => {},
            }
            match right {
                Option::Some(r) => lemma_depth_bound(*r, level + 1),
                Option::None => {},
            }
        },
    }
}

/// The breadth-first grid of an absent subtree rendered `d` rows deep:
/// row `j` holds two-to-the-`j` placeholders.
pub open spec fn empty_rows(d: nat) -> Seq<Seq<Option<i32>>> {
    Seq::new(d, |j: int| Seq::new(pow2(j as nat), |i: int| Option::<i32>::None))
}

/// Rows of equal length zipped by concatenation.
pub open spec fn merge_rows(x: Seq<Seq<Option<i32>>>, y: Seq<Seq<Option<i32>>>) -> Seq<
    Seq<Option<i32>>,
> {
    Seq::new(x.len(), |i: int| x[i] + y[i])
}

/// The breadth-first grid of a subtree rendered `d` rows deep: a present
/// node at the top, the children's grids side by side below it.
pub open spec fn spec_rows(n: TreeNode, d: nat) -> Seq<Seq<Option<i32>>>
    decreases n,
{
    if d <= 1 {
        seq![seq![Some(1i32)]]
    } else {
        let sub = match n {
            TreeNode::Leaf { .. } => merge_rows(
                empty_rows((d - 1) as nat),
                empty_rows((d - 1) as nat),
            ),
            TreeNode::Inner { left, right, .. } => merge_rows(
                opt_rows(left, (d - 1) as nat),
                opt_rows(right, (d - 1) as nat),
            ),
        };
        seq![seq![Some(1i32)]] + sub
    }
}

pub open spec fn opt_rows(o: Option<Box<TreeNode>>, d: nat) -> Seq<Seq<Option<i32>>>
    decreases o,
{
    match o {
        Option::Some(n) => spec_rows(*n, d),
        Option::None => empty_rows(d),
    }
}

impl TreeNode {
    /// The depth of this subtree: the longest chain of nodes from here down.
    pub fn depth(&self) -> (r: usize)
        requires
            exists|lv: nat| self.wf(lv),
        ensures
            r == spec_depth(*self),
        decreases *self,
    {
        proof {
            let lv = choose|lv: nat| self.wf(lv);
            lemma_depth_bound(*self, lv);
        }
        match self {
            TreeNode::Leaf { .. } => 1,
            TreeNode::Inner { left, right, .. } => {
                proof {
                    let lv = choose|lv: nat| self.wf(lv);
                    assert(TreeNode::opt_wf(*left, lv + 1));
                    assert(TreeNode::opt_wf(*right, lv + 1));
                    match left {
                        Option::Some(node) => {
                            assert(node.wf(lv + 1));
                        },
                        Option::None => {},
                    }
                    match right {
                        Option::Some(node) => {
                            assert(node.wf(lv + 1));
                        },
                        Option::None => {},
                    }
                }
                let dl: usize = match left {
                    Option::Some(node) => node.depth(),
                    Option::None => 0,
                };
                let dr: usize = match right {
                    Option::Some(node) => node.depth(),
                    Option::None => 0,
                };
                let m = if dl >= dr {
                    dl
                } else {
                    dr
                };
                m + 1
            },
        }
    }
}

/// The rows a grid holds, as sequences.
pub open spec fn rows_view(v: Vec<Vec<Option<i32>>>) -> Seq<Seq<Option<i32>>> {
    v@.map_values(|row: Vec<Option<i32>>| row@)
}

/// A fresh copy of one grid row.
fn copy_row(src: &Vec<Option<i32>>) -> (r: Vec<Option<i32>>)
    ensures
        r@ == src@,
{
    let mut r: Vec<Option<i32>> = Vec::new();
    let mut i: usize = 0;
    while i < src.len()
        invariant
            i <= src.len(),
            r@ == src@.subrange(0, i as int),
        decreases src.len() - i,
    {
        r.push(src[i]);
        i = i + 1;
        proof {
            assert(r@ =~= src@.subrange(0, i as int));
        }
    }
    proof {
        assert(r@ =~= src@);
    }
    r
}

/// A grid of `d` placeholder rows for an absent subtree.
fn empty_rows_vec(d: usize) -> (r: Vec<Vec<Option<i32>>>)
    requires
        d <= 31,
    ensures
        rows_view(r) == empty_rows(d as nat),
{
    let mut rows: Vec<Vec<Option<i32>>> = Vec::new();
    let mut j: usize = 0;
    let mut size: usize = 1;
    proof {
        vstd::arithmetic::power2::lemma2_to64();
    }
    while j < d
        invariant
            j <= d,
            d <= 31,
            size == pow2(j as nat),
            rows@.len() == j,
            forall|t: int|
                0 <= t < j ==> #[trigger] rows@[t]@ == Seq::new(
                    pow2(t as nat),
                    |i: int| Option::<i32>::None,
                ),
        decreases d - j,
    {
        proof {
            lemma_pow2_bound(j as nat);
            vstd::arithmetic::power2::lemma_pow2_unfold((j + 1) as nat);
        }
        let mut row: Vec<Option<i32>> = Vec::new();
        let mut i: usize = 0;
        while i < size
            invariant
                i <= size,
                row@.len() == i,
                forall|q: int| 0 <= q < i ==> row@[q] == Option::<i32>::None,
            decreases size - i,
        {
            row.push(Option::None);
            i = i + 1;
        }
        proof {
            assert(row@ =~= Seq::new(pow2(j as nat), |i: int| Option::<i32>::None));
        }
        rows.push(row);
        j = j + 1;
        size = size * 2;
    }
    proof {
        assert forall|t: int| 0 <= t < d implies rows_view(rows)[t] == empty_rows(d as nat)[t] by {
            assert(rows_view(rows)[t] == rows@[t]@);
        }
        assert(rows_view(rows) =~= empty_rows(d as nat));
    }
    rows
}

/// Zips two grids of equal row count by concatenating matching rows.
fn merge(x: &Vec<Vec<Option<i32>>>, y: &Vec<Vec<Option<i32>>>) -> (r: Vec<Vec<Option<i32>>>)
    requires
        x@.len() == y@.len(),
    ensures
        rows_view(r) == merge_rows(rows_view(*x), rows_view(*y)),
{
    let mut r: Vec<Vec<Option<i32>>> = Vec::new();
    let mut i: usize = 0;
    while i < x.len()
        invariant
            i <= x@.len(),
            x@.len() == y@.len(),
            r@.len() == i,
            forall|t: int| 0 <= t < i ==> #[trigger] r@[t]@ == x@[t]@ + y@[t]@,
        decreases x.len() - i,
    {
        let mut row = copy_row(&x[i]);
        let extra = copy_row(&y[i]);
        let mut q: usize = 0;
        while q < extra.len()
            invariant
                q <= extra@.len(),
                row@ == x@[i as int]@ + extra@.subrange(0, q as int),
            decreases extra.len() - q,
        {
            row.push(extra[q]);
            q = q + 1;
            proof {
                assert(row@ =~= x@[i as int]@ + extra@.subrange(0, q as int));
            }
        }
        proof {
            assert(extra@.subrange(0, extra@.len() as int) =~= y@[i as int]@);
        }
        r.push(row);
        i = i + 1;
    }
    proof {
        assert forall|t: int| 0 <= t < r@.len() implies rows_view(r)[t] == merge_rows(
            rows_view(*x),
            rows_view(*y),
        )[t] by {
            assert(rows_view(r)[t] == r@[t]@);
            assert(rows_view(*x)[t] == x@[t]@);
            assert(rows_view(*y)[t] == y@[t]@);
        }
        assert(rows_view(r) =~= merge_rows(rows_view(*x), rows_view(*y)));
    }
    r
}

impl TreeNode {
    /// The breadth-first grid of this subtree rendered `depth` rows deep.
    pub fn vectorize_with_depth(&self, depth: usize) -> (r: Vec<Vec<Option<i32>>>)
        requires
            exists|lv: nat| self.wf(lv),
            1 <= depth <= 32,
        ensures
            rows_view(r) == spec_rows(*self, depth as nat),
        decreases *self,
    {
        let mut first: Vec<Option<i32>> = Vec::new();
        first.push(Some(1i32));
        proof {
            assert(first@ =~= seq![Some(1i32)]);
        }
        if depth == 1 {
            let mut rows: Vec<Vec<Option<i32>>> = Vec::new();
            rows.push(first);
            proof {
                assert(rows_view(rows) =~= spec_rows(*self, depth as nat));
            }
            return rows;
        }
        let sub: Vec<Vec<Option<i32>>> = match self {
            TreeNode::Leaf { .. } => {
                let l = empty_rows_vec(depth - 1);
                let r2 = empty_rows_vec(depth - 1);
                proof {
                    assert(rows_view(l).len() == l@.len());
                    assert(rows_view(r2).len() == r2@.len());
                    assert(empty_rows((depth - 1) as nat).len() == depth - 1);
                }
                merge(&l, &r2)
            },
            TreeNode::Inner { left, right, .. } => {
                proof {
                    let lv = choose|lv: nat| self.wf(lv);
                    assert(TreeNode::opt_wf(*left, lv + 1));
                    assert(TreeNode::opt_wf(*right, lv + 1));
                    match left {
                        Option::Some(node) => {
                            assert(node.wf(lv + 1));
                        },
                        Option::None => {},
                    }
                    match right {
                        Option::Some(node) => {
                            assert(node.wf(lv + 1));
                        },
                        Option::None => {},
                    }
                    lemma_spec_rows_len_all((depth - 1) as nat);
                }
                let l: Vec<Vec<Option<i32>>> = match left {
                    Option::Some(node) => node.vectorize_with_depth(depth - 1),
                    Option::None => empty_rows_vec(depth - 1),
                };
                let r2: Vec<Vec<Option<i32>>> = match right {
                    Option::Some(node) => node.vectorize_with_depth(depth - 1),
                    Option::None => empty_rows_vec(depth - 1),
                };
                proof {
                    assert(rows_view(l).len() == l@.len());
                    assert(rows_view(r2).len() == r2@.len());
                    assert(rows_view(l).len() == depth - 1);
                    assert(rows_view(r2).len() == depth - 1);
                }
                merge(&l, &r2)
            },
        };
        let mut rows = sub;
        rows.insert(0, first);
        proof {
            assert(rows_view(rows) =~= spec_rows(*self, depth as nat));
        }
        rows
    }

    /// The breadth-first grid of this subtree at its own depth.
    pub fn vectorize(&self) -> (r: Vec<Vec<Option<i32>>>)
        requires
            exists|lv: nat| self.wf(lv),
            spec_depth(*self) <= 32,
        ensures
            rows_view(r) == spec_rows(*self, spec_depth(*self)),
    {
        let d = self.depth();
        self.vectorize_with_depth(d)
    }
}

/// Grids rendered `d` rows deep have `d` rows, whatever the subtree.
pub proof fn lemma_spec_rows_len_all(d: nat)
    requires
        d >= 1,
    ensures
        forall|n: TreeNode| (#[trigger] spec_rows(n, d)).len() == d,
        forall|o: Option<Box<TreeNode>>| (#[trigger] opt_rows(o, d)).len() == d,
    decreases d,
{
    if d > 1 {
        lemma_spec_rows_len_all((d - 1) as nat);
    }
    assert forall|n: TreeNode| (#[trigger] spec_rows(n, d)).len() == d by {
        if d > 1 {
            match n {
                TreeNode::Leaf { .. } => {},
                TreeNode::Inner { left, right, .. } => {
                    assert(opt_rows(left, (d - 1) as nat).len() == d - 1);
                },
            }
        }
    }
    assert forall|o: Option<Box<TreeNode>>| (#[trigger] opt_rows(o, d)).len() == d by {
        match o {
            Option::Some(n) => {
                assert(spec_rows(*n, d).len() == d);
            },
            Option::None => {},
        }
    }
}


} // verus!
