//! An authenticated binary hash-trie ("Merkle trie"): a tree keyed by the
//! bits of a cryptographic digest of an application key, where every node
//! carries a digest that deterministically summarizes its subtree, enabling
//! compact inclusion proofs and tamper-evident equality checks between trees
//! built from different insertion orders.

pub mod debug_functions;
pub mod hash_structures;
pub mod treenode;

use vstd::multiset::Multiset;
use vstd::prelude::*;

use crate::hash_structures::copy_bytes;
use crate::hash_structures::Hashable;
use crate::treenode::steps_of;
use crate::treenode::ProofNode;
use crate::treenode::ProofStep;
use crate::treenode::TreeError;
use crate::treenode::TreeNode;

verus! {

/// The public handle of the trie: an optional root node, created empty,
/// grown and re-aggregated in place by insertion.
pub struct MerkleTree {
    pub(crate) root: Option<TreeNode>,
}

impl MerkleTree {
    /// Every reachable tree is well-formed from the root down.
    #[verifier::type_invariant]
    pub closed spec fn wf(self) -> bool {
        match self.root {
            Option::Some(r) => r.wf(0),
            Option::None => true,
        }
    }

    /// How many times the key with digest `k` has been inserted.
    pub closed spec fn count_of(self, k: Seq<u8>) -> int {
        match self.root {
            Option::Some(r) => r.count_of(k),
            Option::None => 0,
        }
    }

    /// Whether the tree holds no keys at all.
    pub closed spec fn is_empty(self) -> bool {
        self.root is None
    }

    /// The root digest; meaningful only when the tree is not empty.
    pub closed spec fn root_digest_spec(self) -> Seq<u8> {
        match self.root {
            Option::Some(r) => r.eff(),
            Option::None => Seq::empty(),
        }
    }

    /// The proof emitted for a lookup of digest `k`; meaningful only when
    /// the tree is not empty.
    pub closed spec fn proof_spec(self, k: Seq<u8>) -> Seq<ProofStep> {
        match self.root {
            Option::Some(r) => r.spec_proof(k, 0),
            Option::None => Seq::empty(),
        }
    }

    /// A fresh, empty tree: no key has been inserted.
    pub fn new() -> (r: Self)
        ensures
            r.is_empty(),
            forall|k: Seq<u8>| r.count_of(k) == 0,
    {
        MerkleTree { root: None }
    }

    /// How many times this key has been inserted, or absent when never.
    pub fn contains<T: Hashable>(&mut self, key: T) -> (r: Option<i32>)
        ensures
            *final(self) == *old(self),
            r == if old(self).count_of(key.hash_spec()) > 0 {
                Some(old(self).count_of(key.hash_spec()) as i32)
            } else {
                Option::<i32>::None
            },
    {
        proof {
            use_type_invariant(&*self);
        }
        match &self.root {
            Option::Some(node) => node.contains(key),
            Option::None => Option::None,
        }
    }

    /// The inclusion proof for this key's lookup path, or an explicit
    /// error on an empty tree.
    pub fn get_proof<T: Hashable>(&mut self, key: T) -> (r: Result<Vec<ProofNode>, TreeError>)
        ensures
            *final(self) == *old(self),
            old(self).is_empty() ==> r == Err::<Vec<ProofNode>, TreeError>(TreeError::EmptyTree),
            !old(self).is_empty() ==> (r matches Ok(v) && steps_of(v@) == old(self).proof_spec(
                key.hash_spec(),
            )),
    {
        proof {
            use_type_invariant(&*self);
        }
        match &self.root {
            Option::Some(node) => Ok(node.get_proof(key)),
            Option::None => Err(TreeError::EmptyTree),
        }
    }

    /// Inserts a key: the first insertion creates its leaf with counter one,
    /// a re-insertion increments the counter, and every ancestor's aggregate
    /// digest is recomputed.
    pub fn insert<T: Hashable>(&mut self, key: T)
        requires
            old(self).count_of(key.hash_spec()) < i32::MAX as int,
        ensures
            forall|k: Seq<u8>|
                final(self).count_of(k) == old(self).count_of(k) + if k == key.hash_spec() {
                    1int
                } else {
                    0int
                },
            !final(self).is_empty(),
    {
        proof {
            use_type_invariant(&*self);
        }
        let h = key.hash();
        let mut root: Option<TreeNode> = Option::None;
        std::mem::swap(&mut root, &mut self.root);
        let new_root = match root {
            Option::Some(node) => node.insert_with_level(&h, 0),
            Option::None => TreeNode::new_leaf(h),
        };
        self.root = Some(new_root);
    }

    /// Inserts a key unless its counter has reached the largest value the
    /// counter type holds; reports whether the insertion happened and, when
    /// it did not, leaves the tree unchanged.
    pub fn insert_checked<T: Hashable>(&mut self, key: T) -> (r: bool)
        ensures
            r == (old(self).count_of(key.hash_spec()) < i32::MAX as int),
            r ==> forall|k: Seq<u8>|
                final(self).count_of(k) == old(self).count_of(k) + if k == key.hash_spec() {
                    1int
                } else {
                    0int
                },
            !r ==> *final(self) == *old(self),
    {
        proof {
            use_type_invariant(&*self);
        }
        let h = key.hash();
        let current: Option<i32> = match &self.root {
            Option::Some(node) => {
                proof {
                    crate::treenode::lemma_count_bound(*node, h@, 0);
                }
                let mut scratch: Vec<ProofNode> = Vec::new();
                node.contains_hash(&h, 0, &mut scratch)
            },
            Option::None => Option::None,
        };
        let room = match current {
            Some(c) => c < i32::MAX,
            Option::None => true,
        };
        if room {
            self.insert(key);
            true
        } else {
            false
        }
    }

    /// The depth of the tree: zero when empty.
    pub closed spec fn depth_spec(self) -> nat {
        match self.root {
            Option::Some(r) => crate::debug_functions::spec_depth(r),
            Option::None => 0,
        }
    }

    /// The breadth-first grid of the tree at its own depth.
    pub closed spec fn rows_spec(self) -> Seq<Seq<Option<i32>>> {
        match self.root {
            Option::Some(r) => crate::debug_functions::spec_rows(
                r,
                crate::debug_functions::spec_depth(r),
            ),
            Option::None => Seq::empty(),
        }
    }

    /// The tree as a breadth-first grid, one row per level, a present node
    /// marked and an absent one left blank; absent when the tree is empty
    /// or too deep for such a grid.
    pub fn vectorize(&self) -> (r: Option<Vec<Vec<Option<i32>>>>)
        ensures
            self.is_empty() ==> r is None,
            self.depth_spec() > 32 ==> r is None,
            !self.is_empty() && self.depth_spec() <= 32 ==> (r matches Some(v)
                && crate::debug_functions::rows_view(v) == self.rows_spec()),
    {
        proof {
            use_type_invariant(&*self);
        }
        match &self.root {
            Option::Some(node) => {
                proof {
                    assert(node.wf(0));
                }
                let d = node.depth();
                if d <= 32 {
                    Some(node.vectorize_with_depth(d))
                } else {
                    Option::None
                }
            },
            Option::None => Option::None,
        }
    }

    /// The root digest, or absent on an empty tree.
    pub fn get_hash(&self) -> (r: Option<Vec<u8>>)
        ensures
            self.is_empty() ==> r is None,
            !self.is_empty() ==> (r matches Some(v) && v@ == self.root_digest_spec()),
    {
        proof {
            use_type_invariant(&*self);
        }
        match &self.root {
            Option::Some(node) => Some(copy_bytes(node.version_hash_raw())),
            Option::None => Option::None,
        }
    }
}

/// Round-trip proof: for every key present in the tree, folding the proof
/// emitted for its lookup path reproduces the tree's root digest.
pub proof fn lemma_round_trip(t: MerkleTree, k: Seq<u8>)
    requires
        t.wf(),
        t.count_of(k) > 0,
    ensures
        !t.is_empty(),
        crate::treenode::proof_wf(t.proof_spec(k)),
        crate::treenode::fold_proof(t.proof_spec(k)) == t.root_digest_spec(),
{
    match t.root {
        Option::Some(r) => crate::treenode::lemma_proof_roundtrip(r, k, 0),
        Option::None => {},
    }
}

/// Order invariance: two trees holding the same keys with the same
/// counters — however the insertions that built them were ordered — have
/// the same root digest and arrange their nodes identically.
pub proof fn lemma_order_invariance(a: MerkleTree, b: MerkleTree)
    requires
        a.wf(),
        b.wf(),
        forall|k: Seq<u8>| a.count_of(k) == b.count_of(k),
    ensures
        a.is_empty() == b.is_empty(),
        a.root_digest_spec() == b.root_digest_spec(),
        crate::debug_functions::spec_same_structure(a, b),
{
    match (a.root, b.root) {
        (Option::Some(x), Option::Some(y)) => {
            assert forall|k: Seq<u8>| x.count_of(k) == y.count_of(k) by {
                assert(a.count_of(k) == b.count_of(k));
            }
            crate::debug_functions::lemma_content_determines(x, y, 0);
            crate::debug_functions::lemma_same_structure_roots(a, b);
        },
        (Option::Some(x), Option::None) => {
            crate::treenode::lemma_nonempty(x, 0);
            let k = choose|k: Seq<u8>| x.count_of(k) >= 1;
            assert(a.count_of(k) >= 1);
            assert(b.count_of(k) == 0);
        },
        (Option::None, Option::Some(y)) => {
            crate::treenode::lemma_nonempty(y, 0);
            let k = choose|k: Seq<u8>| y.count_of(k) >= 1;
            assert(b.count_of(k) >= 1);
            assert(a.count_of(k) == 0);
        },
        (Option::None, Option::None) => {
            crate::debug_functions::lemma_same_structure_roots(a, b);
        },
    }
}

/// Version correctness: across any run of insertions, a key's counter rises
/// by exactly the number of insertions of that key, whatever else was
/// inserted around it. `trees` is the run of tree states and `keys` the
/// digests inserted, each state related to the next as `insert` promises;
/// combined with the contract of `contains`, a key inserted `n` times into
/// a tree that never held it is reported with counter exactly `n`, and a
/// never-inserted key as absent.
pub proof fn lemma_version_correctness(trees: Seq<MerkleTree>, keys: Seq<Seq<u8>>, k: Seq<u8>)
    requires
        trees.len() == keys.len() + 1,
        forall|i: int, k2: Seq<u8>|
            0 <= i < keys.len() ==> #[trigger] trees[i + 1].count_of(k2) == trees[i].count_of(k2)
                + if k2 == keys[i] {
                1int
            } else {
                0int
            },
    ensures
        trees.last().count_of(k) == trees.first().count_of(k) + keys.to_multiset().count(k),
    decreases keys.len(),
{
    broadcast use vstd::seq_lib::group_to_multiset_ensures;
    broadcast use vstd::multiset::group_multiset_axioms;
    broadcast use vstd::multiset::lemma_multiset_empty_len;

    if keys.len() == 0 {
        assert(keys.to_multiset().len() == 0);
        assert(keys.to_multiset() =~= Multiset::empty());
        assert(keys.to_multiset().count(k) == 0);
    } else {
        let n = keys.len() as int;
        let prefix_trees = trees.drop_last();
        let prefix_keys = keys.drop_last();
        assert forall|i: int, k2: Seq<u8>| 0 <= i < prefix_keys.len() implies #[trigger] prefix_trees[i
            + 1].count_of(k2) == prefix_trees[i].count_of(k2) + if k2 == prefix_keys[i] {
            1int
        } else {
            0int
        } by {
            assert(trees[i + 1].count_of(k2) == trees[i].count_of(k2) + if k2 == keys[i] {
                1int
            } else {
                0int
            });
        }
        lemma_version_correctness(prefix_trees, prefix_keys, k);
        assert(trees[n].count_of(k) == trees[n - 1].count_of(k) + if k == keys[n - 1] {
            1int
        } else {
            0int
        });
        assert(keys =~= prefix_keys.push(keys.last()));
        assert(prefix_keys.push(keys.last()).to_multiset() =~= prefix_keys.to_multiset().insert(
            keys.last(),
        ));
        assert(prefix_trees.last() == trees[n - 1]);
        assert(prefix_trees.first() == trees.first());
    }
}


} // verus!
