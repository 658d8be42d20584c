//! The recursive trie node: insertion with leaf displacement, membership
//! lookup, proof emission, and standalone proof verification.

use vstd::prelude::*;

use crate::hash_structures::agree_below;
use crate::hash_structures::bit_of;
use crate::hash_structures::bytes_equal;
use crate::hash_structures::copy_bytes;
use crate::hash_structures::lemma_diverge;
use crate::hash_structures::push_all;
use crate::hash_structures::sha256_bytes;
use crate::hash_structures::sha256_of;
use crate::hash_structures::HashBytes;
use crate::hash_structures::Hashable;

verus! {

/// The digest substituted for a missing child during aggregation: 32 bytes
/// of 0x01.
pub open spec fn default_digest() -> Seq<u8> {
    Seq::new(32, |i: int| 1u8)
}

/// The fixed 4-byte little-endian encoding of a nonnegative counter.
pub open spec fn le4(v: int) -> Seq<u8> {
    seq![
        (v % 256) as u8,
        ((v / 256) % 256) as u8,
        ((v / 65536) % 256) as u8,
        ((v / 16777216) % 256) as u8,
    ]
}

/// A node of the trie: either a leaf holding one key's digest and its
/// version, or an inner node holding the aggregate digest of its children.
pub enum TreeNode {
    Leaf { key: HashBytes, count: i32, version_hash: HashBytes },
    Inner { aggregate: HashBytes, left: Option<Box<TreeNode>>, right: Option<Box<TreeNode>> },
}

impl TreeNode {
    pub open spec fn is_leaf(self) -> bool {
        match self {
            TreeNode::Leaf { .. } => true,
            TreeNode::Inner { .. } => false,
        }
    }

    /// How many times the key with digest `k` has been inserted into this
    /// subtree: the stored counter at its leaf, or zero when absent.
    pub open spec fn count_of(self, k: Seq<u8>) -> int
        decreases self,
    {
        match self {
            TreeNode::Leaf { key, count, .. } => if key@ == k {
                count as int
            } else {
                0
            },
            TreeNode::Inner { left, right, .. } => Self::opt_count(left, k) + Self::opt_count(
                right,
                k,
            ),
        }
    }

    pub open spec fn opt_count(o: Option<Box<TreeNode>>, k: Seq<u8>) -> int
        decreases o,
    {
        match o {
            Option::None => 0,
            Option::Some(n) => n.count_of(k),
        }
    }

    /// The digest this node contributes to its parent's aggregation: the
    /// version digest at a leaf, the aggregate digest at an inner node.
    pub open spec fn eff(self) -> Seq<u8> {
        match self {
            TreeNode::Leaf { version_hash, .. } => version_hash@,
            TreeNode::Inner { aggregate, .. } => aggregate@,
        }
    }

    /// The digest a child slot contributes: the child's effective digest, or
    /// the default digest when the slot is empty.
    pub open spec fn opt_eff(o: Option<Box<TreeNode>>) -> Seq<u8> {
        match o {
            Option::None => default_digest(),
            Option::Some(n) => n.eff(),
        }
    }

    /// Well-formedness of a node sitting at trie level `level`: digests have
    /// the right length and are derived as the aggregation rules demand,
    /// counters are at least one, keys are partitioned between the children
    /// by their bit at this level, an inner node has a child, and an inner
    /// node with a single child has an inner child.
    pub open spec fn wf(self, level: nat) -> bool
        decreases self,
    {
        match self {
            TreeNode::Leaf { key, count, version_hash } => {
                &&& key@.len() == 32
                &&& 1 <= count
                &&& version_hash@ == sha256_of(le4(count as int) + key@)
                &&& version_hash@.len() == 32
                &&& level <= 256
            },
            TreeNode::Inner { aggregate, left, right } => {
                &&& level < 256
                &&& aggregate@ == sha256_of(Self::opt_eff(left) + Self::opt_eff(right))
                &&& aggregate@.len() == 32
                &&& (left is Some || right is Some)
                &&& Self::opt_wf(left, level + 1)
                &&& Self::opt_wf(right, level + 1)
                &&& (right is None ==> Self::opt_not_leaf(left))
                &&& (left is None ==> Self::opt_not_leaf(right))
                &&& (forall|k: Seq<u8>|
                    Self::opt_count(left, k) > 0 ==> bit_of(k, level as int) == 0)
                &&& (forall|k: Seq<u8>|
                    Self::opt_count(right, k) > 0 ==> bit_of(k, level as int) == 1)
            },
        }
    }

    /// Well-formedness of a child slot.
    pub open spec fn opt_wf(o: Option<Box<TreeNode>>, level: nat) -> bool
        decreases o,
    {
        match o {
            Option::Some(n) => n.wf(level),
            Option::None => true,
        }
    }

    /// The slot, if filled, holds an inner node.
    pub open spec fn opt_not_leaf(o: Option<Box<TreeNode>>) -> bool {
        match o {
            Option::Some(n) => !n.is_leaf(),
            Option::None => true,
        }
    }
}

/// Counters are never negative in a well-formed subtree.
pub proof fn lemma_count_nonneg(n: TreeNode, k: Seq<u8>, level: nat)
    requires
        n.wf(level),
    ensures
        n.count_of(k) >= 0,
    decreases n,
{
    match n {
        TreeNode::Leaf { .. } => {},
        TreeNode::Inner { left, right, .. } => {
            match left {
                Option::Some(l) => lemma_count_nonneg(*l, k, level + 1),
                Option::None => {},
            }
            match right {
                Option::Some(r) => lemma_count_nonneg(*r, k, level + 1),
                Option::None => {},
            }
        },
    }
}

/// Counters in a well-formed child slot are never negative.
pub proof fn lemma_opt_count_nonneg(o: Option<Box<TreeNode>>, k: Seq<u8>, level: nat)
    requires
        match o {
            Option::Some(n) => n.wf(level),
            Option::None => true,
        },
    ensures
        TreeNode::opt_count(o, k) >= 0,
{
    match o {
        Option::Some(n) => lemma_count_nonneg(*n, k, level),
        Option::None => {},
    }
}

/// A key's counter never exceeds the largest value the counter type holds.
pub proof fn lemma_count_bound(n: TreeNode, k: Seq<u8>, level: nat)
    requires
        n.wf(level),
    ensures
        n.count_of(k) <= i32::MAX as int,
    decreases n,
{
    match n {
        TreeNode::Leaf { .. } => {},
        TreeNode::Inner { left, right, .. } => {
            crate::hash_structures::lemma_bit_01(k, level as int);
            lemma_opt_count_nonneg(left, k, level + 1);
            lemma_opt_count_nonneg(right, k, level + 1);
            if bit_of(k, level as int) == 0 {
                assert(TreeNode::opt_count(right, k) == 0);
                match left {
                    Option::Some(l) => lemma_count_bound(*l, k, level + 1),
                    Option::None => {},
                }
            } else {
                assert(TreeNode::opt_count(left, k) == 0);
                match right {
                    Option::Some(r) => lemma_count_bound(*r, k, level + 1),
                    Option::None => {},
                }
            }
        },
    }
}

/// The effective digest of a well-formed node is 32 bytes long.
pub proof fn lemma_eff_len(n: TreeNode, level: nat)
    requires
        n.wf(level),
    ensures
        n.eff().len() == 32,
{
    match n {
        TreeNode::Leaf { version_hash, .. } => {
            assert(version_hash@.len() == 32);
        },
        TreeNode::Inner { aggregate, .. } => {
            assert(aggregate@.len() == 32);
        },
    }
}

/// The digest contributed by a well-formed child slot is 32 bytes long.
pub proof fn lemma_opt_eff_len(o: Option<Box<TreeNode>>, level: nat)
    requires
        match o {
            Option::Some(n) => n.wf(level),
            Option::None => true,
        },
    ensures
        TreeNode::opt_eff(o).len() == 32,
{
    match o {
        Option::Some(n) => lemma_eff_len(*n, level),
        Option::None => {},
    }
}

/// Hashes a version counter together with a key digest: the fixed 4-byte
/// little-endian counter bytes, followed by the key digest, hashed.
pub fn hash_from_version(version: i32, key_hash: &HashBytes) -> (r: HashBytes)
    requires
        version >= 0,
    ensures
        r@ == sha256_of(le4(version as int) + key_hash@),
        r@.len() == 32,
{
    let v = version as u32;
    let mut bytes: Vec<u8> = Vec::new();
    bytes.push((v % 256) as u8);
    bytes.push(((v / 256) % 256) as u8);
    bytes.push(((v / 65536) % 256) as u8);
    bytes.push(((v / 16777216) % 256) as u8);
    proof {
        assert(bytes@ =~= le4(version as int));
    }
    push_all(&mut bytes, key_hash.bytes());
    proof {
        assert(bytes@ == le4(version as int) + key_hash@);
    }
    HashBytes::new(sha256_bytes(bytes.as_slice()))
}

/// The 32-byte default digest as a fresh vector.
fn default_hash_vec() -> (r: Vec<u8>)
    ensures
        r@ == default_digest(),
{
    let mut r: Vec<u8> = Vec::new();
    let mut i: usize = 0;
    while i < 32
        invariant
            i <= 32,
            r@.len() == i,
            forall|j: int| 0 <= j < i ==> r@[j] == 1u8,
        decreases 32 - i,
    {
        r.push(1u8);
        i = i + 1;
    }
    proof {
        assert(r@ =~= default_digest());
    }
    r
}

impl TreeNode {
    /// A fresh singleton leaf for a key digest, with counter one.
    pub fn new_leaf(hashbytes: HashBytes) -> (r: TreeNode)
        requires
            hashbytes@.len() == 32,
        ensures
            forall|lv: nat| lv <= 256 ==> r.wf(lv),
            forall|k: Seq<u8>|
                r.count_of(k) == if k == hashbytes@ {
                    1int
                } else {
                    0int
                },
            r.is_leaf(),
            r.eff() == sha256_of(le4(1) + hashbytes@),
    {
        let version_hash = hash_from_version(1, &hashbytes);
        TreeNode::Leaf { key: hashbytes, count: 1, version_hash }
    }

    /// The key digest stored at a leaf, or the aggregate digest of an inner
    /// node.
    pub fn key_hash_raw(&self) -> (r: &Vec<u8>)
        ensures
            r@ == match *self {
                TreeNode::Leaf { key, .. } => key@,
                TreeNode::Inner { aggregate, .. } => aggregate@,
            },
    {
        match self {
            TreeNode::Leaf { key, .. } => key.bytes(),
            TreeNode::Inner { aggregate, .. } => aggregate.bytes(),
        }
    }

    /// The effective digest of this node: the version digest at a leaf, the
    /// aggregate digest at an inner node.
    pub fn version_hash_raw(&self) -> (r: &Vec<u8>)
        ensures
            r@ == self.eff(),
    {
        match self {
            TreeNode::Leaf { version_hash, .. } => version_hash.bytes(),
            TreeNode::Inner { aggregate, .. } => aggregate.bytes(),
        }
    }
}

impl TreeNode {
    /// Inserts a key digest into this subtree, which sits at trie level
    /// `level`: a re-insertion of a leaf's own key increments its version,
    /// a second key displaces a leaf into a deeper split, and an inner node
    /// recurses along the bit selected by the key's digest at this level,
    /// re-aggregating its digest on the way back up.
    pub fn insert_with_level(self, hash_to_insert: &HashBytes, level: usize) -> (r: TreeNode)
        requires
            self.wf(level as nat),
            hash_to_insert@.len() == 32,
            forall|k: Seq<u8>|
                self.count_of(k) > 0 ==> agree_below(k, hash_to_insert@, level as int),
            self.count_of(hash_to_insert@) < i32::MAX as int,
        ensures
            r.wf(level as nat),
            forall|k: Seq<u8>|
                r.count_of(k) == self.count_of(k) + if k == hash_to_insert@ {
                    1int
                } else {
                    0int
                },
            !self.is_leaf() ==> !r.is_leaf(),
        decreases self,
    {
        match self {
            TreeNode::Leaf { key, count, version_hash } => {
                if bytes_equal(key.bytes(), hash_to_insert.bytes()) {
                    // Re-insertion of the same key: bump the counter and
                    // recompute the version digest; no structural change.
                    let new_count = count + 1;
                    let new_version_hash = hash_from_version(new_count, &key);
                    let r = TreeNode::Leaf { key, count: new_count, version_hash: new_version_hash };
                    proof {
                        assert forall|k: Seq<u8>|
                            r.count_of(k) == self.count_of(k) + if k == hash_to_insert@ {
                                1int
                            } else {
                                0int
                            } by {
                            assert(self.count_of(k) == if key@ == k {
                                count as int
                            } else {
                                0int
                            });
                        }
                    }
                    r
                } else {
                    // A second, different key: the leaf's payload becomes
                    // displaced cargo and the node splits.
                    let r = Self::insert_with_luggage(
                        hash_to_insert,
                        level,
                        key,
                        count,
                        version_hash,
                    );
                    proof {
                        assert forall|k: Seq<u8>|
                            r.count_of(k) == self.count_of(k) + if k == hash_to_insert@ {
                                1int
                            } else {
                                0int
                            } by {
                            assert(self.count_of(k) == if key@ == k {
                                count as int
                            } else {
                                0int
                            });
                        }
                    }
                    r
                }
            },
            TreeNode::Inner { aggregate: _, left, right } => {
                let b = hash_to_insert.bit(level);
                proof {
                    crate::hash_structures::lemma_bit_01(hash_to_insert@, level as int);
                    lemma_opt_count_nonneg(left, hash_to_insert@, level as nat + 1);
                    lemma_opt_count_nonneg(right, hash_to_insert@, level as nat + 1);
                }
                if b == 0 {
                    let new_left_node: TreeNode = match left {
                        Option::Some(boxed) => {
                            proof {
                                assert forall|k: Seq<u8>| boxed.count_of(k) > 0 implies agree_below(
                                    k,
                                    hash_to_insert@,
                                    level as int + 1,
                                ) by {
                                    lemma_opt_count_nonneg(right, k, level as nat + 1);
                                    assert(self.count_of(k) == boxed.count_of(k)
                                        + TreeNode::opt_count(right, k));
                                    assert(agree_below(k, hash_to_insert@, level as int));
                                    assert(bit_of(k, level as int) == 0);
                                    crate::hash_structures::lemma_agree_extend(
                                        k,
                                        hash_to_insert@,
                                        level as int,
                                    );
                                }
                                assert(boxed.count_of(hash_to_insert@) == self.count_of(
                                    hash_to_insert@,
                                ) - TreeNode::opt_count(right, hash_to_insert@));
                                if TreeNode::opt_count(right, hash_to_insert@) > 0 {
                                    assert(bit_of(hash_to_insert@, level as int) == 1);
                                }
                            }
                            (*boxed).insert_with_level(hash_to_insert, level + 1)
                        },
                        Option::None => TreeNode::new_leaf(hash_to_insert.duplicate()),
                    };
                    let new_left = Some(Box::new(new_left_node));
                    proof {
                        lemma_opt_eff_len(new_left, level as nat + 1);
                        lemma_opt_eff_len(right, level as nat + 1);
                    }
                    let new_aggregate = hash_from_children(&new_left, &right);
                    let r = TreeNode::Inner { aggregate: new_aggregate, left: new_left, right };
                    proof {
                        assert forall|k: Seq<u8>| TreeNode::opt_count(new_left, k) > 0 implies bit_of(
                            k,
                            level as int,
                        ) == 0 by {
                            lemma_opt_count_nonneg(left, k, level as nat + 1);
                            assert(new_left_node.count_of(k) == TreeNode::opt_count(left, k)
                                + if k == hash_to_insert@ {
                                1int
                            } else {
                                0int
                            });
                            if k != hash_to_insert@ {
                                assert(TreeNode::opt_count(left, k) > 0);
                            }
                        }
                        assert(new_left_node.wf(level as nat + 1));
                        assert(TreeNode::opt_wf(new_left, level as nat + 1));
                        assert(TreeNode::opt_wf(right, level as nat + 1));
                        assert(r.wf(level as nat));
                        assert forall|k: Seq<u8>|
                            r.count_of(k) == self.count_of(k) + if k == hash_to_insert@ {
                                1int
                            } else {
                                0int
                            } by {
                            assert(r.count_of(k) == TreeNode::opt_count(new_left, k)
                                + TreeNode::opt_count(right, k));
                            assert(TreeNode::opt_count(new_left, k) == new_left_node.count_of(k));
                            assert(self.count_of(k) == TreeNode::opt_count(left, k)
                                + TreeNode::opt_count(right, k));
                        }
                    }
                    r
                } else {
                    let new_right_node: TreeNode = match right {
                        Option::Some(boxed) => {
                            proof {
                                assert forall|k: Seq<u8>| boxed.count_of(k) > 0 implies agree_below(
                                    k,
                                    hash_to_insert@,
                                    level as int + 1,
                                ) by {
                                    lemma_opt_count_nonneg(left, k, level as nat + 1);
                                    assert(self.count_of(k) == TreeNode::opt_count(left, k)
                                        + boxed.count_of(k));
                                    assert(agree_below(k, hash_to_insert@, level as int));
                                    assert(bit_of(k, level as int) == 1);
                                    crate::hash_structures::lemma_agree_extend(
                                        k,
                                        hash_to_insert@,
                                        level as int,
                                    );
                                }
                                assert(boxed.count_of(hash_to_insert@) == self.count_of(
                                    hash_to_insert@,
                                ) - TreeNode::opt_count(left, hash_to_insert@));
                                if TreeNode::opt_count(left, hash_to_insert@) > 0 {
                                    assert(bit_of(hash_to_insert@, level as int) == 0);
                                }
                            }
                            (*boxed).insert_with_level(hash_to_insert, level + 1)
                        },
                        Option::None => TreeNode::new_leaf(hash_to_insert.duplicate()),
                    };
                    let new_right = Some(Box::new(new_right_node));
                    proof {
                        lemma_opt_eff_len(new_right, level as nat + 1);
                        lemma_opt_eff_len(left, level as nat + 1);
                    }
                    let new_aggregate = hash_from_children(&left, &new_right);
                    let r = TreeNode::Inner { aggregate: new_aggregate, left, right: new_right };
                    proof {
                        assert forall|k: Seq<u8>| TreeNode::opt_count(new_right, k) > 0 implies bit_of(
                            k,
                            level as int,
                        ) == 1 by {
                            lemma_opt_count_nonneg(right, k, level as nat + 1);
                            assert(new_right_node.count_of(k) == TreeNode::opt_count(right, k)
                                + if k == hash_to_insert@ {
                                1int
                            } else {
                                0int
                            });
                            if k != hash_to_insert@ {
                                assert(TreeNode::opt_count(right, k) > 0);
                            }
                        }
                        assert(new_right_node.wf(level as nat + 1));
                        assert(TreeNode::opt_wf(new_right, level as nat + 1));
                        assert(TreeNode::opt_wf(left, level as nat + 1));
                        assert(r.wf(level as nat));
                        assert forall|k: Seq<u8>|
                            r.count_of(k) == self.count_of(k) + if k == hash_to_insert@ {
                                1int
                            } else {
                                0int
                            } by {
                            assert(r.count_of(k) == TreeNode::opt_count(left, k)
                                + TreeNode::opt_count(new_right, k));
                            assert(TreeNode::opt_count(new_right, k) == new_right_node.count_of(k));
                            assert(self.count_of(k) == TreeNode::opt_count(left, k)
                                + TreeNode::opt_count(right, k));
                        }
                    }
                    r
                }
            },
        }
    }

    /// Resolves a displacement: builds the subtree that replaces a leaf once
    /// a second, different key arrives, carrying the displaced leaf payload
    /// ("luggage") one level deeper for as long as the two digests still
    /// collide on the tested bit.
    fn insert_with_luggage(
        hash_to_insert: &HashBytes,
        level: usize,
        cargo_key: HashBytes,
        cargo_count: i32,
        cargo_version_hash: HashBytes,
    ) -> (r: TreeNode)
        requires
            hash_to_insert@.len() == 32,
            cargo_key@.len() == 32,
            1 <= cargo_count,
            cargo_version_hash@ == sha256_of(le4(cargo_count as int) + cargo_key@),
            cargo_version_hash@.len() == 32,
            hash_to_insert@ != cargo_key@,
            agree_below(cargo_key@, hash_to_insert@, level as int),
        ensures
            r.wf(level as nat),
            forall|k: Seq<u8>|
                r.count_of(k) == if k == hash_to_insert@ {
                    1int
                } else if k == cargo_key@ {
                    cargo_count as int
                } else {
                    0int
                },
            !r.is_leaf(),
        decreases 256 - level,
    {
        proof {
            lemma_diverge(cargo_key@, hash_to_insert@, level as int);
            crate::hash_structures::lemma_bit_01(hash_to_insert@, level as int);
            crate::hash_structures::lemma_bit_01(cargo_key@, level as int);
        }
        let b = hash_to_insert.bit(level);
        let cb = cargo_key.bit(level);
        if b != cb {
            // The two keys diverge here: the new leaf takes its bit-selected
            // slot and the displaced cargo, version preserved, the other.
            let fresh_leaf = TreeNode::new_leaf(hash_to_insert.duplicate());
            let cargo_leaf = TreeNode::Leaf {
                key: cargo_key,
                count: cargo_count,
                version_hash: cargo_version_hash,
            };
            proof {
                assert(fresh_leaf.wf(level as nat + 1));
                assert(cargo_leaf.wf(level as nat + 1));
            }
            if b == 0 {
                let left = Some(Box::new(fresh_leaf));
                let right = Some(Box::new(cargo_leaf));
                proof {
                    lemma_opt_eff_len(left, level as nat + 1);
                    lemma_opt_eff_len(right, level as nat + 1);
                }
                let aggregate = hash_from_children(&left, &right);
                let r = TreeNode::Inner { aggregate, left, right };
                proof {
                    assert(TreeNode::opt_wf(left, level as nat + 1));
                    assert(TreeNode::opt_wf(right, level as nat + 1));
                    assert forall|k: Seq<u8>| TreeNode::opt_count(left, k) > 0 implies bit_of(
                        k,
                        level as int,
                    ) == 0 by {
                        assert(fresh_leaf.count_of(k) > 0);
                        assert(k == hash_to_insert@);
                    }
                    assert forall|k: Seq<u8>| TreeNode::opt_count(right, k) > 0 implies bit_of(
                        k,
                        level as int,
                    ) == 1 by {
                        assert(cargo_leaf.count_of(k) > 0);
                        assert(k == cargo_key@);
                    }
                    assert(r.wf(level as nat));
                    assert forall|k: Seq<u8>|
                        r.count_of(k) == if k == hash_to_insert@ {
                            1int
                        } else if k == cargo_key@ {
                            cargo_count as int
                        } else {
                            0int
                        } by {
                        assert(r.count_of(k) == TreeNode::opt_count(left, k)
                            + TreeNode::opt_count(right, k));
                        assert(TreeNode::opt_count(left, k) == fresh_leaf.count_of(k));
                        assert(fresh_leaf.count_of(k) == if k == hash_to_insert@ {
                            1int
                        } else {
                            0int
                        });
                        assert(TreeNode::opt_count(right, k) == cargo_leaf.count_of(k));
                        assert(cargo_leaf.count_of(k) == if k == cargo_key@ {
                            cargo_count as int
                        } else {
                            0int
                        });
                    }
                }
                r
            } else {
                let left = Some(Box::new(cargo_leaf));
                let right = Some(Box::new(fresh_leaf));
                proof {
                    lemma_opt_eff_len(left, level as nat + 1);
                    lemma_opt_eff_len(right, level as nat + 1);
                }
                let aggregate = hash_from_children(&left, &right);
                let r = TreeNode::Inner { aggregate, left, right };
                proof {
                    assert(TreeNode::opt_wf(left, level as nat + 1));
                    assert(TreeNode::opt_wf(right, level as nat + 1));
                    assert forall|k: Seq<u8>| TreeNode::opt_count(left, k) > 0 implies bit_of(
                        k,
                        level as int,
                    ) == 0 by {
                        assert(cargo_leaf.count_of(k) > 0);
                        assert(k == cargo_key@);
                    }
                    assert forall|k: Seq<u8>| TreeNode::opt_count(right, k) > 0 implies bit_of(
                        k,
                        level as int,
                    ) == 1 by {
                        assert(fresh_leaf.count_of(k) > 0);
                        assert(k == hash_to_insert@);
                    }
                    assert(r.wf(level as nat));
                    assert forall|k: Seq<u8>|
                        r.count_of(k) == if k == hash_to_insert@ {
                            1int
                        } else if k == cargo_key@ {
                            cargo_count as int
                        } else {
                            0int
                        } by {
                        assert(r.count_of(k) == TreeNode::opt_count(left, k)
                            + TreeNode::opt_count(right, k));
                        assert(TreeNode::opt_count(left, k) == cargo_leaf.count_of(k));
                        assert(cargo_leaf.count_of(k) == if k == cargo_key@ {
                            cargo_count as int
                        } else {
                            0int
                        });
                        assert(TreeNode::opt_count(right, k) == fresh_leaf.count_of(k));
                        assert(fresh_leaf.count_of(k) == if k == hash_to_insert@ {
                            1int
                        } else {
                            0int
                        });
                    }
                }
                r
            }
        } else {
            // Still colliding at this level: a fresh inner node holds the
            // resolution one level deeper.
            proof {
                crate::hash_structures::lemma_agree_extend(
                    cargo_key@,
                    hash_to_insert@,
                    level as int,
                );
            }
            let sub = Self::insert_with_luggage(
                hash_to_insert,
                level + 1,
                cargo_key,
                cargo_count,
                cargo_version_hash,
            );
            if b == 0 {
                let left = Some(Box::new(sub));
                let right = None;
                proof {
                    lemma_opt_eff_len(left, level as nat + 1);
                    lemma_opt_eff_len(right, level as nat + 1);
                }
                let aggregate = hash_from_children(&left, &right);
                let r = TreeNode::Inner { aggregate, left, right };
                proof {
                    assert(TreeNode::opt_wf(left, level as nat + 1));
                    assert(TreeNode::opt_wf(right, level as nat + 1));
                    assert forall|k: Seq<u8>| TreeNode::opt_count(left, k) > 0 implies bit_of(
                        k,
                        level as int,
                    ) == 0 by {
                        assert(sub.count_of(k) > 0);
                        assert(k == hash_to_insert@ || k == cargo_key@);
                    }
                    assert(r.wf(level as nat));
                    assert forall|k: Seq<u8>|
                        r.count_of(k) == if k == hash_to_insert@ {
                            1int
                        } else if k == cargo_key@ {
                            cargo_count as int
                        } else {
                            0int
                        } by {
                        assert(r.count_of(k) == TreeNode::opt_count(left, k)
                            + TreeNode::opt_count(right, k));
                        assert(sub.count_of(k) == if k == hash_to_insert@ {
                            1int
                        } else if k == cargo_key@ {
                            cargo_count as int
                        } else {
                            0int
                        });
                    }
                }
                r
            } else {
                let left = None;
                let right = Some(Box::new(sub));
                proof {
                    lemma_opt_eff_len(left, level as nat + 1);
                    lemma_opt_eff_len(right, level as nat + 1);
                }
                let aggregate = hash_from_children(&left, &right);
                let r = TreeNode::Inner { aggregate, left, right };
                proof {
                    assert(TreeNode::opt_wf(left, level as nat + 1));
                    assert(TreeNode::opt_wf(right, level as nat + 1));
                    assert forall|k: Seq<u8>| TreeNode::opt_count(right, k) > 0 implies bit_of(
                        k,
                        level as int,
                    ) == 1 by {
                        assert(sub.count_of(k) > 0);
                        assert(k == hash_to_insert@ || k == cargo_key@);
                    }
                    assert(r.wf(level as nat));
                    assert forall|k: Seq<u8>|
                        r.count_of(k) == if k == hash_to_insert@ {
                            1int
                        } else if k == cargo_key@ {
                            cargo_count as int
                        } else {
                            0int
                        } by {
                        assert(r.count_of(k) == TreeNode::opt_count(left, k)
                            + TreeNode::opt_count(right, k));
                        assert(sub.count_of(k) == if k == hash_to_insert@ {
                            1int
                        } else if k == cargo_key@ {
                            cargo_count as int
                        } else {
                            0int
                        });
                    }
                }
                r
            }
        }
    }

    /// Inserts a key: hashes it and inserts the digest starting at level
    /// zero.
    pub fn insert<T: Hashable>(self, key: T) -> (r: TreeNode)
        requires
            self.wf(0),
            self.count_of(key.hash_spec()) < i32::MAX as int,
        ensures
            r.wf(0),
            forall|k: Seq<u8>|
                r.count_of(k) == self.count_of(k) + if k == key.hash_spec() {
                    1int
                } else {
                    0int
                },
    {
        let hashbits = key.hash();
        self.insert_with_level(&hashbits, 0)
    }
}

/// One step of an inclusion proof: a sibling digest on the named side of
/// the hash-combine, the terminal leaf payload, or an absent terminal child.
#[derive(Debug)]
pub enum ProofNode {
    Left(Vec<u8>),
    Right(Vec<u8>),
    Leaf(Vec<u8>, i32),
    Absent,
}

/// The mathematical content of a proof step.
pub enum ProofStep {
    Left(Seq<u8>),
    Right(Seq<u8>),
    Leaf(Seq<u8>, i32),
    Absent,
}

impl View for ProofNode {
    type V = ProofStep;

    open spec fn view(&self) -> ProofStep {
        match *self {
            ProofNode::Left(v) => ProofStep::Left(v@),
            ProofNode::Right(v) => ProofStep::Right(v@),
            ProofNode::Leaf(v, c) => ProofStep::Leaf(v@, c),
            ProofNode::Absent => ProofStep::Absent,
        }
    }
}

/// The mathematical content of an emitted proof.
pub open spec fn steps_of(s: Seq<ProofNode>) -> Seq<ProofStep> {
    s.map_values(|p: ProofNode| p@)
}

pub proof fn lemma_steps_push(s: Seq<ProofNode>, p: ProofNode)
    ensures
        steps_of(s.push(p)) == steps_of(s) + seq![p@],
{
    assert(steps_of(s.push(p)) =~= steps_of(s) + seq![p@]);
}

impl TreeNode {
    /// The proof steps emitted for a lookup of digest `k` through this
    /// subtree: at an inner node, the sibling digest of the slot not taken,
    /// tagged by the tested bit value; at the end, the leaf found or an
    /// absent-child marker.
    pub open spec fn spec_proof(self, k: Seq<u8>, level: int) -> Seq<ProofStep>
        decreases self,
    {
        match self {
            TreeNode::Leaf { key, count, .. } => seq![ProofStep::Leaf(key@, count)],
            TreeNode::Inner { left, right, .. } => {
                let b = bit_of(k, level);
                let step = if b == 1 {
                    ProofStep::Left(Self::opt_eff(left))
                } else {
                    ProofStep::Right(Self::opt_eff(right))
                };
                let primary = if b == 1 {
                    right
                } else {
                    left
                };
                match primary {
                    Option::None => seq![step, ProofStep::Absent],
                    Option::Some(n) => seq![step] + n.spec_proof(k, level + 1),
                }
            },
        }
    }

    /// Walks the bit path of `hash_to_check` from this node, appending the
    /// proof steps for the path and returning the stored counter when the
    /// digest's leaf is found.
    pub(crate) fn contains_hash(
        &self,
        hash_to_check: &HashBytes,
        level: usize,
        proof: &mut Vec<ProofNode>,
    ) -> (r: Option<i32>)
        requires
            self.wf(level as nat),
            hash_to_check@.len() == 32,
            forall|k: Seq<u8>|
                self.count_of(k) > 0 ==> agree_below(k, hash_to_check@, level as int),
        ensures
            r == if self.count_of(hash_to_check@) > 0 {
                Some(self.count_of(hash_to_check@) as i32)
            } else {
                Option::<i32>::None
            },
            steps_of(final(proof)@) == steps_of(old(proof)@) + self.spec_proof(
                hash_to_check@,
                level as int,
            ),
        decreases self,
    {
        match self {
            TreeNode::Leaf { key, count, .. } => {
                let step = ProofNode::Leaf(copy_bytes(key.bytes()), *count);
                proof {
                    lemma_steps_push(proof@, step);
                }
                proof.push(step);
                if bytes_equal(key.bytes(), hash_to_check.bytes()) {
                    Some(*count)
                } else {
                    Option::None
                }
            },
            TreeNode::Inner { aggregate: _, left, right } => {
                let b = hash_to_check.bit(level);
                proof {
                    crate::hash_structures::lemma_bit_01(hash_to_check@, level as int);
                    lemma_opt_count_nonneg(*left, hash_to_check@, level as nat + 1);
                    lemma_opt_count_nonneg(*right, hash_to_check@, level as nat + 1);
                }
                if b == 1 {
                    let branch_hash: Vec<u8> = match left {
                        Option::Some(alt) => copy_bytes(alt.version_hash_raw()),
                        Option::None => default_hash_vec(),
                    };
                    let step = ProofNode::Left(branch_hash);
                    proof {
                        lemma_steps_push(proof@, step);
                    }
                    proof.push(step);
                    match right {
                        Option::Some(node) => {
                            proof {
                                assert forall|k: Seq<u8>| node.count_of(k) > 0 implies agree_below(
                                    k,
                                    hash_to_check@,
                                    level as int + 1,
                                ) by {
                                    lemma_opt_count_nonneg(*left, k, level as nat + 1);
                                    assert(self.count_of(k) == TreeNode::opt_count(*left, k)
                                        + node.count_of(k));
                                    assert(agree_below(k, hash_to_check@, level as int));
                                    assert(bit_of(k, level as int) == 1);
                                    crate::hash_structures::lemma_agree_extend(
                                        k,
                                        hash_to_check@,
                                        level as int,
                                    );
                                }
                                if TreeNode::opt_count(*left, hash_to_check@) > 0 {
                                    assert(bit_of(hash_to_check@, level as int) == 0);
                                }
                            }
                            let r = node.contains_hash(hash_to_check, level + 1, proof);
                            proof {
                                assert(steps_of(proof@) =~= steps_of(old(proof)@)
                                    + self.spec_proof(hash_to_check@, level as int));
                            }
                            r
                        },
                        Option::None => {
                            let terminal = ProofNode::Absent;
                            proof {
                                lemma_steps_push(proof@, terminal);
                            }
                            proof.push(terminal);
                            proof {
                                assert(steps_of(proof@) =~= steps_of(old(proof)@)
                                    + self.spec_proof(hash_to_check@, level as int));
                            }
                            Option::None
                        },
                    }
                } else {
                    let branch_hash: Vec<u8> = match right {
                        Option::Some(alt) => copy_bytes(alt.version_hash_raw()),
                        Option::None => default_hash_vec(),
                    };
                    let step = ProofNode::Right(branch_hash);
                    proof {
                        lemma_steps_push(proof@, step);
                    }
                    proof.push(step);
                    match left {
                        Option::Some(node) => {
                            proof {
                                assert forall|k: Seq<u8>| node.count_of(k) > 0 implies agree_below(
                                    k,
                                    hash_to_check@,
                                    level as int + 1,
                                ) by {
                                    lemma_opt_count_nonneg(*right, k, level as nat + 1);
                                    assert(self.count_of(k) == node.count_of(k)
                                        + TreeNode::opt_count(*right, k));
                                    assert(agree_below(k, hash_to_check@, level as int));
                                    assert(bit_of(k, level as int) == 0);
                                    crate::hash_structures::lemma_agree_extend(
                                        k,
                                        hash_to_check@,
                                        level as int,
                                    );
                                }
                                if TreeNode::opt_count(*right, hash_to_check@) > 0 {
                                    assert(bit_of(hash_to_check@, level as int) == 1);
                                }
                            }
                            let r = node.contains_hash(hash_to_check, level + 1, proof);
                            proof {
                                assert(steps_of(proof@) =~= steps_of(old(proof)@)
                                    + self.spec_proof(hash_to_check@, level as int));
                            }
                            r
                        },
                        Option::None => {
                            let terminal = ProofNode::Absent;
                            proof {
                                lemma_steps_push(proof@, terminal);
                            }
                            proof.push(terminal);
                            proof {
                                assert(steps_of(proof@) =~= steps_of(old(proof)@)
                                    + self.spec_proof(hash_to_check@, level as int));
                            }
                            Option::None
                        },
                    }
                }
            },
        }
    }

    /// Looks a key up: the number of times it has been inserted, or absent.
    pub fn contains<T: Hashable>(&self, key: T) -> (r: Option<i32>)
        requires
            self.wf(0),
        ensures
            r == if self.count_of(key.hash_spec()) > 0 {
                Some(self.count_of(key.hash_spec()) as i32)
            } else {
                Option::<i32>::None
            },
    {
        let hash_bits = key.hash();
        let mut proof: Vec<ProofNode> = Vec::new();
        self.contains_hash(&hash_bits, 0, &mut proof)
    }

    /// Emits the inclusion proof for a key's lookup path.
    pub fn get_proof<T: Hashable>(&self, key: T) -> (r: Vec<ProofNode>)
        requires
            self.wf(0),
        ensures
            steps_of(r@) == self.spec_proof(key.hash_spec(), 0),
    {
        let hash_bits = key.hash();
        let mut proof: Vec<ProofNode> = Vec::new();
        self.contains_hash(&hash_bits, 0, &mut proof);
        proof {
            assert(steps_of(proof@) =~= self.spec_proof(key.hash_spec(), 0));
        }
        proof
    }
}


/// The errors a caller can see: requesting a proof of an empty tree, and
/// verifying a proof whose shape breaks the encoding contract.
#[derive(Clone, Copy, Debug, PartialEq, Eq, Structural)]
pub enum TreeError {
    EmptyTree,
    ProofMalformed,
}

/// The digest a terminal proof step stands for: the version digest of the
/// leaf found, or the default digest for an absent child.
pub open spec fn step_seed(s: ProofStep) -> Seq<u8> {
    match s {
        ProofStep::Leaf(k, c) => sha256_of(le4(c as int) + k),
        _ => default_digest(),
    }
}

/// Combines a sibling step with the running digest: the tag names the side
/// of the hash input the sibling occupies.
pub open spec fn step_combine(s: ProofStep, v: Seq<u8>) -> Seq<u8> {
    match s {
        ProofStep::Left(sib) => sha256_of(sib + v),
        ProofStep::Right(sib) => sha256_of(v + sib),
        _ => v,
    }
}

/// Folds a proof to a root digest: the last step seeds the running value and
/// each earlier step combines into it, leaf to root.
pub open spec fn fold_proof(p: Seq<ProofStep>) -> Seq<u8>
    decreases p.len(),
{
    if p.len() == 0 {
        Seq::empty()
    } else if p.len() == 1 {
        step_seed(p[0])
    } else {
        step_combine(p[0], fold_proof(p.drop_first()))
    }
}

/// The shape an honestly generated proof has: at least one step, a terminal
/// leaf (with a positive counter) or absent-child marker last, and sibling
/// steps everywhere before it.
pub open spec fn proof_wf(p: Seq<ProofStep>) -> bool {
    &&& p.len() >= 1
    &&& (match p.last() {
        ProofStep::Leaf(_, c) => c >= 1,
        ProofStep::Absent => true,
        _ => false,
    })
    &&& (forall|i: int|
        0 <= i < p.len() - 1 ==> (p[i] is Left || p[i] is Right))
}

/// Folding a suffix unrolls one combine step.
proof fn lemma_fold_unfold(p: Seq<ProofStep>, i: int)
    requires
        0 <= i < p.len() - 1,
    ensures
        fold_proof(p.subrange(i, p.len() as int)) == step_combine(
            p[i],
            fold_proof(p.subrange(i + 1, p.len() as int)),
        ),
{
    let q = p.subrange(i, p.len() as int);
    assert(q.len() >= 2);
    assert(q.drop_first() =~= p.subrange(i + 1, p.len() as int));
    assert(q[0] == p[i]);
}

/// Recomputes a root digest from a proof alone, consuming it leaf to root.
/// A proof whose shape breaks the encoding contract is reported as
/// malformed, never folded into a wrong answer.
pub fn roothash_from_proof(proof: &mut Vec<ProofNode>) -> (r: Result<Vec<u8>, TreeError>)
    ensures
        proof_wf(steps_of(old(proof)@)) ==> (r matches Ok(v) && v@ == fold_proof(
            steps_of(old(proof)@),
        )),
        !proof_wf(steps_of(old(proof)@)) ==> r == Err::<Vec<u8>, TreeError>(
            TreeError::ProofMalformed,
        ),
        r is Ok ==> final(proof)@.len() == 0,
{
    let ghost total: Seq<ProofStep> = steps_of(proof@);
    let last = match proof.pop() {
        Some(x) => x,
        None => {
            return Err(TreeError::ProofMalformed);
        },
    };
    proof {
        assert(proof@ =~= old(proof)@.subrange(0, total.len() - 1));
        assert(last@ == total.last());
    }
    let mut ans: Vec<u8> = match last {
        ProofNode::Leaf(key_hash, version) => {
            if version < 1 {
                return Err(TreeError::ProofMalformed);
            }
            let hb = hash_from_version(version, &HashBytes::new(key_hash));
            copy_bytes(hb.bytes())
        },
        ProofNode::Absent => default_hash_vec(),
        _ => {
            return Err(TreeError::ProofMalformed);
        },
    };
    proof {
        assert(total.subrange(total.len() - 1, total.len() as int) =~= seq![total.last()]);
        assert(ans@ == fold_proof(total.subrange(total.len() - 1, total.len() as int)));
    }
    while proof.len() > 0
        invariant
            total == steps_of(old(proof)@),
            proof@.len() < total.len(),
            proof@ =~= old(proof)@.subrange(0, proof@.len() as int),
            ans@ == fold_proof(total.subrange(proof@.len() as int, total.len() as int)),
            forall|j: int|
                proof@.len() <= j < total.len() - 1 ==> (total[j] is Left || total[j] is Right),
            (match total.last() {
                ProofStep::Leaf(_, c) => c >= 1,
                ProofStep::Absent => true,
                _ => false,
            }),
        decreases proof.len(),
    {
        let ghost i = proof@.len() as int;
        let node = match proof.pop() {
            Some(x) => x,
            None => {
                return Err(TreeError::ProofMalformed);
            },
        };
        proof {
            assert(proof@ =~= old(proof)@.subrange(0, i - 1));
            assert(node@ == total[i - 1]);
            lemma_fold_unfold(total, i - 1);
        }
        match node {
            ProofNode::Left(mut v) => {
                push_all(&mut v, &ans);
                ans = sha256_bytes(v.as_slice());
            },
            ProofNode::Right(v) => {
                push_all(&mut ans, &v);
                let combined = sha256_bytes(ans.as_slice());
                ans = combined;
            },
            _ => {
                proof {
                    assert(!(total[i - 1] is Left) && !(total[i - 1] is Right));
                    assert(0 <= i - 1 < total.len() - 1);
                    assert(!proof_wf(total));
                }
                return Err(TreeError::ProofMalformed);
            },
        }
    }
    proof {
        assert(total.subrange(0, total.len() as int) =~= total);
        assert(ans@ == fold_proof(total));
    }
    Ok(ans)
}


/// Every well-formed subtree holds at least one key.
pub proof fn lemma_nonempty(n: TreeNode, level: nat)
    requires
        n.wf(level),
    ensures
        exists|k: Seq<u8>| n.count_of(k) >= 1,
    decreases n,
{
    match n {
        TreeNode::Leaf { key, count, .. } => {
            assert(n.count_of(key@) >= 1);
        },
        TreeNode::Inner { left, right, .. } => {
            match left {
                Option::Some(l) => {
                    lemma_nonempty(*l, level + 1);
                    let k = choose|k: Seq<u8>| l.count_of(k) >= 1;
                    lemma_opt_count_nonneg(right, k, level + 1);
                    assert(n.count_of(k) >= 1);
                },
                Option::None => {
                    match right {
                        Option::Some(r) => {
                            lemma_nonempty(*r, level + 1);
                            let k = choose|k: Seq<u8>| r.count_of(k) >= 1;
                            lemma_opt_count_nonneg(left, k, level + 1);
                            assert(n.count_of(k) >= 1);
                        },
                        Option::None => {},
                    }
                },
            }
        },
    }
}

/// Every well-formed inner node holds at least two distinct keys.
pub proof fn lemma_two_keys(n: TreeNode, level: nat)
    requires
        n.wf(level),
        !n.is_leaf(),
    ensures
        exists|k1: Seq<u8>, k2: Seq<u8>| k1 != k2 && n.count_of(k1) >= 1 && n.count_of(k2) >= 1,
    decreases n,
{
    match n {
        TreeNode::Leaf { .. } => {},
        TreeNode::Inner { left, right, .. } => {
            match (left, right) {
                (Option::Some(l), Option::Some(r)) => {
                    lemma_nonempty(*l, level + 1);
                    lemma_nonempty(*r, level + 1);
                    let k1 = choose|k: Seq<u8>| l.count_of(k) >= 1;
                    let k2 = choose|k: Seq<u8>| r.count_of(k) >= 1;
                    assert(bit_of(k1, level as int) == 0);
                    assert(bit_of(k2, level as int) == 1);
                    lemma_opt_count_nonneg(right, k1, level + 1);
                    lemma_opt_count_nonneg(left, k2, level + 1);
                    assert(k1 != k2 && n.count_of(k1) >= 1 && n.count_of(k2) >= 1);
                },
                (Option::Some(l), Option::None) => {
                    lemma_two_keys(*l, level + 1);
                    let (k1, k2) = choose|k1: Seq<u8>, k2: Seq<u8>|
                        k1 != k2 && l.count_of(k1) >= 1 && l.count_of(k2) >= 1;
                    lemma_opt_count_nonneg(right, k1, level + 1);
                    lemma_opt_count_nonneg(right, k2, level + 1);
                    assert(k1 != k2 && n.count_of(k1) >= 1 && n.count_of(k2) >= 1);
                },
                (Option::None, Option::Some(r)) => {
                    lemma_two_keys(*r, level + 1);
                    let (k1, k2) = choose|k1: Seq<u8>, k2: Seq<u8>|
                        k1 != k2 && r.count_of(k1) >= 1 && r.count_of(k2) >= 1;
                    lemma_opt_count_nonneg(left, k1, level + 1);
                    lemma_opt_count_nonneg(left, k2, level + 1);
                    assert(k1 != k2 && n.count_of(k1) >= 1 && n.count_of(k2) >= 1);
                },
                (Option::None, Option::None) => {},
            }
        },
    }
}

/// Folding the proof emitted for a present key reproduces the subtree's
/// effective digest, and that proof has the well-formed shape.
pub proof fn lemma_proof_roundtrip(n: TreeNode, k: Seq<u8>, level: nat)
    requires
        n.wf(level),
        n.count_of(k) > 0,
    ensures
        proof_wf(n.spec_proof(k, level as int)),
        fold_proof(n.spec_proof(k, level as int)) == n.eff(),
    decreases n,
{
    let p = n.spec_proof(k, level as int);
    match n {
        TreeNode::Leaf { key, count, version_hash } => {
            assert(key@ == k);
            assert(p == seq![ProofStep::Leaf(k, count)]);
            assert(p.last() == ProofStep::Leaf(k, count));
            assert(fold_proof(p) == step_seed(p[0]));
            assert(n.eff() == version_hash@);
        },
        TreeNode::Inner { aggregate, left, right } => {
            crate::hash_structures::lemma_bit_01(k, level as int);
            lemma_opt_count_nonneg(left, k, level + 1);
            lemma_opt_count_nonneg(right, k, level + 1);
            if bit_of(k, level as int) == 0 {
                assert(TreeNode::opt_count(right, k) == 0);
                assert(TreeNode::opt_count(left, k) > 0);
                match left {
                    Option::Some(l) => {
                        lemma_proof_roundtrip(*l, k, level + 1);
                        let rec = l.spec_proof(k, level as int + 1);
                        let step = ProofStep::Right(TreeNode::opt_eff(right));
                        assert(p == seq![step] + rec);
                        assert(rec.len() >= 1);
                        assert(p.last() == rec.last());
                        assert forall|i: int| 0 <= i < p.len() - 1 implies (p[i] is Left || p[i]
                            is Right) by {
                            if i == 0 {
                                assert(p[0] == step);
                            } else {
                                assert(p[i] == rec[i - 1]);
                            }
                        }
                        assert(p.drop_first() =~= rec);
                        assert(fold_proof(p) == step_combine(step, fold_proof(rec)));
                        assert(fold_proof(rec) == l.eff());
                        assert(TreeNode::opt_eff(left) == l.eff());
                        assert(step_combine(step, l.eff()) == sha256_of(
                            TreeNode::opt_eff(left) + TreeNode::opt_eff(right),
                        ));
                        assert(n.eff() == aggregate@);
                    },
                    Option::None => {
                        assert(false);
                    },
                }
            } else {
                assert(TreeNode::opt_count(left, k) == 0);
                assert(TreeNode::opt_count(right, k) > 0);
                match right {
                    Option::Some(r) => {
                        lemma_proof_roundtrip(*r, k, level + 1);
                        let rec = r.spec_proof(k, level as int + 1);
                        let step = ProofStep::Left(TreeNode::opt_eff(left));
                        assert(p == seq![step] + rec);
                        assert(rec.len() >= 1);
                        assert(p.last() == rec.last());
                        assert forall|i: int| 0 <= i < p.len() - 1 implies (p[i] is Left || p[i]
                            is Right) by {
                            if i == 0 {
                                assert(p[0] == step);
                            } else {
                                assert(p[i] == rec[i - 1]);
                            }
                        }
                        assert(p.drop_first() =~= rec);
                        assert(fold_proof(p) == step_combine(step, fold_proof(rec)));
                        assert(fold_proof(rec) == r.eff());
                        assert(TreeNode::opt_eff(right) == r.eff());
                        assert(step_combine(step, r.eff()) == sha256_of(
                            TreeNode::opt_eff(left) + TreeNode::opt_eff(right),
                        ));
                        assert(n.eff() == aggregate@);
                    },
                    Option::None => {
                        assert(false);
                    },
                }
            }
        },
    }
}

/// The aggregate digest of two child slots: the concatenation of their
/// effective digests (the default digest for an empty slot), hashed.
pub fn hash_from_children(
    left: &Option<Box<TreeNode>>,
    right: &Option<Box<TreeNode>>,
) -> (r: HashBytes)
    requires
        TreeNode::opt_eff(*left).len() == 32,
        TreeNode::opt_eff(*right).len() == 32,
    ensures
        r@ == sha256_of(TreeNode::opt_eff(*left) + TreeNode::opt_eff(*right)),
        r@.len() == 32,
{
    let mut to_hash: Vec<u8> = match left {
        Option::Some(node) => copy_bytes(node.version_hash_raw()),
        Option::None => default_hash_vec(),
    };
    let right_bytes: Vec<u8> = match right {
        Option::Some(node) => copy_bytes(node.version_hash_raw()),
        Option::None => default_hash_vec(),
    };
    push_all(&mut to_hash, &right_bytes);
    HashBytes::new(sha256_bytes(to_hash.as_slice()))
}

} // verus!
