//! The Merkle commitment: a balanced binary tree in heap layout over a
//! snapshot of digests, each internal node the combined hash of its two
//! children, padded with zero leaves up to a power of two.

use vstd::prelude::*;
use crate::digest::Hash512;
use crate::digest::pow2_usize;
use crate::digest::hash512_eq;
use crate::hashing::hash512;
use crate::hashing::sha512_pair;

verus! {

/// The all-zero digest used for padding leaves.
pub open spec fn zero_hash() -> Seq<u64> {
    Seq::new(8, |i: int| 0u64)
}

/// Doubling steps down one exponent.
pub proof fn lemma_pow2_double(m: usize)
    requires
        1 <= m <= 31,
    ensures
        pow2_usize(m) == 2 * pow2_usize((m - 1) as usize),
{
    let mm = (m - 1) as usize;
    assert((1usize << m) == 2 * (1usize << mm)) by (bit_vector)
        requires
            mm == m - 1,
            1 <= m <= 31,
    ;
}

/// Powers of two grow with the exponent.
pub proof fn lemma_pow2_le(a: usize, b: usize)
    requires
        a <= b <= 31,
    ensures
        pow2_usize(a) <= pow2_usize(b),
        pow2_usize(a) >= 1,
{
    assert((1usize << a) <= (1usize << b) && (1usize << a) >= 1) by (bit_vector)
        requires
            a <= b <= 31,
    ;
}

/// The salted, zero-padded Merkle tree over one snapshot, as a
/// heap-indexed array: the root at position 0, the children of node `k`
/// at `2k+1` and `2k+2`, the leaves in the last level.
#[derive(Debug, Clone)]
pub struct MerkleTree {
    pub data: Vec<Hash512>,
    pub salt: Hash512,
    pub depth: usize,
    pub leaf_count: usize,
}

impl MerkleTree {
    /// The node values in heap order.
    pub open spec fn nodes(&self) -> Seq<Seq<u64>> {
        self.data.deep_view()
    }

    /// Leaf `i` of the tree.
    pub open spec fn leaf(&self, i: int) -> Seq<u64> {
        self.nodes()[pow2_usize(self.depth) - 1 + i]
    }

    /// A digest after this tree's salt is mixed in.
    pub open spec fn salted(&self, h: Seq<u64>) -> Seq<u64> {
        sha512_pair(h, self.salt@)
    }

    /// The root node's value.
    pub open spec fn root_value(&self) -> Seq<u64> {
        self.nodes()[0]
    }

    /// The tree's shape and hashing discipline: an empty tree for an
    /// empty snapshot; otherwise `2^(depth+1) - 1` nodes, the depth the
    /// least that fits the leaves, and every internal node the combined
    /// hash of its two children.
    pub open spec fn wf(&self) -> bool {
        if self.leaf_count == 0 {
            &&& self.data@.len() == 0
            &&& self.depth == 0
        } else {
            &&& self.depth <= 31
            &&& self.leaf_count <= pow2_usize(self.depth)
            &&& (self.depth == 0 || pow2_usize((self.depth - 1) as usize) < self.leaf_count)
            &&& self.data@.len() == 2 * pow2_usize(self.depth) - 1
            &&& forall|k: int|
                0 <= k < pow2_usize(self.depth) - 1 ==> (#[trigger] self.nodes()[k])
                    == sha512_pair(self.nodes()[2 * k + 1], self.nodes()[2 * k + 2])
        }
    }

    /// Builds the tree over a snapshot, already salted by the store:
    /// leaves in snapshot order, zero digests as padding, every internal
    /// node hashed from its children.
    pub fn new(data: Vec<Hash512>, salt: Hash512) -> (r: Self)
        requires
            data@.len() <= 0x4000_0000,
        ensures
            r.wf(),
            r.salt == salt,
            r.leaf_count == data@.len(),
            data@.len() == 0 ==> r.data@.len() == 0 && r.depth == 0,
            forall|i: int|
                0 <= i < data@.len() ==> r.leaf(i) == (#[trigger] data.deep_view()[i]),
            forall|i: int|
                0 < data@.len() && data@.len() <= i < pow2_usize(r.depth) ==> r.leaf(i)
                    == zero_hash(),
    {
        let n = data.len();
        if n == 0 {
            return Self { data: Vec::new(), salt, depth: 0, leaf_count: 0 };
        }
        let mut depth: usize = 0;
        while (1usize << depth) < n
            invariant
                n <= 0x4000_0000,
                depth <= 31,
                depth > 0 ==> pow2_usize((depth - 1) as usize) < n,
            decreases 32 - depth,
        {
            proof {
                let d = depth;
                assert(d == 31 ==> !((1usize << d) < 0x4000_0001usize)) by (bit_vector);
            }
            depth = depth + 1;
        }
        proof {
            lemma_pow2_le(0, depth);
            if depth > 0 {
                lemma_pow2_double(depth);
                if depth - 1 >= 30 {
                    lemma_pow2_le(30, (depth - 1) as usize);
                    assert((1usize << 30usize) == 0x4000_0000usize) by (bit_vector);
                }
            }
            lemma_pow2_le(depth, 30);
            assert((1usize << 30usize) == 0x4000_0000usize) by (bit_vector);
        }
        let leaf_start = (1usize << depth) - 1;
        let tree_size = 2 * (1usize << depth) - 1;
        let mut tree: Vec<Hash512> = Vec::new();
        let zero: Hash512 = [0u64; 8];
        proof {
            broadcast use vstd::array::group_array_axioms;

            assert(zero@ =~= zero_hash());
        }
        let mut i: usize = 0;
        while i < tree_size
            invariant
                i <= tree_size,
                tree@.len() == i,
                zero@ == zero_hash(),
                forall|j: int| 0 <= j < i ==> (#[trigger] tree.deep_view()[j]) == zero_hash(),
            decreases tree_size - i,
        {
            let ghost before = tree.deep_view();
            tree.push(zero);
            proof {
                assert(zero.deep_view() =~= zero_hash());
                assert(tree.deep_view() =~= before.push(zero_hash()));
            }
            i = i + 1;
        }
        let mut i: usize = 0;
        while i < n
            invariant
                i <= n,
                n <= leaf_start + 1,
                tree@.len() == tree_size,
                tree_size == 2 * (leaf_start + 1) - 1,
                data@.len() == n,
                forall|j: int|
                    0 <= j < i ==> (#[trigger] tree.deep_view()[leaf_start + j])
                        == data.deep_view()[j],
                forall|j: int|
                    i <= j < tree_size - leaf_start ==> (#[trigger] tree.deep_view()[leaf_start
                        + j]) == zero_hash(),
                forall|j: int| 0 <= j < leaf_start ==> (#[trigger] tree.deep_view()[j])
                    == zero_hash(),
            decreases n - i,
        {
            let ghost before = tree.deep_view();
            tree[leaf_start + i] = data[i];
            proof {
                assert(tree.deep_view() =~= before.update(
                    leaf_start + i as int,
                    data.deep_view()[i as int],
                ));
            }
            i = i + 1;
        }
        let mut k: usize = leaf_start;
        while k > 0
            invariant
                k <= leaf_start,
                tree@.len() == tree_size,
                tree_size == 2 * (leaf_start + 1) - 1,
                data@.len() == n,
                n <= leaf_start + 1,
                forall|j: int|
                    0 <= j < n ==> (#[trigger] tree.deep_view()[leaf_start + j])
                        == data.deep_view()[j],
                forall|j: int|
                    n <= j < tree_size - leaf_start ==> (#[trigger] tree.deep_view()[leaf_start
                        + j]) == zero_hash(),
                forall|m: int|
                    k <= m < leaf_start ==> (#[trigger] tree.deep_view()[m]) == sha512_pair(
                        tree.deep_view()[2 * m + 1],
                        tree.deep_view()[2 * m + 2],
                    ),
            decreases k,
        {
            k = k - 1;
            let left = tree[2 * k + 1];
            let right = tree[2 * k + 2];
            proof {
                assert(left.deep_view() =~= left@);
                assert(right.deep_view() =~= right@);
                assert(left@ == tree.deep_view()[2 * (k as int) + 1]);
                assert(right@ == tree.deep_view()[2 * (k as int) + 2]);
            }
            let h = hash512(left, right);
            let ghost before = tree.deep_view();
            tree[k] = h;
            proof {
                assert(h.deep_view() =~= h@);
                assert(tree.deep_view() =~= before.update(k as int, h@));
                assert(tree.deep_view()[2 * (k as int) + 1] == before[2 * (k as int) + 1]);
                assert(tree.deep_view()[2 * (k as int) + 2] == before[2 * (k as int) + 2]);
            }
        }
        let r = Self { data: tree, salt, depth, leaf_count: n };
        proof {
            assert(pow2_usize(r.depth) - 1 == leaf_start);
            assert(forall|i: int|
                0 <= i < n ==> r.leaf(i) == (#[trigger] data.deep_view()[i]));
        }
        r
    }

    /// The root digest, absent only for the empty tree.
    pub fn root(&self) -> (r: Option<Hash512>)
        ensures
            r is Some <==> self.data@.len() > 0,
            r matches Some(h) ==> h@ == self.root_value(),
    {
        if self.data.is_empty() {
            None
        } else {
            let h = self.data[0];
            proof {
                assert(h.deep_view() == self.nodes()[0]);
                assert(h.deep_view() =~= h@);
            }
            Some(h)
        }
    }

    /// How many nodes the tree holds.
    pub fn size(&self) -> (r: usize)
        ensures
            r == self.data@.len(),
    {
        self.data.len()
    }

    /// What a returned authentication path holds for leaf `j`: one
    /// sibling pair per level, leaf level first; pair `k` holds the two
    /// children of the ancestor `k + 1` levels above the leaf.
    pub open spec fn proof_path_for(&self, p: Seq<(Seq<u64>, Seq<u64>)>, j: int) -> bool {
        &&& p.len() == self.depth
        &&& forall|k: int|
            0 <= k < self.depth ==> (#[trigger] p[k]).0 == self.nodes()[2 * path_pos(
                self.depth,
                j,
                k + 1,
            ) + 1] && p[k].1 == self.nodes()[2 * path_pos(self.depth, j, k + 1) + 2]
    }

    /// Salts the digest, finds its first leaf, and walks the sibling
    /// pairs from the leaf level to the root. Absent digests yield no
    /// path; a present digest yields one pair per level.
    pub fn get(&self, hash: &Hash512) -> (r: Option<Vec<(Hash512, Hash512)>>)
        requires
            self.wf(),
        ensures
            r is Some <==> exists|i: int|
                0 <= i < self.leaf_count && self.leaf(i) == self.salted(hash@),
            r matches Some(p) ==> exists|j: int|
                0 <= j < self.leaf_count && self.leaf(j) == self.salted(hash@) && (forall|i: int|
                    0 <= i < j ==> self.leaf(i) != self.salted(hash@)) && self.proof_path_for(
                    p.deep_view(),
                    j,
                ),
    {
        if self.leaf_count == 0 {
            return None;
        }
        let salted_hash = hash512(*hash, self.salt);
        let leaf_start = (1usize << self.depth) - 1;
        let total = self.data.len();
        proof {
            lemma_pow2_le(0, self.depth);
        }
        let mut i: usize = 0;
        let mut found = false;
        while i < self.leaf_count && !found
            invariant
                self.wf(),
                self.leaf_count > 0,
                salted_hash@ == self.salted(hash@),
                leaf_start == pow2_usize(self.depth) - 1,
                total == self.data@.len(),
                i <= self.leaf_count,
                forall|m: int| 0 <= m < i ==> self.leaf(m) != salted_hash@,
                found ==> i < self.leaf_count && self.leaf(i as int) == salted_hash@,
            decreases self.leaf_count - i + (if found {
                0int
            } else {
                1int
            }),
        {
            proof {
                assert(leaf_start + i < total);
            }
            let node = self.data[leaf_start + i];
            proof {
                assert(node.deep_view() =~= node@);
                assert(node@ == self.leaf(i as int));
            }
            if hash512_eq(&node, &salted_hash) {
                found = true;
            } else {
                i = i + 1;
            }
        }
        if !found {
            return None;
        }
        let ghost jj = i as int;
        proof {
            assert(leaf_start + i < total);
        }
        let mut current: usize = leaf_start + i;
        let mut path: Vec<(Hash512, Hash512)> = Vec::new();
        let mut k: usize = 0;
        proof {
            assert(current == path_pos(self.depth, jj, 0));
        }
        while k < self.depth
            invariant
                self.wf(),
                self.leaf_count > 0,
                salted_hash@ == self.salted(hash@),
                leaf_start == pow2_usize(self.depth) - 1,
                total == self.data@.len(),
                0 <= jj < self.leaf_count,
                self.leaf(jj) == salted_hash@,
                forall|m: int| 0 <= m < jj ==> self.leaf(m) != salted_hash@,
                k <= self.depth,
                current == path_pos(self.depth, jj, k as int),
                path@.len() == k,
                forall|m: int|
                    0 <= m < k ==> (#[trigger] path.deep_view()[m]).0 == self.nodes()[2 * path_pos(
                        self.depth,
                        jj,
                        m + 1,
                    ) + 1] && path.deep_view()[m].1 == self.nodes()[2 * path_pos(
                        self.depth,
                        jj,
                        m + 1,
                    ) + 2],
            decreases self.depth - k,
        {
            proof {
                lemma_path_pos_range(self.depth, jj, k as int);
                lemma_path_pos_range(self.depth, jj, k as int + 1);
                lemma_path_pos_child(self.depth, jj, k as int);
                lemma_pow2_double((self.depth - k) as usize);
                lemma_pow2_le((self.depth - k) as usize, self.depth);
                assert((1usize << 1usize) == 2usize) by (bit_vector);
                lemma_pow2_le(1, (self.depth - k) as usize);
                assert(current >= 1);
                assert(path_pos(self.depth, jj, k as int + 1) == (current as int - 1) / 2);
                assert(2 * path_pos(self.depth, jj, k as int + 1) + 2 < total);
            }
            let parent = (current - 1) / 2;
            let left = self.data[2 * parent + 1];
            let right = self.data[2 * parent + 2];
            let ghost before = path.deep_view();
            path.push((left, right));
            proof {
                assert(parent == path_pos(self.depth, jj, k as int + 1));
                assert(left.deep_view() =~= left@);
                assert(right.deep_view() =~= right@);
                assert(path.deep_view() =~= before.push((left@, right@)));
                assert(left@ == self.nodes()[2 * (parent as int) + 1]);
                assert(right@ == self.nodes()[2 * (parent as int) + 2]);
            }
            current = parent;
            k = k + 1;
        }
        proof {
            assert(self.proof_path_for(path.deep_view(), jj));
        }
        Some(path)
    }

    /// Verifying a returned path against the published root reproduces
    /// the root exactly: the hash of each recorded sibling pair is the
    /// ancestor one level up, which stands in the next pair, and the
    /// hash of the last pair is the root itself. The salted leaf stands
    /// in the first pair; in a single-leaf tree the root is the leaf.
    pub proof fn lemma_path_reproduces_root(&self, p: Seq<(Seq<u64>, Seq<u64>)>, j: int)
        requires
            self.wf(),
            self.leaf_count > 0,
            0 <= j < self.leaf_count,
            self.proof_path_for(p, j),
        ensures
            forall|k: int|
                0 <= k < self.depth ==> sha512_pair((#[trigger] p[k]).0, p[k].1) == self.nodes()[
                    path_pos(self.depth, j, k + 1)
                ],
            forall|k: int|
                0 <= k < self.depth - 1 ==> sha512_pair((#[trigger] p[k]).0, p[k].1) == p[k + 1].0
                    || sha512_pair(p[k].0, p[k].1) == p[k + 1].1,
            self.depth > 0 ==> sha512_pair(p[self.depth - 1].0, p[self.depth - 1].1)
                == self.root_value(),
            self.depth > 0 ==> (p[0].0 == self.leaf(j) || p[0].1 == self.leaf(j)),
            self.depth == 0 ==> self.root_value() == self.leaf(j),
    {
        let d = self.depth;
        assert(j < pow2_usize(d));
        assert forall|k: int|
            0 <= k < d implies sha512_pair((#[trigger] p[k]).0, p[k].1) == self.nodes()[path_pos(
            d,
            j,
            k + 1,
        )] by {
            lemma_path_pos_range(d, j, k + 1);
            let q = path_pos(d, j, k + 1);
            assert(2 * pow2_usize((d - k - 1) as usize) <= pow2_usize(d)) by {
                lemma_pow2_double((d - k) as usize);
                lemma_pow2_le((d - k) as usize, d);
            }
            assert(q < pow2_usize(d) - 1);
            assert(self.nodes()[q] == sha512_pair(self.nodes()[2 * q + 1], self.nodes()[2 * q + 2]));
        }
        assert forall|k: int|
            0 <= k < d - 1 implies sha512_pair((#[trigger] p[k]).0, p[k].1) == p[k + 1].0
            || sha512_pair(p[k].0, p[k].1) == p[k + 1].1 by {
            lemma_path_pos_child(d, j, k + 1);
            let q = path_pos(d, j, k + 2);
            assert(p[k + 1].0 == self.nodes()[2 * q + 1] && p[k + 1].1 == self.nodes()[2 * q + 2]);
        }
        if d > 0 {
            lemma_path_pos_range(d, j, d as int);
            assert((1usize << 0usize) == 1usize) by (bit_vector);
            assert(path_pos(d, j, d as int) == 0);
            assert(sha512_pair(p[d - 1].0, p[d - 1].1) == self.nodes()[path_pos(d, j, d as int)]);
            lemma_path_pos_child(d, j, 0);
            let q = path_pos(d, j, 1);
            assert(p[0].0 == self.nodes()[2 * q + 1] && p[0].1 == self.nodes()[2 * q + 2]);
            assert(self.nodes()[path_pos(d, j, 0)] == self.leaf(j));
        } else {
            assert((1usize << 0usize) == 1usize) by (bit_vector);
            assert(j == 0);
            assert(self.leaf(j) == self.nodes()[0]);
        }
    }
}

/// The heap position of the ancestor `k` levels above leaf `j`.
pub open spec fn path_pos(depth: usize, j: int, k: int) -> int
    decreases k,
{
    if k <= 0 {
        pow2_usize(depth) - 1 + j
    } else {
        (path_pos(depth, j, k - 1) - 1) / 2
    }
}

/// Where the ancestor `k` levels above a leaf sits: among the nodes of
/// its level in the heap layout.
pub proof fn lemma_path_pos_range(depth: usize, j: int, k: int)
    requires
        depth <= 31,
        0 <= j < pow2_usize(depth),
        0 <= k <= depth,
    ensures
        pow2_usize((depth - k) as usize) - 1 <= path_pos(depth, j, k) < 2 * pow2_usize(
            (depth - k) as usize,
        ) - 1,
    decreases k,
{
    if k == 0 {
    } else {
        lemma_path_pos_range(depth, j, k - 1);
        let m = (depth - (k - 1)) as usize;
        lemma_pow2_double(m);
    }
}

/// A node is one of the two children of its parent.
pub proof fn lemma_path_pos_child(depth: usize, j: int, k: int)
    requires
        depth <= 31,
        0 <= j < pow2_usize(depth),
        0 <= k < depth,
    ensures
        path_pos(depth, j, k) == 2 * path_pos(depth, j, k + 1) + 1 || path_pos(depth, j, k) == 2
            * path_pos(depth, j, k + 1) + 2,
{
    lemma_path_pos_range(depth, j, k);
    assert((1usize << 1usize) == 2usize) by (bit_vector);
    lemma_pow2_le(1, (depth - k) as usize);
}

} // verus!
