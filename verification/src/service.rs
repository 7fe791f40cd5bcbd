//! The timestamping service: a sharded digest store beside a published
//! Merkle commitment. Freezing rebuilds the tree over the store's
//! current snapshot and stamps the moment; reads between freezes see
//! the previously published tree unchanged.

use vstd::prelude::*;
use crate::digest::Hash512;
use crate::digest::hash_bytes;
use crate::digest::Hash512Ops;
use crate::digest::pow2_usize;
use crate::hashing::random_u64;
use crate::hashing::unix_now_seconds;
use crate::merkle::MerkleTree;
use crate::merkle::path_pos;
use crate::merkle::zero_hash;
use crate::sharded::MultiThreadedHashStore;
use crate::sharded::lemma_shards_snapshot_len;
use crate::store::HashStore;

verus! {

/// A byte-serialised authentication path for leaf `j` of a tree: one
/// sibling pair per level, leaf level first.
pub open spec fn bytes_path_for(t: MerkleTree, p: Seq<(Seq<u8>, Seq<u8>)>, j: int) -> bool {
    &&& p.len() == t.depth
    &&& forall|k: int|
        0 <= k < t.depth ==> (#[trigger] p[k]).0 == hash_bytes(
            t.nodes()[2 * path_pos(t.depth, j, k + 1) + 1],
        ) && p[k].1 == hash_bytes(t.nodes()[2 * path_pos(t.depth, j, k + 1) + 2])
}

/// The service: the sharded store of salted digests and the last
/// published Merkle tree with the moment of its publication.
#[derive(Debug)]
pub struct TimestampingService<const INDEX_SIZE: usize, const PREFIX_SIZE: usize> {
    pub hash_store: MultiThreadedHashStore<INDEX_SIZE, PREFIX_SIZE>,
    pub merkle_tree: Option<MerkleTree>,
    pub last_tree_update: Option<u64>,
}

impl<const INDEX_SIZE: usize, const PREFIX_SIZE: usize> TimestampingService<
    INDEX_SIZE,
    PREFIX_SIZE,
> {
    /// The store healthy, any published tree well formed and bound to
    /// the store's salt, and a timestamp recorded exactly when a tree
    /// has been published.
    pub open spec fn wf(&self) -> bool {
        &&& self.hash_store.wf()
        &&& (self.merkle_tree matches Some(t) ==> t.wf() && t.salt@
            == self.hash_store.salt_words())
        &&& (self.merkle_tree is Some <==> self.last_tree_update is Some)
    }

    /// Starts a service with a freshly drawn random salt, the given
    /// number of worker shards, and no published tree.
    pub fn with_threads(num_threads: usize) -> (r: Self)
        requires
            HashStore::<INDEX_SIZE, PREFIX_SIZE>::params_ok(),
            exists|b: usize| b <= 28 && num_threads == pow2_usize(b),
        ensures
            r.wf(),
            r.hash_store.count() == 0,
            r.hash_store.filled() == 0,
            r.hash_store.shards().len() == num_threads,
            r.merkle_tree is None,
            r.last_tree_update is None,
    {
        let salt: Hash512 = [
            random_u64(),
            random_u64(),
            random_u64(),
            random_u64(),
            random_u64(),
            random_u64(),
            random_u64(),
            random_u64(),
        ];
        Self {
            hash_store: MultiThreadedHashStore::new(num_threads, salt),
            merkle_tree: None,
            last_tree_update: None,
        }
    }

    /// Freezes the current membership: builds a fresh Merkle tree over
    /// the store's snapshot, publishes it, and records the moment. The
    /// recorded time never moves backwards across successive freezes,
    /// and the store itself is untouched.
    pub fn update_merkle_tree(&mut self)
        requires
            old(self).wf(),
            old(self).hash_store.count() <= 0x4000_0000,
        ensures
            final(self).wf(),
            final(self).hash_store == old(self).hash_store,
            final(self).merkle_tree is Some,
            final(self).last_tree_update is Some,
            final(self).merkle_tree matches Some(t) ==> {
                &&& t.wf()
                &&& t.salt@ == old(self).hash_store.salt_words()
                &&& t.leaf_count == old(self).hash_store.snapshot().len()
                &&& (forall|i: int|
                    0 <= i < t.leaf_count ==> t.leaf(i) == old(self).hash_store.snapshot()[i])
                &&& (forall|i: int|
                    0 < t.leaf_count && t.leaf_count <= i < pow2_usize(t.depth) ==> t.leaf(i)
                        == zero_hash())
                &&& (old(self).hash_store.snapshot().len() == 0 ==> t.data@.len() == 0)
            },
            old(self).last_tree_update matches Some(t0) ==> (final(self).last_tree_update
                matches Some(t1) && t1 >= t0),
    {
        proof {
            lemma_shards_snapshot_len(self.hash_store.shards());
        }
        let snapshot_vec = self.hash_store.to_array();
        let new_tree = MerkleTree::new(snapshot_vec, self.hash_store.salt());
        self.merkle_tree = Some(new_tree);
        let now = unix_now_seconds();
        let stamp = match self.last_tree_update {
            Some(prev) => if now < prev {
                prev
            } else {
                now
            },
            None => now,
        };
        self.last_tree_update = Some(stamp);
    }

    /// The authentication path of a digest against the last published
    /// tree, each sibling serialised to bytes; nothing when no tree is
    /// published or the digest was absent at freeze time.
    pub fn get_merkle_proof(&self, hash: &Hash512) -> (r: Option<Vec<(Vec<u8>, Vec<u8>)>>)
        requires
            self.wf(),
        ensures
            r is Some <==> (self.merkle_tree matches Some(t) && exists|i: int|
                0 <= i < t.leaf_count && t.leaf(i) == t.salted(hash@)),
            r matches Some(p) ==> (self.merkle_tree matches Some(t) && exists|j: int|
                0 <= j < t.leaf_count && t.leaf(j) == t.salted(hash@) && (forall|i: int|
                    0 <= i < j ==> t.leaf(i) != t.salted(hash@)) && bytes_path_for(
                    t,
                    p.deep_view(),
                    j,
                )),
    {
        match &self.merkle_tree {
            None => None,
            Some(tree) => {
                match tree.get(hash) {
                    None => None,
                    Some(pairs) => {
                        let ghost j = choose|j: int|
                            0 <= j < tree.leaf_count && tree.leaf(j) == tree.salted(hash@) && (
                            forall|i: int| 0 <= i < j ==> tree.leaf(i) != tree.salted(hash@))
                                && tree.proof_path_for(pairs.deep_view(), j);
                        let mut out: Vec<(Vec<u8>, Vec<u8>)> = Vec::new();
                        let mut k: usize = 0;
                        while k < pairs.len()
                            invariant
                                k <= pairs@.len(),
                                out@.len() == k,
                                forall|m: int|
                                    0 <= m < k ==> (#[trigger] out.deep_view()[m]).0
                                        == hash_bytes(pairs.deep_view()[m].0)
                                        && out.deep_view()[m].1 == hash_bytes(
                                        pairs.deep_view()[m].1,
                                    ),
                            decreases pairs@.len() - k,
                        {
                            let left_bytes = pairs[k].0.to_bytes();
                            let right_bytes = pairs[k].1.to_bytes();
                            let ghost before = out.deep_view();
                            out.push((left_bytes, right_bytes));
                            proof {
                                assert(left_bytes.deep_view() =~= left_bytes@);
                                assert(right_bytes.deep_view() =~= right_bytes@);
                                assert(out.deep_view() =~= before.push(
                                    (left_bytes@, right_bytes@),
                                ));
                                assert(pairs.deep_view()[k as int].0 =~= pairs@[k as int].0@);
                                assert(pairs.deep_view()[k as int].1 =~= pairs@[k as int].1@);
                            }
                            k = k + 1;
                        }
                        proof {
                            assert(bytes_path_for(*tree, out.deep_view(), j));
                        }
                        Some(out)
                    }
                }
            }
        }
    }

    /// Every digest present at snapshot time has a leaf in the tree
    /// built over that snapshot, so a proof of membership exists for it:
    /// its path has one sibling pair per tree level.
    pub proof fn lemma_snapshot_digest_has_leaf(t: MerkleTree, snap: Seq<Seq<u64>>, x: Seq<u64>)
        requires
            t.leaf_count == snap.len(),
            forall|i: int| 0 <= i < t.leaf_count ==> t.leaf(i) == snap[i],
            snap.contains(x),
        ensures
            exists|i: int| 0 <= i < t.leaf_count && t.leaf(i) == x,
    {
        let i = choose|i: int| 0 <= i < snap.len() && snap[i] == x;
        assert(t.leaf(i) == x);
    }

    /// The root of the last published tree, serialised to bytes.
    pub fn get_merkle_tree_root_bytes(&self) -> (r: Option<Vec<u8>>)
        ensures
            r is Some <==> (self.merkle_tree matches Some(t) && t.data@.len() > 0),
            r matches Some(b) ==> (self.merkle_tree matches Some(t) && b@ == hash_bytes(
                t.root_value(),
            )),
    {
        match self.get_merkle_tree_root() {
            None => None,
            Some(root) => Some(root.to_bytes()),
        }
    }

    /// When the tree was last rebuilt, in seconds since the Unix epoch;
    /// nothing before the first freeze.
    pub fn get_last_update_timestamp(&self) -> (r: Option<u64>)
        ensures
            r == self.last_tree_update,
    {
        self.last_tree_update
    }

    /// How many nodes the last published tree holds; zero before the
    /// first freeze.
    pub fn get_merkle_tree_size(&self) -> (r: usize)
        ensures
            self.merkle_tree matches Some(t) ==> r == t.data@.len(),
            self.merkle_tree is None ==> r == 0,
    {
        match &self.merkle_tree {
            Some(tree) => tree.size(),
            None => 0,
        }
    }

    /// The root of the last published tree; nothing for an empty or
    /// unpublished tree.
    pub fn get_merkle_tree_root(&self) -> (r: Option<Hash512>)
        ensures
            r is Some <==> (self.merkle_tree matches Some(t) && t.data@.len() > 0),
            r matches Some(h) ==> (self.merkle_tree matches Some(t) && h@ == t.root_value()),
    {
        match &self.merkle_tree {
            Some(tree) => tree.root(),
            None => None,
        }
    }
}

} // verus!
