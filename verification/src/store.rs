//! The prefix-indexed bucket store: `2^INDEX_SIZE` buckets of ordered
//! collision chains, holding salted digests without duplicates.

use vstd::prelude::*;
use crate::chain::HashLL;
use crate::chain::all_len8;
use crate::chain::chain_append;
use crate::chain::chain_contains;
use crate::chain::chain_insert;
use crate::chain::chain_insert_spec;
use crate::chain::chain_sorted;
use crate::chain::chain_view;
use crate::chain::lemma_chain_insert_spec;
use crate::digest::Hash512;
use crate::digest::Hash512Ops;
use crate::digest::hash_lt;
use crate::digest::lemma_hash_lt_irrefl;
use crate::digest::lemma_index_orders_hashes;
use crate::digest::spec_to_index;
use crate::flatten::lemma_flatten_all_empty;
use crate::flatten::lemma_flatten_contains;
use crate::flatten::lemma_flatten_elem;
use crate::flatten::lemma_flatten_no_dup;
use crate::hashing::hash512;
use crate::hashing::sha512_pair;

verus! {

/// How many of the buckets hold at least one digest.
pub open spec fn count_nonempty(bs: Seq<Seq<Seq<u64>>>) -> nat
    decreases bs.len(),
{
    if bs.len() == 0 {
        0
    } else {
        count_nonempty(bs.drop_last()) + (if bs.last().len() > 0 {
            1nat
        } else {
            0nat
        })
    }
}

/// Replacing one bucket changes the occupied count by the difference the
/// two chains make.
pub proof fn lemma_count_nonempty_update(bs: Seq<Seq<Seq<u64>>>, i: int, c: Seq<Seq<u64>>)
    requires
        0 <= i < bs.len(),
    ensures
        count_nonempty(bs.update(i, c)) + (if bs[i].len() > 0 {
            1nat
        } else {
            0nat
        }) == count_nonempty(bs) + (if c.len() > 0 {
            1nat
        } else {
            0nat
        }),
    decreases bs.len(),
{
    let n = bs.len() - 1;
    if i == n {
        assert(bs.update(i, c).drop_last() =~= bs.drop_last());
        assert(bs.update(i, c).last() == c);
    } else {
        assert(bs.update(i, c).drop_last() =~= bs.drop_last().update(i, c));
        assert(bs.update(i, c).last() == bs.last());
        lemma_count_nonempty_update(bs.drop_last(), i, c);
    }
}

/// No bucket is occupied when every chain is empty.
pub proof fn lemma_count_nonempty_all_empty(bs: Seq<Seq<Seq<u64>>>)
    requires
        forall|i: int| 0 <= i < bs.len() ==> (#[trigger] bs[i]).len() == 0,
    ensures
        count_nonempty(bs) == 0,
    decreases bs.len(),
{
    if bs.len() > 0 {
        assert(forall|i: int|
            0 <= i < bs.drop_last().len() ==> (#[trigger] bs.drop_last()[i]).len() == 0) by {
            assert(forall|i: int|
                0 <= i < bs.drop_last().len() ==> bs.drop_last()[i] == bs[i]);
        }
        lemma_count_nonempty_all_empty(bs.drop_last());
        assert(bs.last().len() == 0);
    }
}

/// The per-worker bucket store. Digests are salted on insert, routed to a
/// bucket by a bit slice of the salted digest, and kept in strictly
/// ascending chains without duplicates.
#[derive(Debug)]
pub struct HashStore<const INDEX_SIZE: usize, const PREFIX_SIZE: usize> {
    data: Vec<Option<Box<HashLL>>>,
    salt: Hash512,
    num_elements: usize,
    buckets_filled: usize,
}

impl<const INDEX_SIZE: usize, const PREFIX_SIZE: usize> HashStore<INDEX_SIZE, PREFIX_SIZE> {
    /// The chains of all buckets, in bucket order.
    pub closed spec fn buckets(&self) -> Seq<Seq<Seq<u64>>> {
        Seq::new(self.data@.len() as nat, |i: int| chain_view(self.data@[i]))
    }

    /// The salt mixed into every stored digest.
    pub closed spec fn salt(&self) -> Seq<u64> {
        self.salt@
    }

    /// How many digests the store holds.
    pub closed spec fn count(&self) -> nat {
        self.num_elements as nat
    }

    /// How many buckets hold at least one digest.
    pub closed spec fn filled(&self) -> nat {
        self.buckets_filled as nat
    }

    /// A digest after the salt is mixed in.
    pub open spec fn salted(&self, h: Seq<u64>) -> Seq<u64> {
        sha512_pair(h, self.salt())
    }

    /// All stored digests: bucket by bucket, chain order within buckets.
    pub open spec fn snapshot(&self) -> Seq<Seq<u64>> {
        self.buckets().flatten()
    }

    /// Whether a salted digest is stored.
    pub open spec fn contains_hash(&self, x: Seq<u64>) -> bool {
        self.snapshot().contains(x)
    }

    /// The construction parameters the store accepts.
    pub open spec fn params_ok() -> bool {
        &&& 1 <= INDEX_SIZE <= 28
        &&& PREFIX_SIZE + INDEX_SIZE <= 64
    }

    /// The bucket a salted digest belongs to.
    pub open spec fn bucket_of(x: Seq<u64>) -> int {
        spec_to_index(x, PREFIX_SIZE, INDEX_SIZE) as int
    }

    /// The store's invariant: full bucket array, ascending chains of
    /// whole digests, each digest in the bucket its bits name, counters
    /// in step with the chains.
    pub open spec fn wf(&self) -> bool {
        &&& Self::params_ok()
        &&& self.buckets().len() == (1usize << INDEX_SIZE)
        &&& forall|i: int| 0 <= i < self.buckets().len() ==> chain_sorted(#[trigger] self.buckets()[i])
        &&& forall|i: int| 0 <= i < self.buckets().len() ==> all_len8(#[trigger] self.buckets()[i])
        &&& forall|i: int, k: int|
            #![trigger self.buckets()[i][k]]
            0 <= i < self.buckets().len() && 0 <= k < self.buckets()[i].len() ==> Self::bucket_of(
                self.buckets()[i][k],
            ) == i
        &&& self.count() == self.snapshot().len()
        &&& self.filled() == count_nonempty(self.buckets())
        &&& self.filled() <= self.count()
    }

    /// Builds an empty store of `2^INDEX_SIZE` buckets.
    pub fn new(salt: Hash512) -> (r: Self)
        requires
            Self::params_ok(),
        ensures
            r.wf(),
            r.salt() == salt@,
            r.count() == 0,
            r.filled() == 0,
            r.snapshot() == Seq::<Seq<u64>>::empty(),
            forall|i: int| 0 <= i < r.buckets().len() ==> (#[trigger] r.buckets()[i]).len() == 0,
    {
        let total_buckets: usize = 1usize << INDEX_SIZE;
        let mut data: Vec<Option<Box<HashLL>>> = Vec::new();
        let mut i: usize = 0;
        while i < total_buckets
            invariant
                i <= total_buckets,
                data@.len() == i,
                forall|j: int| 0 <= j < i ==> data@[j] is None,
            decreases total_buckets - i,
        {
            data.push(None);
            i = i + 1;
        }
        let r = Self { data, salt, num_elements: 0, buckets_filled: 0 };
        proof {
            assert(forall|j: int|
                0 <= j < r.buckets().len() ==> (#[trigger] r.buckets()[j]).len() == 0);
            lemma_flatten_all_empty(r.buckets());
            lemma_count_nonempty_all_empty(r.buckets());
            assert(r.snapshot() =~= Seq::<Seq<u64>>::empty());
        }
        r
    }

    /// Salts the digest and splices it into its bucket's chain; reports
    /// whether it was new. Counters move only on a new digest, and the
    /// occupied count only when its bucket was empty.
    pub fn add_hash(&mut self, hash: Hash512) -> (is_new: bool)
        requires
            old(self).wf(),
            old(self).count() < usize::MAX,
        ensures
            final(self).wf(),
            final(self).salt() == old(self).salt(),
            is_new == !old(self).contains_hash(old(self).salted(hash@)),
            final(self).buckets() == old(self).buckets().update(
                Self::bucket_of(old(self).salted(hash@)),
                chain_insert_spec(
                    old(self).buckets()[Self::bucket_of(old(self).salted(hash@))],
                    old(self).salted(hash@),
                ),
            ),
            final(self).count() == old(self).count() + (if is_new {
                1int
            } else {
                0int
            }),
            final(self).filled() == old(self).filled() + (if old(self).buckets()[Self::bucket_of(
                old(self).salted(hash@),
            )].len() == 0 {
                1int
            } else {
                0int
            }),
            forall|y: Seq<u64>|
                final(self).contains_hash(y) <==> (old(self).contains_hash(y) || y == old(
                    self,
                ).salted(hash@)),
            Self::add_step(*old(self), *final(self), hash@),
    {
        let ghost pre = *self;
        let salted_hash = hash512(hash, self.salt);
        let ghost s = salted_hash@;
        let index = salted_hash.to_index(PREFIX_SIZE, INDEX_SIZE);
        proof {
            assert(pre.buckets().len() == self.data@.len());
            assert(Self::bucket_of(s) == index as int);
            assert(index < (1usize << INDEX_SIZE));
        }
        let was_empty = self.data[index].is_none();
        let chain = self.data[index].take();
        proof {
            assert(chain_view(chain) == pre.buckets()[index as int]);
            assert(chain_sorted(chain_view(chain)));
            assert(was_empty <==> chain_view(chain).len() == 0) by {
                if chain is Some {
                    assert(chain_view(chain)[0] == chain.unwrap().hash@);
                }
            }
            lemma_chain_insert_spec(pre.buckets()[index as int], s);
        }
        let (new_chain, is_new) = chain_insert(chain, salted_hash);
        self.data[index] = new_chain;
        if is_new {
            self.num_elements = self.num_elements + 1;
            if was_empty {
                self.buckets_filled = self.buckets_filled + 1;
            }
        }
        proof {
            let i = index as int;
            let bpre = pre.buckets();
            let bnew = chain_insert_spec(bpre[i], s);
            assert(self.data@ =~= pre.data@.update(i, new_chain));
            assert(self.buckets() =~= bpre.update(i, bnew));
            let bpost = self.buckets();

            // The snapshot changes only inside bucket `i`.
            lemma_flatten_elem(bpre, i);
            lemma_flatten_elem(bpost, i);
            assert(bpost.subrange(0, i) =~= bpre.subrange(0, i));
            assert(bpost.subrange(i + 1, bpost.len() as int) =~= bpre.subrange(
                i + 1,
                bpre.len() as int,
            ));

            // Membership in the whole store is membership in bucket `i`.
            assert(pre.contains_hash(s) <==> bpre[i].contains(s)) by {
                lemma_flatten_contains(bpre, s);
                if pre.contains_hash(s) {
                    let j = choose|j: int| 0 <= j < bpre.len() && (#[trigger] bpre[j]).contains(s);
                    let k = choose|k: int| 0 <= k < bpre[j].len() && bpre[j][k] == s;
                    assert(Self::bucket_of(bpre[j][k]) == j);
                }
            }
            assert(is_new == !pre.contains_hash(s));
            assert(was_empty ==> is_new);

            // Counters.
            assert(self.count() == pre.count() + (if is_new {
                1int
            } else {
                0int
            }));
            assert(self.snapshot().len() == pre.snapshot().len() + (if is_new {
                1int
            } else {
                0int
            }));
            lemma_count_nonempty_update(bpre, i, bnew);
            assert(bnew.len() > 0);
            assert(self.filled() == count_nonempty(bpost));

            // Membership over the whole store.
            assert forall|y: Seq<u64>|
                self.contains_hash(y) <==> (pre.contains_hash(y) || y == s) by {
                lemma_flatten_contains(bpre, y);
                lemma_flatten_contains(bpost, y);
                if self.contains_hash(y) {
                    let j = choose|j: int|
                        0 <= j < bpost.len() && (#[trigger] bpost[j]).contains(y);
                    if j == i {
                        assert(bnew.contains(y));
                    } else {
                        assert(bpre[j].contains(y));
                    }
                }
                if pre.contains_hash(y) {
                    let j = choose|j: int| 0 <= j < bpre.len() && (#[trigger] bpre[j]).contains(y);
                    if j == i {
                        assert(bnew.contains(y));
                        assert(bpost[i].contains(y));
                    } else {
                        assert(bpost[j].contains(y));
                    }
                }
                if y == s {
                    assert(bnew.contains(y));
                    assert(bpost[i].contains(y));
                }
            }

            // The invariant survives.
            assert forall|j: int, k: int|
                #![trigger bpost[j][k]]
                0 <= j < bpost.len() && 0 <= k < bpost[j].len() implies Self::bucket_of(
                bpost[j][k],
            ) == j by {
                if j == i {
                    assert(bnew.contains(bnew[k]));
                    if bpre[i].contains(bnew[k]) {
                        let k0 = choose|k0: int| 0 <= k0 < bpre[i].len() && bpre[i][k0] == bnew[k];
                        assert(Self::bucket_of(bpre[i][k0]) == i);
                    } else {
                        assert(bnew[k] == s);
                    }
                } else {
                    assert(bpost[j][k] == bpre[j][k]);
                }
            }
            assert(self.wf());
            assert(s.len() == 8);
            crate::digest::lemma_to_index_bound(s, PREFIX_SIZE, INDEX_SIZE);
            assert(Self::add_step(pre, *self, hash@));
        }
        is_new
    }

    /// How many digests the store holds.
    pub fn len(&self) -> (r: usize)
        ensures
            r == self.count(),
    {
        self.num_elements
    }

    /// How many buckets hold at least one digest.
    pub fn occupied_slots(&self) -> (r: usize)
        ensures
            r == self.filled(),
    {
        self.buckets_filled
    }

    /// Salts the digest and walks its bucket's chain.
    pub fn contains(&self, hash: &Hash512) -> (r: bool)
        requires
            self.wf(),
        ensures
            r == self.contains_hash(self.salted(hash@)),
    {
        let salted_hash = hash512(*hash, self.salt);
        let index = salted_hash.to_index(PREFIX_SIZE, INDEX_SIZE);
        proof {
            assert(self.buckets().len() == self.data@.len());
            assert(index < (1usize << INDEX_SIZE));
        }
        let r = chain_contains(&self.data[index], &salted_hash);
        proof {
            let s = salted_hash@;
            let i = index as int;
            let b = self.buckets();
            assert(chain_view(self.data@[i]) == b[i]);
            lemma_flatten_contains(b, s);
            if self.contains_hash(s) {
                let j = choose|j: int| 0 <= j < b.len() && (#[trigger] b[j]).contains(s);
                let k = choose|k: int| 0 <= k < b[j].len() && b[j][k] == s;
                assert(Self::bucket_of(b[j][k]) == j);
            }
        }
        r
    }

    /// Copies out every stored digest, bucket by bucket, chain order
    /// within buckets. With no intervening mutation, two snapshots are
    /// the same sequence.
    pub fn to_array(&self) -> (r: Vec<Hash512>)
        requires
            self.wf(),
        ensures
            r.deep_view() == self.snapshot(),
    {
        let mut hashes: Vec<Hash512> = Vec::new();
        let total = self.data.len();
        let mut i: usize = 0;
        proof {
            assert(hashes.deep_view() =~= self.buckets().subrange(0, 0).flatten());
        }
        while i < total
            invariant
                i <= total,
                total == self.data@.len(),
                hashes.deep_view() == self.buckets().subrange(0, i as int).flatten(),
            decreases total - i,
        {
            chain_append(&self.data[i], &mut hashes);
            proof {
                let b = self.buckets();
                let ii = i as int;
                assert(chain_view(self.data@[ii]) == b[ii]);
                assert(b.subrange(0, ii + 1) =~= b.subrange(0, ii) + seq![b[ii]]);
                vstd::seq_lib::lemma_flatten_concat(b.subrange(0, ii), seq![b[ii]]);
                seq![b[ii]].lemma_flatten_one_element();
                assert(seq![b[ii]].first() == b[ii]);
            }
            i = i + 1;
        }
        proof {
            assert(self.buckets().subrange(0, total as int) =~= self.buckets());
        }
        hashes
    }
}

/// Flattening chains that are each ascending and pairwise ordered across
/// chains yields an ascending sequence.
proof fn lemma_flatten_sorted(bs: Seq<Seq<Seq<u64>>>)
    requires
        forall|i: int| 0 <= i < bs.len() ==> chain_sorted(#[trigger] bs[i]),
        forall|i: int, j: int, ki: int, kj: int|
            0 <= i < j < bs.len() && 0 <= ki < bs[i].len() && 0 <= kj < bs[j].len() ==> hash_lt(
                #[trigger] bs[i][ki],
                #[trigger] bs[j][kj],
            ),
    ensures
        chain_sorted(bs.flatten()),
    decreases bs.len(),
{
    if bs.len() > 0 {
        let first = bs.first();
        let rest = bs.drop_first();
        assert(bs.flatten() == first + rest.flatten());
        assert(forall|i: int| 0 <= i < rest.len() ==> rest[i] == bs[i + 1]);
        lemma_flatten_sorted(rest);
        let f = bs.flatten();
        assert forall|p: int, q: int| 0 <= p < q < f.len() implies hash_lt(f[p], f[q]) by {
            if q < first.len() {
                assert(f[p] == first[p] && f[q] == first[q]);
                assert(bs[0][p] == first[p] && bs[0][q] == first[q]);
            } else if p >= first.len() {
                assert(f[p] == rest.flatten()[p - first.len()]);
                assert(f[q] == rest.flatten()[q - first.len()]);
            } else {
                let y = rest.flatten()[q - first.len()];
                assert(f[p] == first[p] && f[q] == y);
                assert(rest.flatten().contains(y));
                lemma_flatten_contains(rest, y);
                let j = choose|j: int| 0 <= j < rest.len() && (#[trigger] rest[j]).contains(y);
                let kj = choose|kj: int| 0 <= kj < rest[j].len() && rest[j][kj] == y;
                assert(hash_lt(bs[0][p], bs[j + 1][kj]));
            }
        }
    }
}

/// The bucket indices that hold at least one digest.
pub open spec fn occupied_indices(bs: Seq<Seq<Seq<u64>>>) -> Set<int> {
    Set::new(|i: int| 0 <= i < bs.len() && bs[i].len() > 0)
}

/// The occupied count is the cardinality of the occupied index set.
pub proof fn lemma_count_nonempty_is_card(bs: Seq<Seq<Seq<u64>>>)
    ensures
        occupied_indices(bs).finite(),
        count_nonempty(bs) == occupied_indices(bs).len(),
    decreases bs.len(),
{
    broadcast use vstd::set::group_set_axioms;

    if bs.len() == 0 {
        assert(occupied_indices(bs) =~= Set::<int>::empty());
    } else {
        let n = bs.len() - 1;
        let dl = bs.drop_last();
        lemma_count_nonempty_is_card(dl);
        assert(forall|i: int| 0 <= i < n ==> dl[i] == bs[i]);
        if bs.last().len() > 0 {
            assert(occupied_indices(bs) =~= occupied_indices(dl).insert(n));
            assert(!occupied_indices(dl).contains(n));
        } else {
            assert(occupied_indices(bs) =~= occupied_indices(dl));
        }
    }
}

impl<const INDEX_SIZE: usize, const PREFIX_SIZE: usize> HashStore<INDEX_SIZE, PREFIX_SIZE> {
    /// Within every chain each digest is strictly below the next, and no
    /// digest occurs twice anywhere in the store: distinct positions of
    /// the snapshot hold distinct digests.
    pub proof fn lemma_snapshot_distinct(&self)
        requires
            self.wf(),
        ensures
            self.snapshot().no_duplicates(),
    {
        let b = self.buckets();
        assert forall|i: int| 0 <= i < b.len() implies (#[trigger] b[i]).no_duplicates() by {
            assert forall|p: int, q: int|
                0 <= p < b[i].len() && 0 <= q < b[i].len() && p != q implies b[i][p] != b[i][q] by {
                if p < q {
                    lemma_hash_lt_irrefl(b[i][p], b[i][q]);
                } else {
                    lemma_hash_lt_irrefl(b[i][q], b[i][p]);
                }
            }
        }
        assert forall|i: int, j: int, ki: int, kj: int|
            0 <= i < j < b.len() && 0 <= ki < b[i].len() && 0 <= kj < b[j].len() implies (
        #[trigger] b[i][ki]) != (#[trigger] b[j][kj]) by {
            assert(Self::bucket_of(b[i][ki]) == i && Self::bucket_of(b[j][kj]) == j);
        }
        lemma_flatten_no_dup(b);
    }

    /// With no prefix skipped, the snapshot is globally ascending: the
    /// bucket index is the most significant slice of the digest, so
    /// bucket order, then chain order, orders the whole sequence.
    pub proof fn lemma_snapshot_sorted(&self)
        requires
            self.wf(),
            PREFIX_SIZE == 0,
        ensures
            chain_sorted(self.snapshot()),
    {
        let b = self.buckets();
        assert forall|i: int, j: int, ki: int, kj: int|
            0 <= i < j < b.len() && 0 <= ki < b[i].len() && 0 <= kj < b[j].len() implies hash_lt(
            #[trigger] b[i][ki],
            #[trigger] b[j][kj],
        ) by {
            assert(Self::bucket_of(b[i][ki]) == i && Self::bucket_of(b[j][kj]) == j);
            assert(b[i][ki].len() == 8 && b[j][kj].len() == 8);
            lemma_index_orders_hashes(b[i][ki], b[j][kj], INDEX_SIZE);
        }
        lemma_flatten_sorted(b);
    }

    /// The element counter equals the number of distinct digests held.
    pub proof fn lemma_count_is_distinct(&self)
        requires
            self.wf(),
        ensures
            self.count() == self.snapshot().to_set().len(),
    {
        self.lemma_snapshot_distinct();
        self.snapshot().unique_seq_to_set();
    }

    /// The occupied counter equals the number of distinct bucket indices
    /// holding a digest.
    pub proof fn lemma_filled_is_distinct_buckets(&self)
        requires
            self.wf(),
        ensures
            self.filled() == occupied_indices(self.buckets()).len(),
    {
        lemma_count_nonempty_is_card(self.buckets());
    }

    /// How one insert transforms the store: what `add_hash` promises of
    /// its pre- and post-state for the digest `h`.
    pub open spec fn add_step(pre: Self, post: Self, h: Seq<u64>) -> bool {
        &&& pre.salted(h).len() == 8
        &&& 0 <= Self::bucket_of(pre.salted(h)) < pre.buckets().len()
        &&& post.salt() == pre.salt()
        &&& post.buckets() == pre.buckets().update(
            Self::bucket_of(pre.salted(h)),
            chain_insert_spec(
                pre.buckets()[Self::bucket_of(pre.salted(h))],
                pre.salted(h),
            ),
        )
        &&& post.count() == pre.count() + (if pre.contains_hash(pre.salted(h)) {
            0int
        } else {
            1int
        })
        &&& post.filled() == pre.filled() + (if pre.buckets()[Self::bucket_of(
            pre.salted(h),
        )].len() == 0 {
            1int
        } else {
            0int
        })
    }

    /// Splicing a digest already present returns the chain unchanged.
    proof fn lemma_chain_insert_identity(c: Seq<Seq<u64>>, x: Seq<u64>)
        requires
            chain_sorted(c),
            all_len8(c),
            x.len() == 8,
            c.contains(x),
        ensures
            chain_insert_spec(c, x) == c,
        decreases c.len(),
    {
        if c.len() == 0 {
        } else if x == c[0] {
        } else if hash_lt(x, c[0]) {
            let i = choose|i: int| 0 <= i < c.len() && c[i] == x;
            if i == 0 {
                lemma_hash_lt_irrefl(x, c[0]);
            } else {
                crate::digest::lemma_hash_lt_trans(x, c[0], c[i]);
                lemma_hash_lt_irrefl(x, c[i]);
            }
        } else {
            let rest = c.drop_first();
            let i = choose|i: int| 0 <= i < c.len() && c[i] == x;
            assert(rest[i - 1] == x);
            assert(rest.contains(x));
            assert(chain_sorted(rest) && all_len8(rest)) by {
                assert(forall|k: int| 0 <= k < rest.len() ==> rest[k] == c[k + 1]);
            }
            Self::lemma_chain_insert_identity(rest, x);
            assert(c =~= seq![c[0]] + rest);
        }
    }

    /// Inserting a digest twice has the effect of inserting it once: the
    /// second insert leaves buckets and counters exactly as the first
    /// left them.
    pub proof fn lemma_insert_idempotent(s0: Self, s1: Self, s2: Self, h: Seq<u64>)
        requires
            s0.wf(),
            Self::add_step(s0, s1, h),
            Self::add_step(s1, s2, h),
        ensures
            s2.buckets() == s1.buckets(),
            s2.count() == s1.count(),
            s2.filled() == s1.filled(),
    {
        let x = s0.salted(h);
        let i = Self::bucket_of(x);
        let b0 = s0.buckets();
        lemma_chain_insert_spec(b0[i], x);
        let c1 = chain_insert_spec(b0[i], x);
        assert(s1.buckets()[i] == c1);
        assert(c1.contains(x));
        assert(s1.salted(h) == x);
        assert(chain_sorted(c1) && all_len8(c1));
        Self::lemma_chain_insert_identity(c1, x);
        assert(s2.buckets() =~= s1.buckets());
        assert(s1.contains_hash(x)) by {
            lemma_flatten_contains(s1.buckets(), x);
            assert(s1.buckets()[i].contains(x));
        }
        assert(s1.buckets()[i].len() > 0);
    }

    /// The snapshot is a function of the buckets alone: with no
    /// intervening mutation, two snapshots are identical.
    pub proof fn lemma_snapshot_deterministic(a: Self, b: Self)
        requires
            a.buckets() == b.buckets(),
        ensures
            a.snapshot() == b.snapshot(),
    {
    }

    /// A run of inserts from a starting store, in order.
    pub open spec fn add_run(pre: Self, hs: Seq<Seq<u64>>, post: Self) -> bool
        decreases hs.len(),
    {
        if hs.len() == 0 {
            post == pre
        } else {
            exists|mid: Self|
                #[trigger] Self::add_step(pre, mid, hs[0]) && Self::add_run(
                    mid,
                    hs.drop_first(),
                    post,
                )
        }
    }

    /// After any run of inserts, a digest reads as contained exactly when
    /// its salted form is that of some digest inserted, or was already
    /// there: inserts add exactly the salted digest and never remove.
    pub proof fn lemma_contains_after_run(pre: Self, hs: Seq<Seq<u64>>, post: Self, y: Seq<u64>)
        requires
            Self::add_run(pre, hs, post),
        ensures
            post.contains_hash(y) <==> (pre.contains_hash(y) || exists|k: int|
                0 <= k < hs.len() && y == pre.salted(#[trigger] hs[k])),
        decreases hs.len(),
    {
        if hs.len() == 0 {
        } else {
            let mid = choose|mid: Self|
                #[trigger] Self::add_step(pre, mid, hs[0]) && Self::add_run(
                    mid,
                    hs.drop_first(),
                    post,
                );
            Self::lemma_step_membership(pre, mid, hs[0]);
            Self::lemma_contains_after_run(mid, hs.drop_first(), post, y);
            assert(mid.salt() == pre.salt());
            let rest = hs.drop_first();
            assert(forall|k: int| 0 <= k < rest.len() ==> rest[k] == hs[k + 1]);
            if post.contains_hash(y) {
                if !pre.contains_hash(y) {
                    if mid.contains_hash(y) && !pre.contains_hash(y) {
                        assert(y == pre.salted(hs[0]));
                    } else {
                        let k = choose|k: int|
                            0 <= k < rest.len() && y == mid.salted(#[trigger] rest[k]);
                        assert(y == pre.salted(hs[k + 1]));
                    }
                }
            }
            if pre.contains_hash(y) {
                assert(mid.contains_hash(y));
            }
            if exists|k: int| 0 <= k < hs.len() && y == pre.salted(#[trigger] hs[k]) {
                let k = choose|k: int| 0 <= k < hs.len() && y == pre.salted(#[trigger] hs[k]);
                if k == 0 {
                    assert(mid.contains_hash(y));
                } else {
                    assert(y == mid.salted(rest[k - 1]));
                }
            }
        }
    }

    /// The salted forms of a sequence of digests, in order.
    pub open spec fn salted_seq(salt: Seq<u64>, hs: Seq<Seq<u64>>) -> Seq<Seq<u64>> {
        hs.map_values(|h: Seq<u64>| sha512_pair(h, salt))
    }

    /// The distinct salted images of a run's digests.
    pub open spec fn run_images(pre: Self, hs: Seq<Seq<u64>>) -> Set<Seq<u64>> {
        Self::salted_seq(pre.salt(), hs).to_set()
    }

    /// The salted digests a store reads as contained.
    pub open spec fn members(pre: Self) -> Set<Seq<u64>> {
        Set::new(|y: Seq<u64>| pre.contains_hash(y))
    }

    /// Membership in a run's images unrolls one digest at a time.
    proof fn lemma_run_images_unfold(pre: Self, hs: Seq<Seq<u64>>, y: Seq<u64>)
        requires
            hs.len() > 0,
        ensures
            Self::run_images(pre, hs).contains(y) <==> (y == pre.salted(hs[0])
                || Self::run_images(pre, hs.drop_first()).contains(y)),
    {
        let m = Self::salted_seq(pre.salt(), hs);
        assert(m.drop_first() =~= Self::salted_seq(pre.salt(), hs.drop_first()));
        assert(m =~= seq![m[0]] + m.drop_first());
        crate::chain::lemma_cons_contains(m[0], m.drop_first(), y);
        assert(m[0] == pre.salted(hs[0]));
    }

    /// After any run of inserts the element counter has grown by
    /// exactly the number of distinct salted digests that were new to
    /// the store: a digest counts once, however often it recurs in the
    /// run, and never when it was already held.
    pub proof fn lemma_count_after_run(pre: Self, hs: Seq<Seq<u64>>, post: Self)
        requires
            Self::add_run(pre, hs, post),
        ensures
            Self::run_images(pre, hs).difference(Self::members(pre)).finite(),
            post.count() == pre.count() + Self::run_images(pre, hs).difference(
                Self::members(pre),
            ).len(),
        decreases hs.len(),
    {
        broadcast use vstd::set::group_set_axioms;
        broadcast use vstd::seq_lib::seq_to_set_is_finite;

        if hs.len() == 0 {
            assert(Self::run_images(pre, hs).difference(Self::members(pre))
                =~= Set::<Seq<u64>>::empty()) by {
                assert(Self::salted_seq(pre.salt(), hs).len() == 0);
            }
        } else {
            let mid = choose|mid: Self|
                #[trigger] Self::add_step(pre, mid, hs[0]) && Self::add_run(
                    mid,
                    hs.drop_first(),
                    post,
                );
            let x0 = pre.salted(hs[0]);
            let rest = hs.drop_first();
            Self::lemma_step_membership(pre, mid, hs[0]);
            Self::lemma_count_after_run(mid, rest, post);
            assert(mid.salt() == pre.salt());
            assert(Self::run_images(mid, rest) == Self::run_images(pre, rest));
            assert(Self::members(mid) =~= Self::members(pre).insert(x0));
            let d_all = Self::run_images(pre, hs).difference(Self::members(pre));
            let d_rest = Self::run_images(pre, rest).difference(Self::members(mid));
            assert forall|y: Seq<u64>| true implies (Self::run_images(pre, hs).contains(y) <==> (y
                == x0 || Self::run_images(pre, rest).contains(y))) by {
                Self::lemma_run_images_unfold(pre, hs, y);
            }
            if pre.contains_hash(x0) {
                assert(mid.count() == pre.count());
                assert(d_all =~= d_rest);
            } else {
                assert(mid.count() == pre.count() + 1);
                assert(!d_rest.contains(x0));
                assert(d_all =~= d_rest.insert(x0));
                assert(d_all.len() == d_rest.len() + 1);
            }
        }
    }

    /// One insert step keeps the store well formed.
    pub proof fn lemma_step_preserves_wf(pre: Self, post: Self, h: Seq<u64>)
        requires
            pre.wf(),
            Self::add_step(pre, post, h),
        ensures
            post.wf(),
    {
        let x = pre.salted(h);
        let i = Self::bucket_of(x);
        let bpre = pre.buckets();
        let bnew = chain_insert_spec(bpre[i], x);
        let bpost = post.buckets();
        lemma_chain_insert_spec(bpre[i], x);
        assert(bpost =~= bpre.update(i, bnew));
        assert forall|j: int| 0 <= j < bpost.len() implies chain_sorted(#[trigger] bpost[j]) by {
            if j != i {
                assert(bpost[j] == bpre[j]);
            }
        }
        assert forall|j: int| 0 <= j < bpost.len() implies all_len8(#[trigger] bpost[j]) by {
            if j != i {
                assert(bpost[j] == bpre[j]);
            }
        }
        assert forall|j: int, k: int|
            #![trigger bpost[j][k]]
            0 <= j < bpost.len() && 0 <= k < bpost[j].len() implies Self::bucket_of(
            bpost[j][k],
        ) == j by {
            if j == i {
                assert(bnew.contains(bnew[k]));
                if bpre[i].contains(bnew[k]) {
                    let k0 = choose|k0: int| 0 <= k0 < bpre[i].len() && bpre[i][k0] == bnew[k];
                    assert(Self::bucket_of(bpre[i][k0]) == i);
                } else {
                    assert(bnew[k] == x);
                }
            } else {
                assert(bpost[j][k] == bpre[j][k]);
            }
        }
        lemma_flatten_elem(bpre, i);
        lemma_flatten_elem(bpost, i);
        assert(bpost.subrange(0, i) =~= bpre.subrange(0, i));
        assert(bpost.subrange(i + 1, bpost.len() as int) =~= bpre.subrange(
            i + 1,
            bpre.len() as int,
        ));
        assert(pre.contains_hash(x) <==> bpre[i].contains(x)) by {
            lemma_flatten_contains(bpre, x);
            if pre.contains_hash(x) {
                let j = choose|j: int| 0 <= j < bpre.len() && (#[trigger] bpre[j]).contains(x);
                let k = choose|k: int| 0 <= k < bpre[j].len() && bpre[j][k] == x;
                assert(Self::bucket_of(bpre[j][k]) == j);
            }
        }
        lemma_count_nonempty_update(bpre, i, bnew);
        assert(bnew.len() > 0);
        if bpre[i].len() == 0 {
            assert(!bpre[i].contains(x));
        }
    }

    /// A run of inserts keeps the store well formed.
    pub proof fn lemma_run_preserves_wf(pre: Self, hs: Seq<Seq<u64>>, post: Self)
        requires
            pre.wf(),
            Self::add_run(pre, hs, post),
        ensures
            post.wf(),
        decreases hs.len(),
    {
        if hs.len() > 0 {
            let mid = choose|mid: Self|
                #[trigger] Self::add_step(pre, mid, hs[0]) && Self::add_run(
                    mid,
                    hs.drop_first(),
                    post,
                );
            Self::lemma_step_preserves_wf(pre, mid, hs[0]);
            Self::lemma_run_preserves_wf(mid, hs.drop_first(), post);
        }
    }

    /// One insert step adds exactly the salted digest to the membership,
    /// and removes nothing.
    pub proof fn lemma_step_membership(pre: Self, post: Self, h: Seq<u64>)
        requires
            Self::add_step(pre, post, h),
        ensures
            forall|y: Seq<u64>|
                post.contains_hash(y) <==> (pre.contains_hash(y) || y == pre.salted(h)),
    {
        let x = pre.salted(h);
        let i = Self::bucket_of(x);
        let b0 = pre.buckets();
        let b1 = post.buckets();
        assert forall|y: Seq<u64>|
            post.contains_hash(y) <==> (pre.contains_hash(y) || y == x) by {
            lemma_flatten_contains(b0, y);
            lemma_flatten_contains(b1, y);
            lemma_chain_insert_spec_membership(b0[i], x, y);
            if post.contains_hash(y) {
                let j = choose|j: int| 0 <= j < b1.len() && (#[trigger] b1[j]).contains(y);
                if j == i {
                } else {
                    assert(b0[j].contains(y));
                }
            }
            if pre.contains_hash(y) {
                let j = choose|j: int| 0 <= j < b0.len() && (#[trigger] b0[j]).contains(y);
                if j == i {
                    assert(b1[i].contains(y));
                } else {
                    assert(b1[j].contains(y));
                }
            }
            if y == x {
                assert(b1[i].contains(y));
            }
        }
    }
}

/// Membership in a spliced chain, with no well-formedness assumed: the
/// spliced chain holds the old digests and the new one, nothing else.
proof fn lemma_chain_insert_spec_membership(c: Seq<Seq<u64>>, x: Seq<u64>, y: Seq<u64>)
    ensures
        chain_insert_spec(c, x).contains(y) <==> (c.contains(y) || y == x),
    decreases c.len(),
{
    let r = chain_insert_spec(c, x);
    if c.len() == 0 {
        assert(r =~= seq![x]);
        if r.contains(y) {
            let i = choose|i: int| 0 <= i < r.len() && r[i] == y;
            assert(y == x);
        }
        if y == x {
            assert(r[0] == y);
        }
    } else if x == c[0] {
        if y == x {
            assert(c[0] == y);
        }
    } else if hash_lt(x, c[0]) {
        crate::flatten::lemma_append_contains(seq![x], c, y);
        if seq![x].contains(y) {
            assert(seq![x][0] == x);
            let i = choose|i: int| 0 <= i < 1 && seq![x][i] == y;
            assert(y == x);
        }
        if y == x {
            assert(seq![x][0] == y);
        }
    } else {
        let rest = c.drop_first();
        lemma_chain_insert_spec_membership(rest, x, y);
        crate::flatten::lemma_append_contains(seq![c[0]], chain_insert_spec(rest, x), y);
        crate::flatten::lemma_append_contains(seq![c[0]], rest, y);
        assert(c =~= seq![c[0]] + rest);
        assert(seq![c[0]].contains(y) <==> y == c[0]) by {
            if seq![c[0]].contains(y) {
                let i = choose|i: int| 0 <= i < 1 && seq![c[0]][i] == y;
            }
            if y == c[0] {
                assert(seq![c[0]][0] == y);
            }
        }
    }
}

} // verus!
