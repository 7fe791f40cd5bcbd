//! The shard dispatcher: routes each digest to an owning shard by the
//! leading bits of the raw digest, and aggregates counts and snapshots
//! across shards. Each shard is an independent bucket store; in the
//! service every shard is owned by one worker, and all mutation of a
//! shard happens through its owner, so this sequential model is what
//! each worker observes.

use vstd::prelude::*;
use crate::digest::Hash512;
use crate::digest::Hash512Ops;
use crate::digest::pow2_usize;
use crate::digest::spec_to_index;
use crate::flatten::lemma_flatten_all_empty;
use crate::hashing::sha512_pair;
use crate::store::HashStore;

verus! {

/// The digests of every shard in shard order.
pub open spec fn shards_snapshot<const INDEX_SIZE: usize, const PREFIX_SIZE: usize>(
    ss: Seq<HashStore<INDEX_SIZE, PREFIX_SIZE>>,
) -> Seq<Seq<u64>> {
    ss.map_values(|s: HashStore<INDEX_SIZE, PREFIX_SIZE>| s.snapshot()).flatten()
}

/// The digests held across all shards together.
pub open spec fn sum_counts<const INDEX_SIZE: usize, const PREFIX_SIZE: usize>(
    ss: Seq<HashStore<INDEX_SIZE, PREFIX_SIZE>>,
) -> nat
    decreases ss.len(),
{
    if ss.len() == 0 {
        0
    } else {
        sum_counts(ss.drop_last()) + ss.last().count()
    }
}

/// The occupied buckets across all shards together.
pub open spec fn sum_filled<const INDEX_SIZE: usize, const PREFIX_SIZE: usize>(
    ss: Seq<HashStore<INDEX_SIZE, PREFIX_SIZE>>,
) -> nat
    decreases ss.len(),
{
    if ss.len() == 0 {
        0
    } else {
        sum_filled(ss.drop_last()) + ss.last().filled()
    }
}

/// The sharded store: a power-of-two number of independent bucket
/// stores, each owning the digests whose leading bits name it.
#[derive(Debug)]
pub struct MultiThreadedHashStore<const INDEX_SIZE: usize, const PREFIX_SIZE: usize> {
    shards: Vec<HashStore<INDEX_SIZE, PREFIX_SIZE>>,
    shard_bits: usize,
    salt: Hash512,
}

impl<const INDEX_SIZE: usize, const PREFIX_SIZE: usize> MultiThreadedHashStore<
    INDEX_SIZE,
    PREFIX_SIZE,
> {
    /// The shard stores, in shard order.
    pub closed spec fn shards(&self) -> Seq<HashStore<INDEX_SIZE, PREFIX_SIZE>> {
        self.shards@
    }

    /// How many leading bits of a digest name its shard.
    pub closed spec fn bits(&self) -> usize {
        self.shard_bits
    }

    /// The shard that owns a raw digest: its leading bits.
    pub open spec fn shard_of(&self, h: Seq<u64>) -> int {
        spec_to_index(h, 0, self.bits()) as int
    }

    /// The salt shared by every shard.
    pub closed spec fn salt_words(&self) -> Seq<u64> {
        self.salt@
    }

    /// A digest after this store's salt is mixed in.
    pub open spec fn salted(&self, h: Seq<u64>) -> Seq<u64> {
        sha512_pair(h, self.salt_words())
    }

    /// Every shard well formed, sharing one salt, one shard per value of
    /// the routing bits.
    pub open spec fn wf(&self) -> bool {
        &&& HashStore::<INDEX_SIZE, PREFIX_SIZE>::params_ok()
        &&& self.bits() <= 28
        &&& self.shards().len() == pow2_usize(self.bits())
        &&& forall|i: int| 0 <= i < self.shards().len() ==> (#[trigger] self.shards()[i]).wf()
        &&& forall|i: int|
            0 <= i < self.shards().len() ==> (#[trigger] self.shards()[i]).salt()
                == self.salt_words()
    }

    /// All digests held, shard by shard.
    pub open spec fn snapshot(&self) -> Seq<Seq<u64>> {
        shards_snapshot(self.shards())
    }

    /// Digests held across all shards.
    pub open spec fn count(&self) -> nat {
        sum_counts(self.shards())
    }

    /// Occupied buckets across all shards.
    pub open spec fn filled(&self) -> nat {
        sum_filled(self.shards())
    }

    /// The salt every shard mixes into its digests.
    pub fn salt(&self) -> (r: Hash512)
        ensures
            r@ == self.salt_words(),
    {
        self.salt
    }

    /// Builds one empty shard per value of the routing bits. The shard
    /// count must be a power of two.
    pub fn new(num_threads: usize, salt: Hash512) -> (r: Self)
        requires
            HashStore::<INDEX_SIZE, PREFIX_SIZE>::params_ok(),
            exists|b: usize| b <= 28 && num_threads == pow2_usize(b),
        ensures
            r.wf(),
            r.salt_words() == salt@,
            r.shards().len() == num_threads,
            r.count() == 0,
            r.filled() == 0,
            r.snapshot() == Seq::<Seq<u64>>::empty(),
            forall|j: int|
                0 <= j < num_threads ==> (#[trigger] r.shards()[j]).count() == 0,
            forall|j: int, i: int|
                #![trigger r.shards()[j].buckets()[i]]
                0 <= j < num_threads && 0 <= i < r.shards()[j].buckets().len()
                    ==> r.shards()[j].buckets()[i].len() == 0,
    {
        let mut bits: usize = 0;
        while bits <= 28 && (1usize << bits) != num_threads
            invariant
                bits <= 29,
                forall|j: usize| j < bits ==> pow2_usize(j) != num_threads,
                exists|b: usize| b <= 28 && num_threads == pow2_usize(b),
            decreases 29 - bits,
        {
            bits = bits + 1;
        }
        proof {
            if bits > 28 {
                let b = choose|b: usize| b <= 28 && num_threads == pow2_usize(b);
                assert(pow2_usize(b) != num_threads);
                assert(false);
            }
        }
        let mut shards: Vec<HashStore<INDEX_SIZE, PREFIX_SIZE>> = Vec::new();
        let mut i: usize = 0;
        while i < num_threads
            invariant
                i <= num_threads,
                shards@.len() == i,
                HashStore::<INDEX_SIZE, PREFIX_SIZE>::params_ok(),
                forall|j: int| 0 <= j < i ==> (#[trigger] shards@[j]).wf(),
                forall|j: int| 0 <= j < i ==> (#[trigger] shards@[j]).salt() == salt@,
                forall|j: int| 0 <= j < i ==> (#[trigger] shards@[j]).count() == 0,
                forall|j: int| 0 <= j < i ==> (#[trigger] shards@[j]).filled() == 0,
                forall|j: int|
                    0 <= j < i ==> (#[trigger] shards@[j]).snapshot() == Seq::<Seq<u64>>::empty(),
                forall|j: int, b: int|
                    #![trigger shards@[j].buckets()[b]]
                    0 <= j < i && 0 <= b < shards@[j].buckets().len() ==> shards@[j].buckets()[
                        b
                    ].len() == 0,
            decreases num_threads - i,
        {
            shards.push(HashStore::new(salt));
            i = i + 1;
        }
        let r = Self { shards, shard_bits: bits, salt };
        proof {
            lemma_sums_of_empty(r.shards());
            let mapped = r.shards().map_values(
                |s: HashStore<INDEX_SIZE, PREFIX_SIZE>| s.snapshot(),
            );
            assert(forall|j: int| 0 <= j < mapped.len() ==> (#[trigger] mapped[j]).len() == 0);
            lemma_flatten_all_empty(mapped);
            assert(r.snapshot() =~= Seq::<Seq<u64>>::empty());
        }
        r
    }

    /// How one insert transforms the dispatcher: the owning shard takes
    /// one bucket-store insert step and every other shard is untouched.
    pub open spec fn add_step(pre: Self, post: Self, h: Seq<u64>) -> bool {
        &&& post.salt_words() == pre.salt_words()
        &&& post.bits() == pre.bits()
        &&& post.shards().len() == pre.shards().len()
        &&& 0 <= pre.shard_of(h) < pre.shards().len()
        &&& HashStore::<INDEX_SIZE, PREFIX_SIZE>::add_step(
            pre.shards()[pre.shard_of(h)],
            post.shards()[pre.shard_of(h)],
            h,
        )
        &&& forall|j: int|
            0 <= j < pre.shards().len() && j != pre.shard_of(h) ==> post.shards()[j]
                == pre.shards()[j]
    }

    /// A digest once inserted reads as contained: its shard now holds
    /// its salted form, and the shard a later lookup asks is that one.
    pub proof fn lemma_insert_makes_contained(pre: Self, post: Self, h: Seq<u64>)
        requires
            pre.wf(),
            Self::add_step(pre, post, h),
        ensures
            post.shards()[post.shard_of(h)].contains_hash(post.salted(h)),
    {
        let k = pre.shard_of(h);
        assert(post.shard_of(h) == k);
        assert(pre.shards()[k].salt() == pre.salt_words());
        HashStore::<INDEX_SIZE, PREFIX_SIZE>::lemma_step_membership(
            pre.shards()[k],
            post.shards()[k],
            h,
        );
        assert(pre.shards()[k].salted(h) == post.salted(h));
        assert(post.shards()[k].contains_hash(post.salted(h)));
    }

    /// Inserting a digest twice has the effect of inserting it once:
    /// after the second insert every shard holds the same chains, and
    /// the aggregated counters are unchanged.
    pub proof fn lemma_insert_idempotent(s0: Self, s1: Self, s2: Self, h: Seq<u64>)
        requires
            s0.wf(),
            Self::add_step(s0, s1, h),
            Self::add_step(s1, s2, h),
        ensures
            forall|j: int|
                0 <= j < s1.shards().len() ==> (#[trigger] s2.shards()[j]).buckets()
                    == s1.shards()[j].buckets(),
            s2.count() == s1.count(),
            s2.filled() == s1.filled(),
    {
        let k = s0.shard_of(h);
        assert(s1.shard_of(h) == k);
        assert(s0.shards()[k].wf());
        HashStore::<INDEX_SIZE, PREFIX_SIZE>::lemma_insert_idempotent(
            s0.shards()[k],
            s1.shards()[k],
            s2.shards()[k],
            h,
        );
        assert(forall|j: int|
            0 <= j < s1.shards().len() ==> (#[trigger] s2.shards()[j]).count()
                == s1.shards()[j].count());
        assert(forall|j: int|
            0 <= j < s1.shards().len() ==> (#[trigger] s2.shards()[j]).filled()
                == s1.shards()[j].filled());
        lemma_sum_counts_congruence(s1.shards(), s2.shards());
        lemma_sum_filled_congruence(s1.shards(), s2.shards());
    }

    /// What one shard holds, the whole store's snapshot holds.
    pub proof fn lemma_shard_member_in_snapshot(&self, k: int, x: Seq<u64>)
        requires
            0 <= k < self.shards().len(),
            self.shards()[k].contains_hash(x),
        ensures
            self.snapshot().contains(x),
    {
        let mapped = self.shards().map_values(
            |s: HashStore<INDEX_SIZE, PREFIX_SIZE>| s.snapshot(),
        );
        assert(mapped[k].contains(x));
        crate::flatten::lemma_flatten_contains(mapped, x);
    }

    /// The concatenated snapshot is a function of the shards alone:
    /// with no intervening mutation, two snapshots are identical.
    pub proof fn lemma_snapshot_deterministic(a: Self, b: Self)
        requires
            a.shards() == b.shards(),
        ensures
            a.snapshot() == b.snapshot(),
    {
    }

    /// Routes the digest to its shard and splices it in there; reports
    /// whether it was new. Only the owning shard changes.
    pub fn add_hash(&mut self, hash: Hash512) -> (is_new: bool)
        requires
            old(self).wf(),
            old(self).shards()[old(self).shard_of(hash@)].count() < usize::MAX,
        ensures
            final(self).wf(),
            final(self).salt_words() == old(self).salt_words(),
            final(self).bits() == old(self).bits(),
            final(self).shards().len() == old(self).shards().len(),
            HashStore::<INDEX_SIZE, PREFIX_SIZE>::add_step(
                old(self).shards()[old(self).shard_of(hash@)],
                final(self).shards()[old(self).shard_of(hash@)],
                hash@,
            ),
            forall|j: int|
                0 <= j < old(self).shards().len() && j != old(self).shard_of(hash@)
                    ==> final(self).shards()[j] == old(self).shards()[j],
            is_new == !old(self).shards()[old(self).shard_of(hash@)].contains_hash(
                old(self).salted(hash@),
            ),
            Self::add_step(*old(self), *final(self), hash@),
    {
        let thread_index = hash.to_index(0, self.shard_bits);
        proof {
            assert(thread_index < self.shards@.len());
        }
        let is_new = self.shards[thread_index].add_hash(hash);
        proof {
            assert(self.shards@ =~= old(self).shards@.update(
                thread_index as int,
                self.shards@[thread_index as int],
            ));
        }
        is_new
    }

    /// Routes the digest to its shard and looks it up there.
    pub fn contains(&self, hash: &Hash512) -> (r: bool)
        requires
            self.wf(),
        ensures
            r == self.shards()[self.shard_of(hash@)].contains_hash(self.salted(hash@)),
    {
        let thread_index = hash.to_index(0, self.shard_bits);
        proof {
            assert(thread_index < self.shards@.len());
        }
        self.shards[thread_index].contains(hash)
    }

    /// Sums the element counters of all shards.
    pub fn len(&self) -> (r: usize)
        requires
            self.wf(),
            self.count() <= usize::MAX,
        ensures
            r == self.count(),
    {
        let mut total: usize = 0;
        let mut i: usize = 0;
        proof {
            lemma_sum_counts_prefix(self.shards(), 0);
        }
        while i < self.shards.len()
            invariant
                i <= self.shards@.len(),
                self.wf(),
                self.count() <= usize::MAX,
                total == sum_counts(self.shards@.subrange(0, i as int)),
                sum_counts(self.shards@.subrange(0, i as int)) <= self.count(),
            decreases self.shards@.len() - i,
        {
            proof {
                lemma_sum_counts_step(self.shards@, i as int);
                lemma_sum_counts_prefix(self.shards@, i + 1);
            }
            total = total + self.shards[i].len();
            i = i + 1;
        }
        proof {
            assert(self.shards@.subrange(0, self.shards@.len() as int) =~= self.shards@);
        }
        total
    }

    /// Sums the occupied-bucket counters of all shards.
    pub fn occupied_slots(&self) -> (r: usize)
        requires
            self.wf(),
            self.count() <= usize::MAX,
        ensures
            r == self.filled(),
    {
        let mut total: usize = 0;
        let mut i: usize = 0;
        proof {
            lemma_sum_filled_le(self.shards@);
            lemma_sum_filled_prefix(self.shards@, 0);
        }
        while i < self.shards.len()
            invariant
                i <= self.shards@.len(),
                self.wf(),
                self.filled() <= usize::MAX,
                total == sum_filled(self.shards@.subrange(0, i as int)),
                sum_filled(self.shards@.subrange(0, i as int)) <= self.filled(),
            decreases self.shards@.len() - i,
        {
            proof {
                lemma_sum_filled_step(self.shards@, i as int);
                lemma_sum_filled_prefix(self.shards@, i + 1);
            }
            total = total + self.shards[i].occupied_slots();
            i = i + 1;
        }
        proof {
            assert(self.shards@.subrange(0, self.shards@.len() as int) =~= self.shards@);
        }
        total
    }

    /// Concatenates the snapshots of all shards, in shard order.
    pub fn to_array(&self) -> (r: Vec<Hash512>)
        requires
            self.wf(),
        ensures
            r.deep_view() == self.snapshot(),
    {
        let mut all_hashes: Vec<Hash512> = Vec::new();
        let mut i: usize = 0;
        let ghost mapped = self.shards@.map_values(
            |s: HashStore<INDEX_SIZE, PREFIX_SIZE>| s.snapshot(),
        );
        proof {
            assert(all_hashes.deep_view() =~= mapped.subrange(0, 0).flatten());
        }
        while i < self.shards.len()
            invariant
                i <= self.shards@.len(),
                self.wf(),
                mapped == self.shards@.map_values(
                    |s: HashStore<INDEX_SIZE, PREFIX_SIZE>| s.snapshot(),
                ),
                all_hashes.deep_view() == mapped.subrange(0, i as int).flatten(),
            decreases self.shards@.len() - i,
        {
            let ghost pre = all_hashes.deep_view();
            let mut part = self.shards[i].to_array();
            let ghost partd = part.deep_view();
            all_hashes.append(&mut part);
            proof {
                let ii = i as int;
                assert(all_hashes.deep_view() =~= pre + partd);
                assert(partd == mapped[ii]);
                assert(mapped.subrange(0, ii + 1) =~= mapped.subrange(0, ii) + seq![mapped[ii]]);
                vstd::seq_lib::lemma_flatten_concat(mapped.subrange(0, ii), seq![mapped[ii]]);
                seq![mapped[ii]].lemma_flatten_one_element();
                assert(seq![mapped[ii]].first() == mapped[ii]);
            }
            i = i + 1;
        }
        proof {
            assert(mapped.subrange(0, mapped.len() as int) =~= mapped);
        }
        all_hashes
    }
}

/// Together the shards hold as many digests as their counters say: the
/// concatenated snapshot has the summed length.
pub proof fn lemma_shards_snapshot_len<const INDEX_SIZE: usize, const PREFIX_SIZE: usize>(
    ss: Seq<HashStore<INDEX_SIZE, PREFIX_SIZE>>,
)
    requires
        forall|j: int| 0 <= j < ss.len() ==> (#[trigger] ss[j]).wf(),
    ensures
        shards_snapshot(ss).len() == sum_counts(ss),
    decreases ss.len(),
{
    if ss.len() > 0 {
        let n = ss.len() as int;
        let dl = ss.drop_last();
        assert(forall|j: int| 0 <= j < dl.len() ==> dl[j] == ss[j]);
        lemma_shards_snapshot_len(dl);
        let f = |s: HashStore<INDEX_SIZE, PREFIX_SIZE>| s.snapshot();
        let mapped = ss.map_values(f);
        crate::flatten::lemma_flatten_split(mapped, n - 1);
        assert(mapped.subrange(0, n - 1) =~= dl.map_values(f));
        let tail = mapped.subrange(n - 1, n);
        assert(tail.len() == 1);
        tail.lemma_flatten_one_element();
        assert(tail.first() == ss[n - 1].snapshot());
        assert(ss[n - 1].wf());
        assert(ss[n - 1].count() == ss[n - 1].snapshot().len());
    }
}

/// All-empty shards hold and occupy nothing.
proof fn lemma_sums_of_empty<const INDEX_SIZE: usize, const PREFIX_SIZE: usize>(
    ss: Seq<HashStore<INDEX_SIZE, PREFIX_SIZE>>,
)
    requires
        forall|j: int| 0 <= j < ss.len() ==> (#[trigger] ss[j]).count() == 0,
        forall|j: int| 0 <= j < ss.len() ==> (#[trigger] ss[j]).filled() == 0,
    ensures
        sum_counts(ss) == 0,
        sum_filled(ss) == 0,
    decreases ss.len(),
{
    if ss.len() > 0 {
        let dl = ss.drop_last();
        assert(forall|j: int| 0 <= j < dl.len() ==> dl[j] == ss[j]);
        lemma_sums_of_empty(dl);
    }
}

/// A prefix of the shards holds no more than all of them.
proof fn lemma_sum_counts_prefix<const INDEX_SIZE: usize, const PREFIX_SIZE: usize>(
    ss: Seq<HashStore<INDEX_SIZE, PREFIX_SIZE>>,
    i: int,
)
    requires
        0 <= i <= ss.len(),
    ensures
        sum_counts(ss.subrange(0, i)) <= sum_counts(ss),
    decreases ss.len() - i,
{
    if i == ss.len() {
        assert(ss.subrange(0, i) =~= ss);
    } else {
        lemma_sum_counts_prefix(ss, i + 1);
        lemma_sum_counts_step(ss, i);
    }
}

/// Extending a prefix by one shard adds that shard's count.
proof fn lemma_sum_counts_step<const INDEX_SIZE: usize, const PREFIX_SIZE: usize>(
    ss: Seq<HashStore<INDEX_SIZE, PREFIX_SIZE>>,
    i: int,
)
    requires
        0 <= i < ss.len(),
    ensures
        sum_counts(ss.subrange(0, i + 1)) == sum_counts(ss.subrange(0, i)) + ss[i].count(),
{
    assert(ss.subrange(0, i + 1).drop_last() =~= ss.subrange(0, i));
    assert(ss.subrange(0, i + 1).last() == ss[i]);
}

/// A prefix of the shards occupies no more than all of them.
proof fn lemma_sum_filled_prefix<const INDEX_SIZE: usize, const PREFIX_SIZE: usize>(
    ss: Seq<HashStore<INDEX_SIZE, PREFIX_SIZE>>,
    i: int,
)
    requires
        0 <= i <= ss.len(),
    ensures
        sum_filled(ss.subrange(0, i)) <= sum_filled(ss),
    decreases ss.len() - i,
{
    if i == ss.len() {
        assert(ss.subrange(0, i) =~= ss);
    } else {
        lemma_sum_filled_prefix(ss, i + 1);
        lemma_sum_filled_step(ss, i);
    }
}

/// Extending a prefix by one shard adds that shard's occupied count.
proof fn lemma_sum_filled_step<const INDEX_SIZE: usize, const PREFIX_SIZE: usize>(
    ss: Seq<HashStore<INDEX_SIZE, PREFIX_SIZE>>,
    i: int,
)
    requires
        0 <= i < ss.len(),
    ensures
        sum_filled(ss.subrange(0, i + 1)) == sum_filled(ss.subrange(0, i)) + ss[i].filled(),
{
    assert(ss.subrange(0, i + 1).drop_last() =~= ss.subrange(0, i));
    assert(ss.subrange(0, i + 1).last() == ss[i]);
}

/// Shards with pointwise equal element counters hold equal totals.
proof fn lemma_sum_counts_congruence<const INDEX_SIZE: usize, const PREFIX_SIZE: usize>(
    a: Seq<HashStore<INDEX_SIZE, PREFIX_SIZE>>,
    b: Seq<HashStore<INDEX_SIZE, PREFIX_SIZE>>,
)
    requires
        a.len() == b.len(),
        forall|j: int| 0 <= j < a.len() ==> (#[trigger] b[j]).count() == a[j].count(),
    ensures
        sum_counts(a) == sum_counts(b),
    decreases a.len(),
{
    if a.len() > 0 {
        assert(forall|j: int| 0 <= j < a.drop_last().len() ==> a.drop_last()[j] == a[j]);
        assert(forall|j: int| 0 <= j < b.drop_last().len() ==> b.drop_last()[j] == b[j]);
        lemma_sum_counts_congruence(a.drop_last(), b.drop_last());
        assert(b[a.len() - 1].count() == a[a.len() - 1].count());
    }
}

/// Shards with pointwise equal occupancy counters occupy equal totals.
proof fn lemma_sum_filled_congruence<const INDEX_SIZE: usize, const PREFIX_SIZE: usize>(
    a: Seq<HashStore<INDEX_SIZE, PREFIX_SIZE>>,
    b: Seq<HashStore<INDEX_SIZE, PREFIX_SIZE>>,
)
    requires
        a.len() == b.len(),
        forall|j: int| 0 <= j < a.len() ==> (#[trigger] b[j]).filled() == a[j].filled(),
    ensures
        sum_filled(a) == sum_filled(b),
    decreases a.len(),
{
    if a.len() > 0 {
        assert(forall|j: int| 0 <= j < a.drop_last().len() ==> a.drop_last()[j] == a[j]);
        assert(forall|j: int| 0 <= j < b.drop_last().len() ==> b.drop_last()[j] == b[j]);
        lemma_sum_filled_congruence(a.drop_last(), b.drop_last());
        assert(b[a.len() - 1].filled() == a[a.len() - 1].filled());
    }
}

/// Shards that are each well formed occupy no more buckets than they
/// hold digests.
proof fn lemma_sum_filled_le<const INDEX_SIZE: usize, const PREFIX_SIZE: usize>(
    ss: Seq<HashStore<INDEX_SIZE, PREFIX_SIZE>>,
)
    requires
        forall|j: int| 0 <= j < ss.len() ==> (#[trigger] ss[j]).wf(),
    ensures
        sum_filled(ss) <= sum_counts(ss),
    decreases ss.len(),
{
    if ss.len() > 0 {
        let dl = ss.drop_last();
        assert(forall|j: int| 0 <= j < dl.len() ==> dl[j] == ss[j]);
        lemma_sum_filled_le(dl);
        assert(ss.last().wf()) by {
            assert(ss[ss.len() - 1].wf());
        }
    }
}

} // verus!
