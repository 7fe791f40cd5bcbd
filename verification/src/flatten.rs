//! Lemmas about flattening a sequence of sequences: splitting at an index,
//! membership, emptiness, and freedom from duplicates.

use vstd::prelude::*;
use vstd::seq_lib::lemma_flatten_concat;
use vstd::seq_lib::lemma_no_dup_in_concat;

verus! {

/// Membership in a concatenation is membership in either part.
pub proof fn lemma_append_contains<A>(a: Seq<A>, b: Seq<A>, x: A)
    ensures
        (a + b).contains(x) <==> (a.contains(x) || b.contains(x)),
{
    if (a + b).contains(x) {
        let i = choose|i: int| 0 <= i < (a + b).len() && (a + b)[i] == x;
        if i < a.len() {
            assert(a[i] == x);
        } else {
            assert(b[i - a.len()] == x);
        }
    }
    if a.contains(x) {
        let i = choose|i: int| 0 <= i < a.len() && a[i] == x;
        assert((a + b)[i] == x);
    }
    if b.contains(x) {
        let i = choose|i: int| 0 <= i < b.len() && b[i] == x;
        assert((a + b)[a.len() + i] == x);
    }
}

/// A flattening splits at any boundary between inner sequences.
pub proof fn lemma_flatten_split<A>(bs: Seq<Seq<A>>, i: int)
    requires
        0 <= i <= bs.len(),
    ensures
        bs.flatten() == bs.subrange(0, i).flatten() + bs.subrange(i, bs.len() as int).flatten(),
{
    assert(bs =~= bs.subrange(0, i) + bs.subrange(i, bs.len() as int));
    lemma_flatten_concat(bs.subrange(0, i), bs.subrange(i, bs.len() as int));
}

/// A flattening decomposes around any single inner sequence.
pub proof fn lemma_flatten_elem<A>(bs: Seq<Seq<A>>, i: int)
    requires
        0 <= i < bs.len(),
    ensures
        bs.flatten() == bs.subrange(0, i).flatten() + bs[i] + bs.subrange(
            i + 1,
            bs.len() as int,
        ).flatten(),
{
    lemma_flatten_split(bs, i);
    let tail = bs.subrange(i, bs.len() as int);
    assert(tail.first() == bs[i]);
    assert(tail.drop_first() =~= bs.subrange(i + 1, bs.len() as int));
    assert(tail.flatten() == tail.first() + tail.drop_first().flatten());
    assert(bs.subrange(0, i).flatten() + (bs[i] + bs.subrange(i + 1, bs.len() as int).flatten())
        =~= bs.subrange(0, i).flatten() + bs[i] + bs.subrange(i + 1, bs.len() as int).flatten());
}

/// A flattening holds exactly the members of the inner sequences.
pub proof fn lemma_flatten_contains<A>(bs: Seq<Seq<A>>, x: A)
    ensures
        bs.flatten().contains(x) <==> exists|i: int|
            0 <= i < bs.len() && (#[trigger] bs[i]).contains(x),
    decreases bs.len(),
{
    if bs.len() == 0 {
    } else {
        let rest = bs.drop_first();
        assert(bs.flatten() == bs.first() + rest.flatten());
        lemma_append_contains(bs.first(), rest.flatten(), x);
        lemma_flatten_contains(rest, x);
        if bs.flatten().contains(x) {
            if bs.first().contains(x) {
                assert(bs[0].contains(x));
            } else {
                let i = choose|i: int| 0 <= i < rest.len() && (#[trigger] rest[i]).contains(x);
                assert(bs[i + 1].contains(x));
            }
        }
        if exists|i: int| 0 <= i < bs.len() && (#[trigger] bs[i]).contains(x) {
            let i = choose|i: int| 0 <= i < bs.len() && (#[trigger] bs[i]).contains(x);
            if i == 0 {
                assert(bs.first().contains(x));
            } else {
                assert(rest[i - 1].contains(x));
            }
        }
    }
}

/// Flattening empty inner sequences yields the empty sequence.
pub proof fn lemma_flatten_all_empty<A>(bs: Seq<Seq<A>>)
    requires
        forall|i: int| 0 <= i < bs.len() ==> (#[trigger] bs[i]).len() == 0,
    ensures
        bs.flatten() =~= Seq::<A>::empty(),
    decreases bs.len(),
{
    if bs.len() > 0 {
        let rest = bs.drop_first();
        assert(bs.flatten() == bs.first() + rest.flatten());
        assert(forall|i: int| 0 <= i < rest.len() ==> (#[trigger] rest[i]).len() == 0) by {
            assert(forall|i: int| 0 <= i < rest.len() ==> rest[i] == bs[i + 1]);
        }
        lemma_flatten_all_empty(rest);
        assert(bs.first().len() == 0) by {
            assert(bs[0].len() == 0);
        }
    }
}

/// Flattening inner sequences that are free of duplicates and pairwise
/// disjoint yields a sequence free of duplicates.
pub proof fn lemma_flatten_no_dup<A>(bs: Seq<Seq<A>>)
    requires
        forall|i: int| 0 <= i < bs.len() ==> (#[trigger] bs[i]).no_duplicates(),
        forall|i: int, j: int, ki: int, kj: int|
            0 <= i < j < bs.len() && 0 <= ki < bs[i].len() && 0 <= kj < bs[j].len() ==> (
            #[trigger] bs[i][ki]) != (#[trigger] bs[j][kj]),
    ensures
        bs.flatten().no_duplicates(),
    decreases bs.len(),
{
    if bs.len() > 0 {
        let first = bs.first();
        let rest = bs.drop_first();
        assert(bs.flatten() == first + rest.flatten());
        assert(forall|i: int| 0 <= i < rest.len() ==> rest[i] == bs[i + 1]);
        lemma_flatten_no_dup(rest);
        assert forall|p: int, q: int|
            0 <= p < first.len() && 0 <= q < rest.flatten().len() implies first[p] != rest.flatten()[q] by {
            let y = rest.flatten()[q];
            assert(rest.flatten().contains(y));
            lemma_flatten_contains(rest, y);
            let j = choose|j: int| 0 <= j < rest.len() && (#[trigger] rest[j]).contains(y);
            let kj = choose|kj: int| 0 <= kj < rest[j].len() && rest[j][kj] == y;
            assert(bs[0][p] != bs[j + 1][kj]);
        }
        lemma_no_dup_in_concat(first, rest.flatten());
    }
}

} // verus!
