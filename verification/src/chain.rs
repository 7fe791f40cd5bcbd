//! Ordered collision chains: the linked list of digests stored in one
//! bucket, kept in strictly ascending order without duplicates.

use vstd::prelude::*;
use crate::digest::Hash512;
use crate::digest::hash_lt;
use crate::digest::hash512_eq;
use crate::digest::hash512_less;
use crate::digest::lemma_hash_lt_total;
use crate::digest::lemma_hash_lt_trans;
use crate::digest::lemma_hash_lt_irrefl;

verus! {

/// One node of a collision chain: a digest and the rest of the chain.
#[derive(Debug)]
pub struct HashLL {
    pub hash: Hash512,
    pub next: Option<Box<HashLL>>,
}

impl HashLL {
    pub fn new(hash: Hash512, next: Option<Box<HashLL>>) -> (r: Self)
        ensures
            r.hash == hash,
            r.next == next,
    {
        Self { hash, next }
    }
}

/// The digests of a chain, head first.
pub open spec fn chain_view(node: Option<Box<HashLL>>) -> Seq<Seq<u64>>
    decreases node,
{
    match node {
        None => Seq::empty(),
        Some(n) => seq![n.hash@] + chain_view(n.next),
    }
}

/// Strictly ascending: every earlier digest is below every later one.
pub open spec fn chain_sorted(c: Seq<Seq<u64>>) -> bool {
    forall|i: int, j: int| #![trigger c[i], c[j]] 0 <= i < j < c.len() ==> hash_lt(c[i], c[j])
}

/// Every entry is a full eight-word digest.
pub open spec fn all_len8(c: Seq<Seq<u64>>) -> bool {
    forall|k: int| 0 <= k < c.len() ==> (#[trigger] c[k]).len() == 8
}

/// Where a new digest lands in a chain: kept in place if present, else
/// spliced in at the unique position that keeps the chain ascending.
pub open spec fn chain_insert_spec(c: Seq<Seq<u64>>, x: Seq<u64>) -> Seq<Seq<u64>>
    decreases c.len(),
{
    if c.len() == 0 {
        seq![x]
    } else if x == c[0] {
        c
    } else if hash_lt(x, c[0]) {
        seq![x] + c
    } else {
        seq![c[0]] + chain_insert_spec(c.drop_first(), x)
    }
}

/// Membership in a chain extended at the front.
pub proof fn lemma_cons_contains(a: Seq<u64>, s: Seq<Seq<u64>>, y: Seq<u64>)
    ensures
        (seq![a] + s).contains(y) <==> (y == a || s.contains(y)),
{
    let c = seq![a] + s;
    if c.contains(y) {
        let i = choose|i: int| 0 <= i < c.len() && c[i] == y;
        if i > 0 {
            assert(s[i - 1] == y);
        }
    }
    if y == a {
        assert(c[0] == y);
    }
    if s.contains(y) {
        let i = choose|i: int| 0 <= i < s.len() && s[i] == y;
        assert(c[i + 1] == y);
    }
}

/// Chains hold eight-word digests only.
pub proof fn lemma_chain_view_len8(node: Option<Box<HashLL>>)
    ensures
        all_len8(chain_view(node)),
    decreases node,
{
    match node {
        None => {}
        Some(n) => {
            lemma_chain_view_len8(n.next);
            let c = chain_view(node);
            assert forall|k: int| 0 <= k < c.len() implies (#[trigger] c[k]).len() == 8 by {
                if k > 0 {
                    assert(c[k] == chain_view(n.next)[k - 1]);
                }
            }
        }
    }
}

/// What splicing a digest into a sorted chain yields: the chain stays
/// sorted, gains exactly the new digest, and grows only when the digest
/// was absent.
pub proof fn lemma_chain_insert_spec(c: Seq<Seq<u64>>, x: Seq<u64>)
    requires
        chain_sorted(c),
        all_len8(c),
        x.len() == 8,
    ensures
        chain_sorted(chain_insert_spec(c, x)),
        all_len8(chain_insert_spec(c, x)),
        chain_insert_spec(c, x).len() == c.len() + (if c.contains(x) {
            0int
        } else {
            1int
        }),
        forall|y: Seq<u64>| chain_insert_spec(c, x).contains(y) <==> (c.contains(y) || y == x),
    decreases c.len(),
{
    let r = chain_insert_spec(c, x);
    if c.len() == 0 {
        assert(r =~= seq![x]);
        assert(!c.contains(x));
        assert forall|y: Seq<u64>| r.contains(y) <==> (c.contains(y) || y == x) by {
            lemma_cons_contains(x, Seq::empty(), y);
            assert(r =~= seq![x] + Seq::<Seq<u64>>::empty());
        }
    } else if x == c[0] {
        assert(c.contains(x)) by {
            assert(c[0] == x);
        }
        assert forall|y: Seq<u64>| r.contains(y) <==> (c.contains(y) || y == x) by {
            if y == x {
                assert(c[0] == y);
            }
        }
    } else if hash_lt(x, c[0]) {
        assert(!c.contains(x)) by {
            if c.contains(x) {
                let i = choose|i: int| 0 <= i < c.len() && c[i] == x;
                if i == 0 {
                    lemma_hash_lt_irrefl(x, c[0]);
                } else {
                    lemma_hash_lt_trans(x, c[0], c[i]);
                    lemma_hash_lt_irrefl(x, c[i]);
                }
            }
        }
        assert(chain_sorted(r)) by {
            assert forall|i: int, j: int| 0 <= i < j < r.len() implies hash_lt(r[i], r[j]) by {
                if i == 0 {
                    assert(r[j] == c[j - 1]);
                    if j > 1 {
                        lemma_hash_lt_trans(x, c[0], c[j - 1]);
                    }
                } else {
                    assert(r[i] == c[i - 1] && r[j] == c[j - 1]);
                }
            }
        }
        assert(all_len8(r)) by {
            assert forall|k: int| 0 <= k < r.len() implies (#[trigger] r[k]).len() == 8 by {
                if k > 0 {
                    assert(r[k] == c[k - 1]);
                }
            }
        }
        assert forall|y: Seq<u64>| r.contains(y) <==> (c.contains(y) || y == x) by {
            lemma_cons_contains(x, c, y);
        }
    } else {
        let rest = c.drop_first();
        assert(c =~= seq![c[0]] + rest);
        assert(hash_lt(c[0], x)) by {
            if !hash_lt(c[0], x) {
                lemma_hash_lt_total(x, c[0]);
            }
        }
        assert(chain_sorted(rest)) by {
            assert forall|i: int, j: int| 0 <= i < j < rest.len() implies hash_lt(
                rest[i],
                rest[j],
            ) by {
                assert(rest[i] == c[i + 1] && rest[j] == c[j + 1]);
            }
        }
        assert(all_len8(rest)) by {
            assert forall|k: int| 0 <= k < rest.len() implies (#[trigger] rest[k]).len() == 8 by {
                assert(rest[k] == c[k + 1]);
            }
        }
        lemma_chain_insert_spec(rest, x);
        let rr = chain_insert_spec(rest, x);
        assert(r == seq![c[0]] + rr);
        assert forall|y: Seq<u64>| r.contains(y) <==> (c.contains(y) || y == x) by {
            lemma_cons_contains(c[0], rr, y);
            lemma_cons_contains(c[0], rest, y);
        }
        assert(c.contains(x) <==> rest.contains(x)) by {
            lemma_cons_contains(c[0], rest, x);
        }
        assert(chain_sorted(r)) by {
            assert forall|i: int, j: int| 0 <= i < j < r.len() implies hash_lt(r[i], r[j]) by {
                if i == 0 {
                    assert(r[j] == rr[j - 1]);
                    assert(rr.contains(rr[j - 1]));
                    if rest.contains(rr[j - 1]) {
                        let k = choose|k: int| 0 <= k < rest.len() && rest[k] == rr[j - 1];
                        assert(c[k + 1] == rr[j - 1]);
                        assert(hash_lt(c[0], c[k + 1]));
                    } else {
                        assert(rr[j - 1] == x);
                    }
                } else {
                    assert(r[i] == rr[i - 1] && r[j] == rr[j - 1]);
                }
            }
        }
        assert(all_len8(r)) by {
            assert forall|k: int| 0 <= k < r.len() implies (#[trigger] r[k]).len() == 8 by {
                if k > 0 {
                    assert(r[k] == rr[k - 1]);
                }
            }
        }
    }
}

/// Splices a digest into a sorted chain, reporting whether it was new.
pub fn chain_insert(node: Option<Box<HashLL>>, h: Hash512) -> (r: (Option<Box<HashLL>>, bool))
    requires
        chain_sorted(chain_view(node)),
    ensures
        chain_view(r.0) == chain_insert_spec(chain_view(node), h@),
        r.1 == !chain_view(node).contains(h@),
    decreases node,
{
    match node {
        None => {
            let out = Some(Box::new(HashLL::new(h, None)));
            proof {
                assert(chain_view(out) =~= seq![h@]);
                assert(chain_view(out) == chain_insert_spec(Seq::empty(), h@));
            }
            (out, true)
        }
        Some(n) => {
            proof {
                assert(chain_view(node) == seq![n.hash@] + chain_view(n.next));
                assert(chain_view(node)[0] == n.hash@);
            }
            if hash512_eq(&h, &n.hash) {
                proof {
                    assert(chain_view(node).contains(h@)) by {
                        assert(chain_view(node)[0] == h@);
                    }
                }
                (Some(n), false)
            } else if hash512_less(&h, &n.hash) {
                let ghost old_chain = chain_view(node);
                let out = Some(Box::new(HashLL::new(h, Some(n))));
                proof {
                    assert(chain_view(out) =~= seq![h@] + old_chain);
                    assert(!old_chain.contains(h@)) by {
                        lemma_chain_view_len8(node);
                        if old_chain.contains(h@) {
                            let i = choose|i: int|
                                0 <= i < old_chain.len() && old_chain[i] == h@;
                            if i == 0 {
                                lemma_hash_lt_irrefl(h@, old_chain[0]);
                            } else {
                                lemma_hash_lt_trans(h@, old_chain[0], old_chain[i]);
                                lemma_hash_lt_irrefl(h@, old_chain[i]);
                            }
                        }
                    }
                }
                (out, true)
            } else {
                let mut n = n;
                let ghost old_chain = chain_view(Some(n));
                let rest = n.next.take();
                proof {
                    assert(old_chain == seq![n.hash@] + chain_view(rest));
                    assert(chain_view(rest) =~= old_chain.drop_first());
                    assert(chain_sorted(chain_view(rest))) by {
                        let t = chain_view(rest);
                        assert forall|i: int, j: int| 0 <= i < j < t.len() implies hash_lt(
                            t[i],
                            t[j],
                        ) by {
                            assert(t[i] == old_chain[i + 1] && t[j] == old_chain[j + 1]);
                        }
                    }
                    assert(h@ != old_chain[0]);
                    assert(!hash_lt(h@, old_chain[0]));
                }
                let (new_rest, is_new) = chain_insert(rest, h);
                n.next = new_rest;
                let out = Some(n);
                proof {
                    assert(chain_view(out) == seq![old_chain[0]] + chain_insert_spec(
                        old_chain.drop_first(),
                        h@,
                    ));
                    assert(chain_view(out) == chain_insert_spec(old_chain, h@));
                    lemma_cons_contains(old_chain[0], old_chain.drop_first(), h@);
                    assert(old_chain =~= seq![old_chain[0]] + old_chain.drop_first());
                }
                (out, is_new)
            }
        }
    }
}

/// Walks a chain looking for a digest.
pub fn chain_contains(node: &Option<Box<HashLL>>, h: &Hash512) -> (r: bool)
    ensures
        r == chain_view(*node).contains(h@),
    decreases node,
{
    match node {
        None => {
            proof {
                assert(!chain_view(*node).contains(h@));
            }
            false
        }
        Some(n) => {
            proof {
                assert(chain_view(*node) == seq![n.hash@] + chain_view(n.next));
                assert(chain_view(*node)[0] == n.hash@);
            }
            if hash512_eq(h, &n.hash) {
                proof {
                    assert(chain_view(*node).contains(h@)) by {
                        assert(chain_view(*node)[0] == h@);
                    }
                }
                true
            } else {
                let r = chain_contains(&n.next, h);
                proof {
                    lemma_cons_contains(n.hash@, chain_view(n.next), h@);
                }
                r
            }
        }
    }
}

/// Appends a chain's digests, head first, to a vector.
pub fn chain_append(node: &Option<Box<HashLL>>, out: &mut Vec<Hash512>)
    ensures
        final(out).deep_view() == old(out).deep_view() + chain_view(*node),
    decreases node,
{
    match node {
        None => {
            proof {
                assert(out.deep_view() =~= out.deep_view() + chain_view(*node));
            }
        }
        Some(n) => {
            let ghost pre = out.deep_view();
            out.push(n.hash);
            proof {
                assert(n.hash.deep_view() =~= n.hash@);
                assert(out.deep_view() =~= pre + seq![n.hash@]);
            }
            let ghost mid = out.deep_view();
            chain_append(&n.next, out);
            proof {
                assert(out.deep_view() == mid + chain_view(n.next));
                assert(chain_view(*node) == seq![n.hash@] + chain_view(n.next));
                assert(out.deep_view() =~= pre + chain_view(*node));
            }
        }
    }
}

} // verus!
