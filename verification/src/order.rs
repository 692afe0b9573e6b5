//! Ordering and pagination: a stable insertion sort specified as a
//! recursive function over sequences, the lemmas the search contracts
//! need about it, and the paginator applied after every sort.

use vstd::prelude::*;

use vstd::relations::{sorted_by, strongly_connected, transitive};
use vstd::seq_lib::lemma_multiset_commutative;

verus! {

/// Insert `x` into `s` behind every element that may stay before it under
/// `leq`: with a sorted `s` this keeps it sorted, and ties keep their
/// arrival order.
pub open spec fn insert_ordered<T>(s: Seq<T>, x: T, leq: spec_fn(T, T) -> bool) -> Seq<T>
    decreases s.len(),
{
    if s.len() == 0 {
        seq![x]
    } else if leq(s[0], x) {
        seq![s[0]] + insert_ordered(s.drop_first(), x, leq)
    } else {
        seq![x] + s
    }
}

/// Stable insertion sort of `s` under `leq`.
pub open spec fn sort_ordered<T>(s: Seq<T>, leq: spec_fn(T, T) -> bool) -> Seq<T>
    decreases s.len(),
{
    if s.len() == 0 {
        Seq::empty()
    } else {
        insert_ordered(sort_ordered(s.drop_last(), leq), s.last(), leq)
    }
}

/// Where `insert_ordered` puts `x`: at the first index whose element does
/// not stay before `x`.
pub proof fn lemma_insert_ordered_at<T>(s: Seq<T>, x: T, j: int, leq: spec_fn(T, T) -> bool)
    requires
        0 <= j <= s.len(),
        forall|k: int| 0 <= k < j ==> leq(#[trigger] s[k], x),
        j < s.len() ==> !leq(s[j], x),
    ensures
        insert_ordered(s, x, leq) == s.insert(j, x),
    decreases s.len(),
{
    if s.len() == 0 {
        assert(insert_ordered(s, x, leq) =~= s.insert(0, x));
    } else if j == 0 {
        assert(insert_ordered(s, x, leq) =~= s.insert(0, x));
    } else {
        lemma_insert_ordered_at(s.drop_first(), x, j - 1, leq);
        assert(seq![s[0]] + s.drop_first().insert(j - 1, x) =~= s.insert(j, x));
    }
}

/// Inserting into a sorted sequence keeps it sorted and adds exactly the
/// new element.
pub proof fn lemma_insert_ordered_ensures<T>(s: Seq<T>, x: T, leq: spec_fn(T, T) -> bool)
    requires
        strongly_connected(leq),
        transitive(leq),
        sorted_by(s, leq),
    ensures
        sorted_by(insert_ordered(s, x, leq), leq),
        insert_ordered(s, x, leq).to_multiset() =~= s.to_multiset().insert(x),
        insert_ordered(s, x, leq).len() == s.len() + 1,
    decreases s.len(),
{
    broadcast use vstd::seq_lib::group_to_multiset_ensures;

    let out = insert_ordered(s, x, leq);
    if s.len() == 0 {
        assert(out =~= Seq::empty().push(x));
        assert(out.to_multiset() =~= s.to_multiset().insert(x));
    } else if leq(s[0], x) {
        let tail = s.drop_first();
        assert(sorted_by(tail, leq)) by {
            assert(forall|i: int, j: int|
                0 <= i < j < tail.len() ==> leq(#[trigger] tail[i], #[trigger] tail[j]));
        }
        lemma_insert_ordered_ensures(tail, x, leq);
        let rest = insert_ordered(tail, x, leq);
        assert(out =~= seq![s[0]] + rest);
        // Sortedness: the head stays before everything in `rest`.
        assert forall|i: int, j: int| 0 <= i < j < out.len() implies leq(
            #[trigger] out[i],
            #[trigger] out[j],
        ) by {
            if i == 0 {
                let y = out[j];
                assert(rest[j - 1] == y);
                assert(rest.to_multiset().count(y) > 0);
                if tail.to_multiset().count(y) > 0 {
                    let k = choose|k: int| 0 <= k < tail.len() && tail[k] == y;
                    assert(leq(s[0], tail[k]));
                } else {
                    assert(y == x);
                }
            } else {
                assert(rest[i - 1] == out[i] && rest[j - 1] == out[j]);
            }
        }
        // Contents.
        assert(seq![s[0]] =~= Seq::empty().push(s[0]));
        lemma_multiset_commutative(seq![s[0]], rest);
        assert(s =~= seq![s[0]] + tail);
        lemma_multiset_commutative(seq![s[0]], tail);
        assert(out.to_multiset() =~= s.to_multiset().insert(x));
    } else {
        assert(out =~= seq![x] + s);
        assert forall|i: int, j: int| 0 <= i < j < out.len() implies leq(
            #[trigger] out[i],
            #[trigger] out[j],
        ) by {
            if i == 0 {
                // x goes before the head, hence before everything.
                assert(leq(x, s[0]));
                if j > 1 {
                    assert(leq(s[0], s[j - 1]));
                }
            } else {
                assert(out[i] == s[i - 1] && out[j] == s[j - 1]);
            }
        }
        assert(seq![x] =~= Seq::empty().push(x));
        lemma_multiset_commutative(seq![x], s);
        assert(out.to_multiset() =~= s.to_multiset().insert(x));
    }
}

/// The sort is a sorted permutation of its input.
pub proof fn lemma_sort_ordered_ensures<T>(s: Seq<T>, leq: spec_fn(T, T) -> bool)
    requires
        strongly_connected(leq),
        transitive(leq),
    ensures
        sorted_by(sort_ordered(s, leq), leq),
        sort_ordered(s, leq).to_multiset() =~= s.to_multiset(),
        sort_ordered(s, leq).len() == s.len(),
    decreases s.len(),
{
    broadcast use vstd::seq_lib::group_to_multiset_ensures;

    if s.len() > 0 {
        lemma_sort_ordered_ensures(s.drop_last(), leq);
        lemma_insert_ordered_ensures(sort_ordered(s.drop_last(), leq), s.last(), leq);
        assert(s =~= s.drop_last().push(s.last()));
        assert(s.drop_last().push(s.last()).to_multiset() =~= s.drop_last().to_multiset().insert(
            s.last(),
        ));
    }
}

/// Every element of the sort comes from the input.
pub proof fn lemma_sort_ordered_membership<T>(s: Seq<T>, leq: spec_fn(T, T) -> bool, i: int)
    requires
        strongly_connected(leq),
        transitive(leq),
        0 <= i < sort_ordered(s, leq).len(),
    ensures
        s.contains(sort_ordered(s, leq)[i]),
{
    broadcast use vstd::seq_lib::group_to_multiset_ensures;

    lemma_sort_ordered_ensures(s, leq);
    let x = sort_ordered(s, leq)[i];
    assert(sort_ordered(s, leq).contains(x));
    assert(sort_ordered(s, leq).to_multiset().count(x) > 0);
}

/// The page of `s` selected by `limit` and `offset`.
pub open spec fn page<T>(s: Seq<T>, limit: u32, offset: u32) -> Seq<T> {
    let lo = if offset as int <= s.len() {
        offset as int
    } else {
        s.len() as int
    };
    let hi = if offset as int + limit as int <= s.len() {
        offset as int + limit as int
    } else {
        s.len() as int
    };
    s.subrange(lo, hi)
}

/// Drop the first `offset` elements of `v`, then everything beyond
/// `limit`.
pub fn paginate<T>(v: &mut Vec<T>, limit: u32, offset: u32)
    ensures
        final(v)@ == page(old(v)@, limit, offset),
{
    let ghost orig = v@;
    let mut dropped: u32 = 0;
    while dropped < offset && v.len() > 0
        invariant
            dropped <= offset,
            dropped <= orig.len(),
            v@ == orig.subrange(dropped as int, orig.len() as int),
        decreases offset - dropped,
    {
        v.remove(0);
        dropped = dropped + 1;
        proof {
            assert(v@ =~= orig.subrange(dropped as int, orig.len() as int));
        }
    }
    let ghost lo = dropped as int;
    let ghost tail = orig.subrange(lo, orig.len() as int);
    proof {
        if dropped < offset {
            assert(v@.len() == 0);
        }
        assert(lo == if offset as int <= orig.len() {
            offset as int
        } else {
            orig.len() as int
        });
        assert(v@ =~= tail.subrange(0, v@.len() as int));
    }
    while v.len() > limit as usize
        invariant
            v@.len() <= tail.len(),
            v@.len() >= if limit as int <= tail.len() {
                limit as int
            } else {
                tail.len() as int
            },
            v@ == tail.subrange(0, v@.len() as int),
            tail == orig.subrange(lo, orig.len() as int),
        decreases v.len(),
    {
        v.pop();
        proof {
            assert(v@ =~= tail.subrange(0, v@.len() as int));
        }
    }
    proof {
        assert(v@.len() == if limit as int <= tail.len() {
            limit as int
        } else {
            tail.len() as int
        });
        assert(v@ =~= page(orig, limit, offset));
    }
}

} // verus!
