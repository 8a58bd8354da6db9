//! Ranking things by a number, highest first, and things of equal number in the
//! order they came in.

use vstd::prelude::*;

verus! {

/// The ranked things with one more put in its place: after all those whose number
/// is at least as high.
pub open spec fn placed<T>(s: Seq<T>, x: T, key: spec_fn(T) -> int) -> Seq<T>
    decreases s.len(),
{
    if s.len() == 0 || key(s.last()) >= key(x) {
        s.push(x)
    } else {
        placed(s.drop_last(), x, key).push(s.last())
    }
}

/// The things with the highest number first, and those of equal number in the
/// order they came in.
pub open spec fn ranked<T>(s: Seq<T>, key: spec_fn(T) -> int) -> Seq<T>
    decreases s.len(),
{
    if s.len() == 0 {
        s
    } else {
        placed(ranked(s.drop_last(), key), s.last(), key)
    }
}

/// Does the number never rise from one to the next?
pub open spec fn falling<T>(s: Seq<T>, key: spec_fn(T) -> int) -> bool {
    forall|i: int, j: int| 0 <= i < j < s.len() ==> key(#[trigger] s[i]) >= key(#[trigger] s[j])
}

/// Putting `x` where it belongs, when everything before `k` has at least its
/// number and everything from there on less.
pub proof fn lemma_placed_at<T>(s: Seq<T>, x: T, key: spec_fn(T) -> int, k: int)
    requires
        0 <= k <= s.len(),
        k > 0 ==> key(s[k - 1]) >= key(x),
        forall|i: int| k <= i < s.len() ==> key(#[trigger] s[i]) < key(x),
    ensures
        placed(s, x, key) == s.insert(k, x),
    decreases s.len(),
{
    if k == s.len() {
        assert(s.insert(k, x) =~= s.push(x));
    } else {
        let less = s.drop_last();
        assert(key(s[s.len() - 1]) < key(x));
        assert forall|i: int| k <= i < less.len() implies key(#[trigger] less[i]) < key(x) by {
            assert(less[i] == s[i]);
        }
        lemma_placed_at(less, x, key, k);
        assert(less.insert(k, x).push(s.last()) =~= s.insert(k, x));
    }
}

proof fn lemma_placed<T>(s: Seq<T>, x: T, key: spec_fn(T) -> int)
    requires
        falling(s, key),
    ensures
        falling(placed(s, x, key), key),
        placed(s, x, key).len() == s.len() + 1,
        placed(s, x, key).to_multiset() == s.to_multiset().insert(x),
        forall|i: int|
            0 <= i < placed(s, x, key).len() ==> (#[trigger] placed(s, x, key)[i]) == x
                || s.contains(placed(s, x, key)[i]),
    decreases s.len(),
{
    broadcast use vstd::seq_lib::group_to_multiset_ensures;

    if s.len() == 0 || key(s.last()) >= key(x) {
        assert forall|i: int, j: int| 0 <= i < j < s.push(x).len() implies key(
            #[trigger] s.push(x)[i],
        ) >= key(#[trigger] s.push(x)[j]) by {
            if j == s.len() {
                if i < s.len() - 1 {
                    assert(key(s[i]) >= key(s[s.len() - 1]));
                }
            }
        }
    } else {
        let less = s.drop_last();
        let last = s.last();
        lemma_placed(less, x, key);
        let head = placed(less, x, key);
        assert(s =~= less.push(last));
        assert forall|i: int| 0 <= i < head.len() implies key(#[trigger] head[i]) >= key(last) by {
            if head[i] != x {
                let k = choose|k: int| 0 <= k < less.len() && less[k] == head[i];
                assert(key(s[k]) >= key(s[s.len() - 1]));
            }
        }
        assert forall|i: int| 0 <= i < head.push(last).len() implies (
        #[trigger] head.push(last)[i]) == x || s.contains(head.push(last)[i]) by {
            if i < head.len() {
                if head[i] != x {
                    let k = choose|k: int| 0 <= k < less.len() && less[k] == head[i];
                    assert(s[k] == head[i]);
                }
            } else {
                assert(s[s.len() - 1] == last);
            }
        }
        assert(less.to_multiset().insert(x).insert(last) =~= less.to_multiset().insert(
            last,
        ).insert(x));
    }
}

/// Ranking neither loses nor invents anything, and puts the highest first.
pub proof fn law_ranking<T>(s: Seq<T>, key: spec_fn(T) -> int)
    ensures
        falling(ranked(s, key), key),
        ranked(s, key).len() == s.len(),
        ranked(s, key).to_multiset() == s.to_multiset(),
    decreases s.len(),
{
    broadcast use vstd::seq_lib::group_to_multiset_ensures;

    if s.len() > 0 {
        let less = s.drop_last();
        law_ranking(less, key);
        lemma_placed(ranked(less, key), s.last(), key);
        assert(s =~= less.push(s.last()));
    }
}

proof fn lemma_placed_keeps_ties<T>(s: Seq<T>, x: T, key: spec_fn(T) -> int, k: int)
    requires
        falling(s, key),
    ensures
        placed(s, x, key).filter(|t: T| key(t) == k) == if key(x) == k {
            s.filter(|t: T| key(t) == k).push(x)
        } else {
            s.filter(|t: T| key(t) == k)
        },
    decreases s.len(),
{
    reveal(Seq::filter);
    let same = |t: T| key(t) == k;
    if s.len() == 0 || key(s.last()) >= key(x) {
        assert(s.push(x).drop_last() =~= s);
        if s.len() == 0 {
            assert(s.filter(same) =~= Seq::<T>::empty());
        }
    } else {
        let less = s.drop_last();
        let last = s.last();
        assert forall|i: int, j: int| 0 <= i < j < less.len() implies key(#[trigger] less[i])
            >= key(#[trigger] less[j]) by {
            assert(key(s[i]) >= key(s[j]));
        }
        lemma_placed_keeps_ties(less, x, key, k);
        let head = placed(less, x, key);
        assert(head.push(last).drop_last() =~= head);
        assert(s =~= less.push(last));
        assert(head.push(last).filter(same) == if same(last) {
            head.filter(same).push(last)
        } else {
            head.filter(same)
        });
    }
}

/// Things of equal number keep the order in which they came in.
pub proof fn law_ties_keep_their_order<T>(s: Seq<T>, key: spec_fn(T) -> int, k: int)
    ensures
        ranked(s, key).filter(|t: T| key(t) == k) == s.filter(|t: T| key(t) == k),
    decreases s.len(),
{
    reveal(Seq::filter);
    if s.len() > 0 {
        let less = s.drop_last();
        law_ties_keep_their_order(less, key, k);
        law_ranking(less, key);
        lemma_placed_keeps_ties(ranked(less, key), s.last(), key, k);
    }
}

} // verus!
