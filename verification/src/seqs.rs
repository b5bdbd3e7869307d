//! Facts about filtering a sequence whose entries are ordered by a key.
use vstd::prelude::*;

verus! {

/// A filter that every entry passes changes nothing.
pub proof fn lemma_filter_keeps_all<A>(s: Seq<A>, pred: spec_fn(A) -> bool)
    requires
        forall|i: int| 0 <= i < s.len() ==> pred(#[trigger] s[i]),
    ensures
        s.filter(pred) == s,
    decreases s.len(),
{
    reveal(Seq::filter);
    if s.len() > 0 {
        lemma_filter_keeps_all(s.drop_last(), pred);
        assert(s.drop_last().push(s.last()) =~= s);
    }
}

/// A filter that no entry passes leaves nothing.
pub proof fn lemma_filter_drops_all<A>(s: Seq<A>, pred: spec_fn(A) -> bool)
    requires
        forall|i: int| 0 <= i < s.len() ==> !pred(#[trigger] s[i]),
    ensures
        s.filter(pred) == Seq::<A>::empty(),
    decreases s.len(),
{
    reveal(Seq::filter);
    if s.len() > 0 {
        lemma_filter_drops_all(s.drop_last(), pred);
    } else {
        assert(s =~= Seq::<A>::empty());
    }
}

/// A filter that exactly the entries from `k` on pass leaves those.
pub proof fn lemma_filter_suffix<A>(s: Seq<A>, pred: spec_fn(A) -> bool, k: int)
    requires
        0 <= k <= s.len(),
        forall|i: int| 0 <= i < k ==> !pred(#[trigger] s[i]),
        forall|i: int| k <= i < s.len() ==> pred(#[trigger] s[i]),
    ensures
        s.filter(pred) == s.skip(k),
{
    lemma_filter_drops_all(s.take(k), pred);
    lemma_filter_keeps_all(s.skip(k), pred);
    Seq::filter_distributes_over_add(s.take(k), s.skip(k), pred);
    assert(s.take(k) + s.skip(k) =~= s);
    assert(Seq::<A>::empty() + s.skip(k) =~= s.skip(k));
}

/// A filter that exactly the entries before `k` pass leaves those.
pub proof fn lemma_filter_prefix<A>(s: Seq<A>, pred: spec_fn(A) -> bool, k: int)
    requires
        0 <= k <= s.len(),
        forall|i: int| 0 <= i < k ==> pred(#[trigger] s[i]),
        forall|i: int| k <= i < s.len() ==> !pred(#[trigger] s[i]),
    ensures
        s.filter(pred) == s.take(k),
{
    lemma_filter_keeps_all(s.take(k), pred);
    lemma_filter_drops_all(s.skip(k), pred);
    Seq::filter_distributes_over_add(s.take(k), s.skip(k), pred);
    assert(s.take(k) + s.skip(k) =~= s);
    assert(s.take(k) + Seq::<A>::empty() =~= s.take(k));
}

/// A filter that every entry passes but the one at `k` removes that entry.
pub proof fn lemma_filter_one_out<A>(s: Seq<A>, pred: spec_fn(A) -> bool, k: int)
    requires
        0 <= k < s.len(),
        !pred(s[k]),
        forall|i: int| 0 <= i < s.len() && i != k ==> pred(#[trigger] s[i]),
    ensures
        s.filter(pred) == s.remove(k),
{
    lemma_filter_prefix(s.take(k + 1), pred, k);
    lemma_filter_keeps_all(s.skip(k + 1), pred);
    Seq::filter_distributes_over_add(s.take(k + 1), s.skip(k + 1), pred);
    assert(s.take(k + 1) + s.skip(k + 1) =~= s);
    assert(s.take(k + 1).take(k) + s.skip(k + 1) =~= s.remove(k));
}

/// Every entry that a filter leaves is an entry of the sequence that passes
/// it, and the entries left keep their order: for each pair of them there is a
/// pair of positions in the sequence, in the same order, that holds them.
pub proof fn lemma_filter_order<A>(s: Seq<A>, pred: spec_fn(A) -> bool)
    ensures
        s.filter(pred).len() <= s.len(),
        forall|i: int|
            0 <= i < s.filter(pred).len() ==> pred(#[trigger] s.filter(pred)[i]) && s.contains(
                s.filter(pred)[i],
            ),
        forall|i: int, j: int|
            0 <= i < j < s.filter(pred).len() ==> exists|a: int, b: int|
                0 <= a < b < s.len() && s[a] == #[trigger] s.filter(pred)[i] && s[b]
                    == #[trigger] s.filter(pred)[j],
    decreases s.len(),
{
    reveal(Seq::filter);
    if s.len() > 0 {
        let front = s.drop_last();
        let kept = front.filter(pred);
        lemma_filter_order(front, pred);
        assert forall|i: int| 0 <= i < s.filter(pred).len() implies pred(
            #[trigger] s.filter(pred)[i],
        ) && s.contains(s.filter(pred)[i]) by {
            if i < kept.len() {
                assert(front.contains(kept[i]));
                let a = choose|a: int| 0 <= a < front.len() && front[a] == kept[i];
                assert(s[a] == kept[i]);
            } else {
                assert(s[s.len() - 1] == s.filter(pred)[i]);
            }
        }
        assert forall|i: int, j: int| 0 <= i < j < s.filter(pred).len() implies exists|
            a: int,
            b: int,
        |
            0 <= a < b < s.len() && s[a] == #[trigger] s.filter(pred)[i] && s[b]
                == #[trigger] s.filter(pred)[j] by {
            if j < kept.len() {
                let (a, b) = choose|a: int, b: int|
                    0 <= a < b < front.len() && front[a] == kept[i] && front[b] == kept[j];
                assert(s[a] == kept[i] && s[b] == kept[j]);
            } else {
                assert(front.contains(kept[i]));
                let a = choose|a: int| 0 <= a < front.len() && front[a] == kept[i];
                assert(s[a] == kept[i] && s[s.len() - 1] == s.filter(pred)[j]);
            }
        }
    }
}

/// Where the entries that pass a filter come before all the others, the
/// filter leaves a prefix: as many entries as pass.
pub proof fn lemma_filter_leading<A>(s: Seq<A>, pred: spec_fn(A) -> bool)
    requires
        forall|i: int, j: int| 0 <= i < j < s.len() && pred(#[trigger] s[j]) ==> pred(#[trigger] s[i]),
    ensures
        s.filter(pred).len() <= s.len(),
        s.filter(pred) == s.take(s.filter(pred).len() as int),
        forall|i: int| 0 <= i < s.filter(pred).len() ==> pred(#[trigger] s[i]),
        forall|i: int| s.filter(pred).len() <= i < s.len() ==> !pred(#[trigger] s[i]),
    decreases s.len(),
{
    reveal(Seq::filter);
    if s.len() > 0 {
        let front = s.drop_last();
        assert forall|i: int, j: int| 0 <= i < j < front.len() && pred(#[trigger] front[j]) implies pred(
            #[trigger] front[i],
        ) by {
            assert(front[j] == s[j] && front[i] == s[i]);
        }
        lemma_filter_leading(front, pred);
        let k = front.filter(pred).len() as int;
        if pred(s.last()) {
            assert forall|i: int| 0 <= i < s.len() implies pred(#[trigger] s[i]) by {
                if i < s.len() - 1 {
                    assert(pred(s[s.len() - 1]));
                }
            }
            if k < front.len() {
                assert(front[k] == s[k]);
            }
            lemma_filter_keeps_all(s, pred);
            assert(s.take(s.len() as int) =~= s);
        } else {
            assert(s.filter(pred) == front.filter(pred));
            assert(front.take(k) =~= s.take(k));
            assert forall|i: int| 0 <= i < k implies pred(#[trigger] s[i]) by {
                assert(front[i] == s[i]);
            }
            assert forall|i: int| k <= i < s.len() implies !pred(#[trigger] s[i]) by {
                if i < front.len() {
                    assert(front[i] == s[i]);
                }
            }
        }
    } else {
        assert(s.take(0) =~= s);
    }
}

} // verus!
