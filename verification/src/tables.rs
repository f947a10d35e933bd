//! Facts about selecting rows from a sequence with `Seq::filter`, shared by
//! all relations of the bookshelf.

use vstd::prelude::*;

verus! {

/// Selecting from a sequence extended by one row.
pub proof fn lemma_filter_push<T>(s: Seq<T>, pred: spec_fn(T) -> bool, x: T)
    ensures
        s.push(x).filter(pred) == if pred(x) {
            s.filter(pred).push(x)
        } else {
            s.filter(pred)
        },
{
    reveal(Seq::filter);
    assert(s.push(x).drop_last() =~= s);
}

/// Selecting from the first `i + 1` rows, given the selection from the
/// first `i`.
pub proof fn lemma_filter_take<T>(s: Seq<T>, pred: spec_fn(T) -> bool, i: int)
    requires
        0 <= i < s.len(),
    ensures
        s.take(i + 1).filter(pred) == if pred(s[i]) {
            s.take(i).filter(pred).push(s[i])
        } else {
            s.take(i).filter(pred)
        },
{
    assert(s.take(i + 1) =~= s.take(i).push(s[i]));
    lemma_filter_push(s.take(i), pred, s[i]);
}

/// A selection that every row passes is the whole sequence.
pub proof fn lemma_filter_all<T>(s: Seq<T>, pred: spec_fn(T) -> bool)
    requires
        forall|i: int| 0 <= i < s.len() ==> pred(#[trigger] s[i]),
    ensures
        s.filter(pred) == s,
    decreases s.len(),
{
    reveal(Seq::filter);
    if s.len() > 0 {
        lemma_filter_all(s.drop_last(), pred);
        assert(s.drop_last().push(s.last()) =~= s);
    }
}

/// A selection that no row passes is empty.
pub proof fn lemma_filter_none<T>(s: Seq<T>, pred: spec_fn(T) -> bool)
    requires
        forall|i: int| 0 <= i < s.len() ==> !pred(#[trigger] s[i]),
    ensures
        s.filter(pred) == Seq::<T>::empty(),
    decreases s.len(),
{
    reveal(Seq::filter);
    if s.len() > 0 {
        lemma_filter_none(s.drop_last(), pred);
    }
}

/// Selecting from a sequence splits at any position.
pub proof fn lemma_filter_split<T>(s: Seq<T>, pred: spec_fn(T) -> bool, p: int)
    requires
        0 <= p <= s.len(),
    ensures
        s.filter(pred) == s.take(p).filter(pred) + s.skip(p).filter(pred),
{
    assert(s =~= s.take(p) + s.skip(p));
    Seq::filter_distributes_over_add(s.take(p), s.skip(p), pred);
}

/// Selecting from a sequence into which one row was inserted.
pub proof fn lemma_filter_insert<T>(s: Seq<T>, pred: spec_fn(T) -> bool, p: int, x: T)
    requires
        0 <= p <= s.len(),
    ensures
        s.insert(p, x).filter(pred) == s.take(p).filter(pred) + (if pred(x) {
            seq![x]
        } else {
            Seq::empty()
        }) + s.skip(p).filter(pred),
{
    assert(s.insert(p, x) =~= s.take(p).push(x) + s.skip(p));
    Seq::filter_distributes_over_add(s.take(p).push(x), s.skip(p), pred);
    lemma_filter_push(s.take(p), pred, x);
    assert(s.take(p).filter(pred).push(x) =~= s.take(p).filter(pred) + seq![x]);
    assert(s.take(p).filter(pred) =~= s.take(p).filter(pred) + Seq::<T>::empty());
}

/// When exactly the row at `k` fails the selection, selecting removes it.
pub proof fn lemma_filter_remove<T>(s: Seq<T>, keep: spec_fn(T) -> bool, k: int)
    requires
        0 <= k < s.len(),
        !keep(s[k]),
        forall|j: int| 0 <= j < s.len() && j != k ==> keep(#[trigger] s[j]),
    ensures
        s.filter(keep) == s.remove(k),
{
    let head = s.take(k);
    let tail = s.skip(k + 1);
    assert(s =~= head.push(s[k]) + tail);
    Seq::filter_distributes_over_add(head.push(s[k]), tail, keep);
    lemma_filter_push(head, keep, s[k]);
    assert forall|i: int| 0 <= i < head.len() implies keep(#[trigger] head[i]) by {
        assert(head[i] == s[i]);
    }
    assert forall|i: int| 0 <= i < tail.len() implies keep(#[trigger] tail[i]) by {
        assert(tail[i] == s[i + k + 1]);
    }
    lemma_filter_all(head, keep);
    lemma_filter_all(tail, keep);
    assert(s.remove(k) =~= head + tail);
}

/// When exactly the row at `k` passes the selection, it is all that is
/// selected.
pub proof fn lemma_filter_single<T>(s: Seq<T>, pred: spec_fn(T) -> bool, k: int)
    requires
        0 <= k < s.len(),
        pred(s[k]),
        forall|j: int| 0 <= j < s.len() && j != k ==> !pred(#[trigger] s[j]),
    ensures
        s.filter(pred) == seq![s[k]],
{
    let head = s.take(k);
    let tail = s.skip(k + 1);
    assert(s =~= head.push(s[k]) + tail);
    Seq::filter_distributes_over_add(head.push(s[k]), tail, pred);
    lemma_filter_push(head, pred, s[k]);
    assert forall|i: int| 0 <= i < head.len() implies !pred(#[trigger] head[i]) by {
        assert(head[i] == s[i]);
    }
    assert forall|i: int| 0 <= i < tail.len() implies !pred(#[trigger] tail[i]) by {
        assert(tail[i] == s[i + k + 1]);
    }
    lemma_filter_none(head, pred);
    lemma_filter_none(tail, pred);
    assert(s.filter(pred) =~= seq![s[k]]);
}

/// The first row that passes the selection is the first row selected.
pub proof fn lemma_filter_first<T>(s: Seq<T>, pred: spec_fn(T) -> bool, k: int)
    requires
        0 <= k < s.len(),
        pred(s[k]),
        forall|j: int| 0 <= j < k ==> !pred(#[trigger] s[j]),
    ensures
        s.filter(pred).len() > 0,
        s.filter(pred)[0] == s[k],
{
    let head = s.take(k);
    let tail = s.skip(k + 1);
    assert(s =~= head.push(s[k]) + tail);
    Seq::filter_distributes_over_add(head.push(s[k]), tail, pred);
    lemma_filter_push(head, pred, s[k]);
    assert forall|i: int| 0 <= i < head.len() implies !pred(#[trigger] head[i]) by {
        assert(head[i] == s[i]);
    }
    lemma_filter_none(head, pred);
}

/// Selecting twice, the second time more narrowly, is selecting narrowly at
/// once.
pub proof fn lemma_filter_filter<T>(s: Seq<T>, keep: spec_fn(T) -> bool, pred: spec_fn(T) -> bool)
    requires
        forall|x: T| #[trigger] pred(x) ==> keep(x),
    ensures
        s.filter(keep).filter(pred) == s.filter(pred),
    decreases s.len(),
{
    if s.len() == 0 {
        lemma_filter_none(s, keep);
        lemma_filter_none(s, pred);
        lemma_filter_none(Seq::<T>::empty(), pred);
    } else {
        let rest = s.drop_last();
        lemma_filter_filter(rest, keep, pred);
        assert(rest.push(s.last()) =~= s);
        lemma_filter_push(rest, keep, s.last());
        lemma_filter_push(rest, pred, s.last());
        if keep(s.last()) {
            lemma_filter_push(rest.filter(keep), pred, s.last());
        }
    }
}

/// The rows selected from `s` are rows of `s` that pass, in their order in
/// `s`, and every row that passes is among them: the result gives, for each
/// selected row, its position in `s`.
pub proof fn lemma_filter_indices<T>(s: Seq<T>, pred: spec_fn(T) -> bool) -> (idx: Seq<int>)
    ensures
        idx.len() == s.filter(pred).len(),
        forall|i: int|
            0 <= i < idx.len() ==> 0 <= #[trigger] idx[i] < s.len() && s.filter(pred)[i]
                == s[idx[i]] && pred(s[idx[i]]),
        forall|i: int, j: int| 0 <= i < j < idx.len() ==> #[trigger] idx[i] < #[trigger] idx[j],
        forall|k: int| 0 <= k < s.len() && pred(#[trigger] s[k]) ==> idx.contains(k),
    decreases s.len(),
{
    reveal(Seq::filter);
    if s.len() == 0 {
        Seq::empty()
    } else {
        let before = lemma_filter_indices(s.drop_last(), pred);
        let idx = if pred(s.last()) {
            before.push(s.len() - 1)
        } else {
            before
        };
        assert forall|k: int| 0 <= k < s.len() && pred(#[trigger] s[k]) implies idx.contains(
            k,
        ) by {
            if k < s.len() - 1 {
                assert(s.drop_last()[k] == s[k]);
                assert(before.contains(k));
                let w = choose|w: int| 0 <= w < before.len() && before[w] == k;
                assert(idx[w] == k);
            } else {
                assert(idx[idx.len() - 1] == k);
            }
        }
        idx
    }
}

/// When the rows that pass come before all the rows that fail, the
/// selection is a leading piece of the sequence.
pub proof fn lemma_filter_prefix<T>(s: Seq<T>, pred: spec_fn(T) -> bool)
    requires
        forall|i: int, j: int|
            0 <= i < j < s.len() && pred(#[trigger] s[j]) ==> pred(#[trigger] s[i]),
    ensures
        s.filter(pred) == s.take(s.filter(pred).len() as int),
        s.filter(pred).len() <= s.len(),
        forall|j: int| s.filter(pred).len() <= j < s.len() ==> !pred(#[trigger] s[j]),
    decreases s.len(),
{
    reveal(Seq::filter);
    if s.len() > 0 {
        if pred(s.last()) {
            assert forall|i: int| 0 <= i < s.len() implies pred(#[trigger] s[i]) by {
                if i < s.len() - 1 {
                    assert(pred(s[s.len() - 1]));
                }
            }
            lemma_filter_all(s, pred);
            assert(s.take(s.len() as int) =~= s);
        } else {
            let rest = s.drop_last();
            assert forall|i: int, j: int|
                0 <= i < j < rest.len() && pred(#[trigger] rest[j]) implies pred(
                #[trigger] rest[i],
            ) by {
                assert(rest[j] == s[j] && rest[i] == s[i]);
            }
            lemma_filter_prefix(rest, pred);
            let n = rest.filter(pred).len() as int;
            assert(rest.take(n) =~= s.take(n));
            assert forall|j: int| n <= j < s.len() implies !pred(#[trigger] s[j]) by {
                if j < s.len() - 1 {
                    assert(rest[j] == s[j]);
                }
            }
        }
    } else {
        assert(s.take(0) =~= s);
    }
}

} // verus!
