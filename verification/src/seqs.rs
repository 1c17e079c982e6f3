//! Facts about filtered sequences.

use vstd::prelude::*;

verus! {

/// A filter keeps nothing exactly when no item passes it.
pub proof fn lemma_filter_none<A>(s: Seq<A>, pred: spec_fn(A) -> bool)
    ensures
        s.filter(pred).len() == 0 <==> forall|i: int| 0 <= i < s.len() ==> !pred(#[trigger] s[i]),
    decreases s.len(),
{
    if s.len() == 0 {
        reveal(Seq::filter);
    } else {
        let front = s.drop_last();
        assert(s =~= front.push(s.last()));
        front.lemma_filter_push(s.last(), pred);
        lemma_filter_none(front, pred);
        if s.filter(pred).len() == 0 {
            assert forall|i: int| 0 <= i < s.len() implies !pred(#[trigger] s[i]) by {
                if i < front.len() {
                    assert(front[i] == s[i]);
                }
            }
        }
        if forall|i: int| 0 <= i < s.len() ==> !pred(#[trigger] s[i]) {
            assert forall|i: int| 0 <= i < front.len() implies !pred(#[trigger] front[i]) by {
                assert(front[i] == s[i]);
            }
            assert(!pred(s[s.len() - 1]));
        }
    }
}

/// A filter that every item passes changes nothing.
pub proof fn lemma_filter_all<A>(s: Seq<A>, pred: spec_fn(A) -> bool)
    requires
        forall|i: int| 0 <= i < s.len() ==> pred(#[trigger] s[i]),
    ensures
        s.filter(pred) == s,
    decreases s.len(),
{
    if s.len() == 0 {
        reveal(Seq::filter);
    } else {
        let front = s.drop_last();
        assert(s =~= front.push(s.last()));
        front.lemma_filter_push(s.last(), pred);
        assert forall|i: int| 0 <= i < front.len() implies pred(#[trigger] front[i]) by {
            assert(front[i] == s[i]);
        }
        lemma_filter_all(front, pred);
        assert(pred(s[s.len() - 1]));
    }
}

/// A filter that every item passes but the one at `e` takes that item out.
pub proof fn lemma_filter_one<A>(s: Seq<A>, pred: spec_fn(A) -> bool, e: int)
    requires
        0 <= e < s.len(),
        forall|i: int| 0 <= i < s.len() ==> (pred(#[trigger] s[i]) <==> i != e),
    ensures
        s.filter(pred) == s.remove(e),
    decreases s.len(),
{
    let front = s.drop_last();
    assert(s =~= front.push(s.last()));
    front.lemma_filter_push(s.last(), pred);
    assert forall|i: int| 0 <= i < front.len() implies (pred(#[trigger] front[i]) <==> i != e) by {
        assert(front[i] == s[i]);
    }
    if e == s.len() - 1 {
        lemma_filter_all(front, pred);
        assert(!pred(s[e]));
        assert(s.remove(e) =~= front);
    } else {
        lemma_filter_one(front, pred, e);
        assert(pred(s[s.len() - 1]));
        assert(s.remove(e) =~= front.remove(e).push(s.last()));
    }
}

/// Every item of a filtered sequence is an item of the sequence, and the
/// filtered sequence is no longer.
pub proof fn lemma_filter_within<A>(s: Seq<A>, pred: spec_fn(A) -> bool)
    ensures
        s.filter(pred).len() <= s.len(),
        forall|a: A| s.filter(pred).contains(a) ==> s.contains(a),
{
    s.lemma_filter_len(pred);
    assert forall|a: A| s.filter(pred).contains(a) implies s.contains(a) by {
        s.lemma_filter_contains_rev(pred, a);
    }
}

/// Filtering by `keep` first does not change what `pick` picks, where
/// `keep` keeps all that `pick` picks.
pub proof fn lemma_filter_filter<A>(s: Seq<A>, keep: spec_fn(A) -> bool, pick: spec_fn(A) -> bool)
    requires
        forall|a: A| #[trigger] pick(a) ==> keep(a),
    ensures
        s.filter(keep).filter(pick) == s.filter(pick),
    decreases s.len(),
{
    if s.len() == 0 {
        reveal(Seq::filter);
    } else {
        let front = s.drop_last();
        assert(s =~= front.push(s.last()));
        front.lemma_filter_push(s.last(), keep);
        front.lemma_filter_push(s.last(), pick);
        lemma_filter_filter(front, keep, pick);
        if keep(s.last()) {
            front.filter(keep).lemma_filter_push(s.last(), pick);
        }
    }
}

/// Two filters in a row keep what passes both.
pub proof fn lemma_filter_twice<A>(
    s: Seq<A>,
    first: spec_fn(A) -> bool,
    second: spec_fn(A) -> bool,
    both: spec_fn(A) -> bool,
)
    requires
        forall|a: A| #[trigger] both(a) <==> first(a) && second(a),
    ensures
        s.filter(first).filter(second) == s.filter(both),
    decreases s.len(),
{
    if s.len() == 0 {
        reveal(Seq::filter);
    } else {
        let front = s.drop_last();
        assert(s =~= front.push(s.last()));
        front.lemma_filter_push(s.last(), first);
        front.lemma_filter_push(s.last(), both);
        lemma_filter_twice(front, first, second, both);
        if first(s.last()) {
            front.filter(first).lemma_filter_push(s.last(), second);
        }
    }
}

/// A filter of a sequence without repeats has no repeats.
pub proof fn lemma_filter_distinct<A>(s: Seq<A>, pred: spec_fn(A) -> bool)
    requires
        s.no_duplicates(),
    ensures
        s.filter(pred).no_duplicates(),
    decreases s.len(),
{
    if s.len() == 0 {
        reveal(Seq::filter);
    } else {
        let front = s.drop_last();
        assert(s =~= front.push(s.last()));
        front.lemma_filter_push(s.last(), pred);
        lemma_filter_distinct(front, pred);
        if pred(s.last()) {
            let kept = front.filter(pred);
            assert forall|i: int| 0 <= i < kept.len() implies kept[i] != s.last() by {
                if kept[i] == s.last() {
                    assert(kept.contains(s.last()));
                    front.lemma_filter_contains_rev(pred, s.last());
                    let j = choose|j: int| 0 <= j < front.len() && front[j] == s.last();
                    assert(s[j] == s[s.len() - 1]);
                }
            }
        }
    }
}

/// Filtering a mapped sequence is mapping the sequence filtered by what the
/// filter says of the mapped item.
pub proof fn lemma_map_then_filter<A, B>(
    s: Seq<A>,
    f: spec_fn(A) -> B,
    pred: spec_fn(B) -> bool,
    before: spec_fn(A) -> bool,
)
    requires
        forall|a: A| #[trigger] before(a) == pred(f(a)),
    ensures
        s.map_values(f).filter(pred) == s.filter(before).map_values(f),
    decreases s.len(),
{
    if s.len() == 0 {
        reveal(Seq::filter);
        assert(s.map_values(f).filter(pred) =~= s.filter(before).map_values(f));
    } else {
        let front = s.drop_last();
        assert(s =~= front.push(s.last()));
        assert(s.map_values(f) =~= front.map_values(f).push(f(s.last())));
        front.map_values(f).lemma_filter_push(f(s.last()), pred);
        front.lemma_filter_push(s.last(), before);
        lemma_map_then_filter(front, f, pred, before);
        assert(front.filter(before).push(s.last()).map_values(f) =~= front.filter(
            before,
        ).map_values(f).push(f(s.last())));
    }
}

/// Two filters keep the same whichever comes first.
pub proof fn lemma_filters_commute<A>(s: Seq<A>, first: spec_fn(A) -> bool, second: spec_fn(A) -> bool)
    ensures
        s.filter(first).filter(second) == s.filter(second).filter(first),
{
    let both = |a: A| first(a) && second(a);
    lemma_filter_twice(s, first, second, both);
    lemma_filter_twice(s, second, first, both);
}

/// Two rewrites, each a filter and then a renaming, give the same
/// whichever comes first, where neither renaming changes what the other
/// filter says and the renamings commute.
pub proof fn lemma_rewrites_commute<A>(
    s: Seq<A>,
    keep_a: spec_fn(A) -> bool,
    f: spec_fn(A) -> A,
    keep_b: spec_fn(A) -> bool,
    g: spec_fn(A) -> A,
)
    requires
        forall|a: A| #[trigger] keep_b(f(a)) == keep_b(a),
        forall|a: A| #[trigger] keep_a(g(a)) == keep_a(a),
        forall|a: A| #[trigger] g(f(a)) == f(g(a)),
    ensures
        s.filter(keep_a).map_values(f).filter(keep_b).map_values(g) == s.filter(keep_b).map_values(
            g,
        ).filter(keep_a).map_values(f),
{
    lemma_map_then_filter(s.filter(keep_a), f, keep_b, keep_b);
    lemma_map_then_filter(s.filter(keep_b), g, keep_a, keep_a);
    lemma_filters_commute(s, keep_a, keep_b);
    let both = s.filter(keep_a).filter(keep_b);
    assert(both.map_values(f).map_values(g) =~= both.map_values(g).map_values(f)) by {
        assert forall|i: int| 0 <= i < both.len() implies both.map_values(f).map_values(g)[i]
            == both.map_values(g).map_values(f)[i] by {
            assert(g(f(both[i])) == f(g(both[i])));
        }
    }
}

} // verus!
