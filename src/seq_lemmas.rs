use vstd::prelude::*;

verus! {

/// Removing one item from a sequence removes it from the filtered sequence
/// too, at the position of the items kept before it.
pub proof fn lemma_filter_remove<A>(s: Seq<A>, i: int, pred: spec_fn(A) -> bool)
    requires
        0 <= i < s.len(),
    ensures
        pred(s[i]) ==> s.remove(i).filter(pred) == s.filter(pred).remove(
            s.take(i).filter(pred).len() as int,
        ),
        pred(s[i]) ==> s.take(i).filter(pred).len() < s.filter(pred).len() && s.filter(pred)[s.take(
            i,
        ).filter(pred).len() as int] == s[i],
        !pred(s[i]) ==> s.remove(i).filter(pred) == s.filter(pred),
{
    let a = s.take(i);
    let b = s.skip(i + 1);
    let x = seq![s[i]];
    assert(s == (a + x) + b);
    assert(s.remove(i) == a + b);
    Seq::filter_distributes_over_add(a + x, b, pred);
    Seq::filter_distributes_over_add(a, x, pred);
    Seq::filter_distributes_over_add(a, b, pred);
    Seq::<A>::empty().lemma_filter_push(s[i], pred);
    assert(seq![s[i]] == Seq::<A>::empty().push(s[i]));
    assert(Seq::<A>::empty().filter(pred) == Seq::<A>::empty()) by {
        reveal(Seq::filter);
    }
    if pred(s[i]) {
        let fa = a.filter(pred);
        let fb = b.filter(pred);
        assert((fa + seq![s[i]] + fb).remove(fa.len() as int) == fa + fb);
        assert((fa + seq![s[i]] + fb)[fa.len() as int] == s[i]);
    } else {
        assert(x.filter(pred) == Seq::<A>::empty());
        assert(a.filter(pred) + Seq::<A>::empty() == a.filter(pred));
    }
}

/// A filter keeps nothing when no item passes.
pub proof fn lemma_filter_none<A>(s: Seq<A>, pred: spec_fn(A) -> bool)
    requires
        forall|i: int| 0 <= i < s.len() ==> !pred(#[trigger] s[i]),
    ensures
        s.filter(pred) == Seq::<A>::empty(),
    decreases s.len(),
{
    reveal(Seq::filter);
    if s.len() > 0 {
        let t = s.drop_last();
        assert forall|i: int| 0 <= i < t.len() implies !pred(#[trigger] t[i]) by {
            assert(t[i] == s[i]);
        }
        lemma_filter_none(t, pred);
    }
}

/// Filtering keeps a sequence free of repeats.
pub proof fn lemma_filter_no_duplicates<A>(s: Seq<A>, pred: spec_fn(A) -> bool)
    requires
        s.no_duplicates(),
    ensures
        s.filter(pred).no_duplicates(),
    decreases s.len(),
{
    reveal(Seq::filter);
    if s.len() > 0 {
        let t = s.drop_last();
        assert(t.no_duplicates()) by {
            assert forall|a: int, b: int| 0 <= a < t.len() && 0 <= b < t.len() && a != b implies t[a]
                != t[b] by {
                assert(t[a] == s[a] && t[b] == s[b]);
            }
        }
        lemma_filter_no_duplicates(t, pred);
        if pred(s.last()) {
            let ft = t.filter(pred);
            assert forall|a: int| 0 <= a < ft.len() implies ft[a] != s.last() by {
                assert(ft.contains(ft[a]));
                t.lemma_filter_contains_rev(pred, ft[a]);
                let k = choose|k: int| 0 <= k < t.len() && t[k] == ft[a];
                assert(s[k] == t[k]);
            }
            let r = ft.push(s.last());
            assert forall|a: int, b: int| 0 <= a < r.len() && 0 <= b < r.len() && a != b implies r[a]
                != r[b] by {
                if a < ft.len() && b < ft.len() {
                    assert(r[a] == ft[a] && r[b] == ft[b]);
                }
            }
        }
    }
}

/// Putting back the item removed from a sequence gives back its set.
pub proof fn lemma_to_set_remove<A>(s: Seq<A>, i: int)
    requires
        0 <= i < s.len(),
    ensures
        s.remove(i).to_set().insert(s[i]) == s.to_set(),
{
    let r = s.remove(i);
    assert forall|x: A| s.to_set().contains(x) implies r.to_set().insert(s[i]).contains(x) by {
        let j = choose|j: int| 0 <= j < s.len() && s[j] == x;
        if j < i {
            assert(r[j] == x);
        } else if j > i {
            assert(r[j - 1] == x);
        }
    }
    assert forall|x: A| r.to_set().insert(s[i]).contains(x) implies s.to_set().contains(x) by {
        if x != s[i] {
            let j = choose|j: int| 0 <= j < r.len() && r[j] == x;
            if j < i {
                assert(s[j] == x);
            } else {
                assert(s[j + 1] == x);
            }
        } else {
            assert(s[i] == x);
        }
    }
    assert(r.to_set().insert(s[i]) =~= s.to_set());
}

/// A filtered sequence holds exactly the items of the sequence that pass.
pub proof fn lemma_to_set_filter<A>(s: Seq<A>, pred: spec_fn(A) -> bool)
    ensures
        s.filter(pred).to_set() == s.to_set().filter(pred),
{
    broadcast use vstd::seq_lib::group_filter_ensures;

    assert forall|x: A| s.filter(pred).to_set().contains(x) implies s.to_set().filter(
        pred,
    ).contains(x) by {
        s.lemma_filter_contains_rev(pred, x);
        let j = choose|j: int| 0 <= j < s.filter(pred).len() && s.filter(pred)[j] == x;
        assert(pred(s.filter(pred)[j]));
    }
    assert forall|x: A| s.to_set().filter(pred).contains(x) implies s.filter(
        pred,
    ).to_set().contains(x) by {
        let j = choose|j: int| 0 <= j < s.len() && s[j] == x;
        assert(s.filter(pred).contains(s[j]));
    }
    assert(s.filter(pred).to_set() =~= s.to_set().filter(pred));
}

} // verus!
