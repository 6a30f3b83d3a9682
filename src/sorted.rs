use vstd::prelude::*;

use crate::graph_components::Id;

verus! {

/// `s` is in strictly increasing order.
pub open spec fn strictly_sorted(s: Seq<Id>) -> bool {
    forall|i: int, j: int| 0 <= i < j < s.len() ==> s[i] < s[j]
}

/// `a` comes before `b` in the order of their first ids, then their second.
pub open spec fn pair_lt(a: (Id, Id), b: (Id, Id)) -> bool {
    a.0 < b.0 || (a.0 == b.0 && a.1 < b.1)
}

/// `s` is in strictly increasing order of pairs.
pub open spec fn pairs_strictly_sorted(s: Seq<(Id, Id)>) -> bool {
    forall|i: int, j: int| 0 <= i < j < s.len() ==> pair_lt(s[i], s[j])
}

/// Inserts `x` into a strictly increasing list that does not hold it, at
/// its place.
pub fn insert_sorted_id(v: &mut Vec<Id>, x: Id)
    requires
        strictly_sorted(old(v)@),
        !old(v)@.contains(x),
    ensures
        strictly_sorted(final(v)@),
        final(v)@.to_set() == old(v)@.to_set().insert(x),
        final(v)@.len() == old(v)@.len() + 1,
{
    let mut p: usize = 0;
    while p < v.len() && v[p] < x
        invariant
            p <= v.len(),
            forall|i: int| 0 <= i < p ==> v@[i] < x,
        decreases v.len() - p,
    {
        p = p + 1;
    }
    let ghost old_v = v@;
    proof {
        if p < v.len() {
            assert(v@[p as int] != x);
        }
    }
    v.insert(p, x);
    proof {
        assert(v@ == old_v.take(p as int).push(x) + old_v.skip(p as int));
        assert forall|i: int, j: int| 0 <= i < j < v@.len() implies v@[i] < v@[j] by {
            if j < p {
            } else if j == p {
            } else if i < p {
                assert(v@[j] == old_v[j - 1]);
            } else if i == p {
                assert(v@[j] == old_v[j - 1]);
                assert(old_v[p as int] >= x);
                if j - 1 > p {
                    assert(old_v[p as int] < old_v[j - 1]);
                }
            } else {
                assert(v@[j] == old_v[j - 1] && v@[i] == old_v[i - 1]);
            }
        }
        assert forall|y: Id| v@.to_set().contains(y) <==> old_v.to_set().insert(x).contains(y) by {
            if v@.contains(y) {
                let i = choose|i: int| 0 <= i < v@.len() && v@[i] == y;
                if i < p {
                    assert(old_v[i] == y);
                } else if i > p {
                    assert(old_v[i - 1] == y);
                }
            }
            if old_v.contains(y) {
                let i = choose|i: int| 0 <= i < old_v.len() && old_v[i] == y;
                if i < p {
                    assert(v@[i] == y);
                } else {
                    assert(v@[i + 1] == y);
                }
            }
            if y == x {
                assert(v@[p as int] == x);
            }
        }
        assert(v@.to_set() =~= old_v.to_set().insert(x));
    }
}

/// Inserts `x` into a strictly increasing list of pairs that does not hold
/// it, at its place.
pub fn insert_sorted_pair(v: &mut Vec<(Id, Id)>, x: (Id, Id))
    requires
        pairs_strictly_sorted(old(v)@),
        !old(v)@.contains(x),
    ensures
        pairs_strictly_sorted(final(v)@),
        final(v)@.to_set() == old(v)@.to_set().insert(x),
        final(v)@.len() == old(v)@.len() + 1,
{
    let mut p: usize = 0;
    while p < v.len() && (v[p].0 < x.0 || (v[p].0 == x.0 && v[p].1 < x.1))
        invariant
            p <= v.len(),
            forall|i: int| 0 <= i < p ==> pair_lt(v@[i], x),
        decreases v.len() - p,
    {
        p = p + 1;
    }
    let ghost old_v = v@;
    proof {
        if p < v.len() {
            assert(v@[p as int] != x);
        }
    }
    v.insert(p, x);
    proof {
        assert forall|i: int, j: int| 0 <= i < j < v@.len() implies pair_lt(v@[i], v@[j]) by {
            if j < p {
            } else if j == p {
            } else if i < p {
                assert(v@[j] == old_v[j - 1]);
                if j - 1 > p {
                    assert(pair_lt(old_v[p as int], old_v[j - 1]));
                }
            } else if i == p {
                assert(v@[j] == old_v[j - 1]);
                if j - 1 > p {
                    assert(pair_lt(old_v[p as int], old_v[j - 1]));
                }
            } else {
                assert(v@[j] == old_v[j - 1] && v@[i] == old_v[i - 1]);
            }
        }
        assert forall|y: (Id, Id)|
            v@.to_set().contains(y) <==> old_v.to_set().insert(x).contains(y) by {
            if v@.contains(y) {
                let i = choose|i: int| 0 <= i < v@.len() && v@[i] == y;
                if i < p {
                    assert(old_v[i] == y);
                } else if i > p {
                    assert(old_v[i - 1] == y);
                }
            }
            if old_v.contains(y) {
                let i = choose|i: int| 0 <= i < old_v.len() && old_v[i] == y;
                if i < p {
                    assert(v@[i] == y);
                } else {
                    assert(v@[i + 1] == y);
                }
            }
            if y == x {
                assert(v@[p as int] == x);
            }
        }
        assert(v@.to_set() =~= old_v.to_set().insert(x));
    }
}

} // verus!
