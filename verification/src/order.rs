use vstd::prelude::*;
use crate::tree::Dom;

verus! {

/// Whether `a` lies on the parent chain of `y` (including `y` itself).
pub open spec fn is_ancestor(d: Dom, a: int, y: int) -> bool
    decreases y,
    when d.wf() && d.valid(y)
    via ancestor_decreases
{
    if y == a {
        true
    } else {
        match d.par(y) {
            Some(p) => is_ancestor(d, a, p as int),
            None => false,
        }
    }
}

#[via_fn]
proof fn ancestor_decreases(d: Dom, a: int, y: int) {
    assert(d.wf_at(y));
}

/// Ancestors have smaller or equal ids: ids grow strictly along child edges.
pub proof fn lemma_ancestor_le(d: Dom, a: int, y: int)
    requires
        d.wf(),
        d.valid(y),
        is_ancestor(d, a, y),
    ensures
        a <= y,
    decreases y,
{
    if y != a {
        assert(d.wf_at(y));
        match d.par(y) {
            Some(p) => lemma_ancestor_le(d, a, p as int),
            None => {},
        }
    }
}

/// Climbing one edge from `a` to its parent keeps every descendant of `a` a
/// descendant of the parent.
pub proof fn lemma_ancestor_prepend(d: Dom, a: int, p: int, y: int)
    requires
        d.wf(),
        d.valid(a),
        d.valid(y),
        d.par(a) matches Some(pu) && p == pu as int,
        is_ancestor(d, a, y),
    ensures
        is_ancestor(d, p, y),
    decreases y,
{
    assert(d.wf_at(a));
    if y == a {
        assert(is_ancestor(d, p, p));
        assert(is_ancestor(d, p, a));
    } else {
        assert(d.wf_at(y));
        match d.par(y) {
            Some(q) => lemma_ancestor_prepend(d, a, p, q as int),
            None => {},
        }
    }
}

/// Ancestry is transitive.
pub proof fn lemma_ancestor_trans(d: Dom, a: int, b: int, y: int)
    requires
        d.wf(),
        d.valid(y),
        is_ancestor(d, a, b),
        is_ancestor(d, b, y),
    ensures
        is_ancestor(d, a, y),
    decreases y,
{
    if y != b {
        assert(d.wf_at(y));
        match d.par(y) {
            Some(q) => lemma_ancestor_trans(d, a, b, q as int),
            None => {},
        }
    }
}

/// Ancestry reads only parent pointers, all of them at ids no larger than the
/// descendant's; a mutation that keeps those keeps ancestry.
pub proof fn lemma_ancestor_frame(d1: Dom, d2: Dom, a: int, y: int)
    requires
        d1.wf(),
        d2.wf(),
        d1.valid(y),
        d2.n() >= d1.n(),
        forall|z: int| 0 <= z <= y && z < d1.n() ==> d2.par(z) == d1.par(z),
    ensures
        is_ancestor(d2, a, y) == is_ancestor(d1, a, y),
    decreases y,
{
    if y != a {
        assert(d1.wf_at(y));
        match d1.par(y) {
            Some(p) => lemma_ancestor_frame(d1, d2, a, p as int),
            None => {},
        }
    }
}

/// Concatenation holds a value exactly when one of its parts does.
pub proof fn lemma_concat_contains<T>(a: Seq<T>, b: Seq<T>, y: T)
    ensures
        (a + b).contains(y) <==> a.contains(y) || b.contains(y),
{
    if a.contains(y) {
        let i = choose|i: int| 0 <= i < a.len() && a[i] == y;
        assert((a + b)[i] == y);
    }
    if b.contains(y) {
        let i = choose|i: int| 0 <= i < b.len() && b[i] == y;
        assert((a + b)[a.len() + i] == y);
    }
    if (a + b).contains(y) {
        let i = choose|i: int| 0 <= i < (a + b).len() && (a + b)[i] == y;
        if i < a.len() {
            assert(a[i] == y);
        } else {
            assert(b[i - a.len()] == y);
        }
    }
}

/// Everything in a subtree's pre-order is a valid id at or above the root's,
/// and the root opens the sequence.
pub proof fn lemma_preorder_bounds(d: Dom, x: int)
    requires
        d.wf(),
        d.valid(x),
    ensures
        d.preorder(x).len() >= 1,
        d.preorder(x)[0] == x,
        forall|y: int| #[trigger] d.preorder(x).contains(y) ==> x <= y < d.n(),
    decreases d.n() - x, d.ch(x).len() + 1,
{
    assert(d.wf_at(x));
    lemma_preorder_forest_bounds(d, d.ch(x), x);
    assert(d.preorder(x) == seq![x] + d.preorder_forest(d.ch(x), x));
    assert forall|y: int| #[trigger] d.preorder(x).contains(y) implies x <= y < d.n() by {
        lemma_concat_contains(seq![x], d.preorder_forest(d.ch(x), x), y);
        if seq![x].contains(y) {
            assert(y == x);
        }
    }
}

/// Forest version of `lemma_preorder_bounds`: all ids strictly above `lo`.
pub proof fn lemma_preorder_forest_bounds(d: Dom, cs: Seq<usize>, lo: int)
    requires
        d.wf(),
        forall|i: int| 0 <= i < cs.len() ==> lo < #[trigger] cs[i] as int && (cs[i] as int) < d.n(),
    ensures
        forall|y: int| #[trigger] d.preorder_forest(cs, lo).contains(y) ==> lo < y < d.n(),
    decreases d.n() - lo, cs.len(),
{
    if cs.len() > 0 {
        lemma_preorder_bounds(d, cs[0] as int);
        lemma_preorder_forest_bounds(d, cs.drop_first(), lo);
        assert forall|y: int| #[trigger] d.preorder_forest(cs, lo).contains(y) implies lo < y
            < d.n() by {
            lemma_concat_contains(d.preorder(cs[0] as int), d.preorder_forest(cs.drop_first(), lo), y);
        }
    }
}

/// Membership in a subtree's pre-order means the root is an ancestor.
pub proof fn lemma_preorder_ancestor(d: Dom, x: int, y: int)
    requires
        d.wf(),
        d.valid(x),
        d.preorder(x).contains(y),
    ensures
        is_ancestor(d, x, y),
    decreases d.n() - x, d.ch(x).len() + 1,
{
    assert(d.wf_at(x));
    lemma_concat_contains(seq![x], d.preorder_forest(d.ch(x), x), y);
    if seq![x].contains(y) {
        assert(y == x);
    } else {
        lemma_preorder_forest_ancestor(d, d.ch(x), x, y);
        let i = choose|i: int|
            0 <= i < d.ch(x).len() && is_ancestor(d, d.ch(x)[i] as int, y)
                && d.preorder(d.ch(x)[i] as int).contains(y);
        lemma_preorder_bounds(d, d.ch(x)[i] as int);
        lemma_ancestor_prepend(d, d.ch(x)[i] as int, x, y);
    }
}

/// Forest version of `lemma_preorder_ancestor`: some root of the forest is an
/// ancestor of the member.
pub proof fn lemma_preorder_forest_ancestor(d: Dom, cs: Seq<usize>, lo: int, y: int)
    requires
        d.wf(),
        forall|i: int| 0 <= i < cs.len() ==> lo < #[trigger] cs[i] as int && (cs[i] as int) < d.n(),
        d.preorder_forest(cs, lo).contains(y),
    ensures
        exists|i: int|
            0 <= i < cs.len() && is_ancestor(d, #[trigger] cs[i] as int, y) && d.preorder(
                cs[i] as int,
            ).contains(y),
    decreases d.n() - lo, cs.len(),
{
    lemma_concat_contains(d.preorder(cs[0] as int), d.preorder_forest(cs.drop_first(), lo), y);
    if d.preorder(cs[0] as int).contains(y) {
        lemma_preorder_ancestor(d, cs[0] as int, y);
        assert(is_ancestor(d, cs[0] as int, y) && d.preorder(cs[0] as int).contains(y));
    } else {
        lemma_preorder_forest_ancestor(d, cs.drop_first(), lo, y);
        let i = choose|i: int|
            0 <= i < cs.drop_first().len() && is_ancestor(d, cs.drop_first()[i] as int, y)
                && d.preorder(cs.drop_first()[i] as int).contains(y);
        assert(cs[i + 1] == cs.drop_first()[i]);
    }
}

/// Two ancestors of one node sit on one parent chain, so one is an ancestor
/// of the other.
pub proof fn lemma_ancestor_comparable(d: Dom, a: int, b: int, y: int)
    requires
        d.wf(),
        d.valid(y),
        is_ancestor(d, a, y),
        is_ancestor(d, b, y),
    ensures
        is_ancestor(d, a, b) || is_ancestor(d, b, a),
    decreases y,
{
    if y != a && y != b {
        assert(d.wf_at(y));
        match d.par(y) {
            Some(p) => lemma_ancestor_comparable(d, a, b, p as int),
            None => {},
        }
    }
}

/// A node is offered to a walk at most once: the pre-order of a well-formed
/// subtree repeats no id.
pub proof fn lemma_preorder_no_duplicates(d: Dom, x: int)
    requires
        d.wf(),
        d.valid(x),
    ensures
        d.preorder(x).no_duplicates(),
    decreases d.n() - x, d.ch(x).len() + 1,
{
    assert(d.wf_at(x));
    lemma_preorder_forest_no_duplicates(d, d.ch(x), x, x);
    lemma_preorder_forest_bounds(d, d.ch(x), x);
    let a = seq![x];
    let b = d.preorder_forest(d.ch(x), x);
    assert(d.preorder(x) == a + b);
    assert forall|i: int, j: int|
        0 <= i < j < (a + b).len() implies (a + b)[i] != (a + b)[j] by {
        if i == 0 {
            assert((a + b)[j] == b[j - 1]);
            assert(b.contains(b[j - 1]));
        } else {
            assert((a + b)[i] == b[i - 1] && (a + b)[j] == b[j - 1]);
        }
    }
}

/// Forest version of `lemma_preorder_no_duplicates`, for the child list of a
/// single node `m`: sibling subtrees are disjoint, because no two distinct
/// children of one parent lie on one ancestor chain.
pub proof fn lemma_preorder_forest_no_duplicates(d: Dom, cs: Seq<usize>, lo: int, m: int)
    requires
        d.wf(),
        d.valid(m),
        forall|i: int| 0 <= i < cs.len() ==> lo < #[trigger] cs[i] as int && (cs[i] as int) < d.n(),
        forall|i: int|
            0 <= i < cs.len() ==> d.par(#[trigger] cs[i] as int) is Some && d.parent_id(
                cs[i] as int,
            ) == m,
        cs.no_duplicates(),
    ensures
        d.preorder_forest(cs, lo).no_duplicates(),
    decreases d.n() - lo, cs.len(),
{
    if cs.len() > 0 {
        let c1 = cs[0] as int;
        lemma_preorder_no_duplicates(d, c1);
        assert forall|i: int|
            0 <= i < cs.drop_first().len() implies lo < #[trigger] cs.drop_first()[i] as int && (
        cs.drop_first()[i] as int) < d.n() && d.par(cs.drop_first()[i] as int) is Some
            && d.parent_id(cs.drop_first()[i] as int) == m && cs[0] != cs.drop_first()[i] by {
            assert(cs.drop_first()[i] == cs[i + 1]);
        }
        lemma_preorder_forest_no_duplicates(d, cs.drop_first(), lo, m);
        let a = d.preorder(c1);
        let b = d.preorder_forest(cs.drop_first(), lo);
        // the head's subtree shares nothing with the rest of the forest
        assert forall|y: int| #[trigger] a.contains(y) implies !b.contains(y) by {
            if b.contains(y) {
                lemma_preorder_bounds(d, c1);
                assert(d.valid(y));
                lemma_preorder_ancestor(d, c1, y);
                lemma_preorder_forest_ancestor(d, cs.drop_first(), lo, y);
                let i = choose|i: int|
                    0 <= i < cs.drop_first().len() && is_ancestor(
                        d,
                        cs.drop_first()[i] as int,
                        y,
                    ) && d.preorder(cs.drop_first()[i] as int).contains(y);
                let c2 = cs.drop_first()[i] as int;
                assert(c2 != c1);
                lemma_ancestor_comparable(d, c1, c2, y);
                assert(d.wf_at(c1));
                assert(d.wf_at(c2));
                if is_ancestor(d, c1, c2) {
                    assert(is_ancestor(d, c1, m));
                    lemma_ancestor_le(d, c1, m);
                } else {
                    assert(is_ancestor(d, c2, c1));
                    assert(is_ancestor(d, c2, m));
                    lemma_ancestor_le(d, c2, m);
                }
            }
        }
        assert(d.preorder_forest(cs, lo) == a + b);
        assert forall|i: int, j: int|
            0 <= i < j < (a + b).len() implies (a + b)[i] != (a + b)[j] by {
            if i < a.len() && j >= a.len() {
                assert((a + b)[i] == a[i] && (a + b)[j] == b[j - a.len()]);
                assert(a.contains(a[i]));
                assert(b.contains(b[j - a.len()]));
            } else if i >= a.len() {
                assert((a + b)[i] == b[i - a.len()] && (a + b)[j] == b[j - a.len()]);
            }
        }
    }
}

/// A subtree's pre-order is untouched by a mutation that leaves every node of
/// that subtree as it was.
pub proof fn lemma_preorder_frame(d1: Dom, d2: Dom, x: int)
    requires
        d1.wf(),
        d2.wf(),
        d1.valid(x),
        d2.n() >= d1.n(),
        forall|y: int| #[trigger] d1.preorder(x).contains(y) ==> d2.nodes@[y] == d1.nodes@[y],
    ensures
        d2.preorder(x) == d1.preorder(x),
    decreases d1.n() - x, d1.ch(x).len() + 1,
{
    assert(d1.wf_at(x));
    lemma_preorder_bounds(d1, x);
    assert(d1.preorder(x) == seq![x] + d1.preorder_forest(d1.ch(x), x));
    assert(d1.preorder(x)[0] == x);
    assert(d1.preorder(x).contains(x));
    assert(d2.nodes@[x] == d1.nodes@[x]);
    assert(d2.ch(x) == d1.ch(x));
    assert forall|y: int| #[trigger] d1.preorder_forest(d1.ch(x), x).contains(y) implies d2.nodes@[y]
        == d1.nodes@[y] by {
        lemma_concat_contains(seq![x], d1.preorder_forest(d1.ch(x), x), y);
    }
    lemma_preorder_forest_frame(d1, d2, d1.ch(x), x);
    assert(d2.preorder(x) == seq![x] + d2.preorder_forest(d2.ch(x), x));
}

/// Forest version of `lemma_preorder_frame`.
pub proof fn lemma_preorder_forest_frame(d1: Dom, d2: Dom, cs: Seq<usize>, lo: int)
    requires
        d1.wf(),
        d2.wf(),
        d2.n() >= d1.n(),
        forall|i: int| 0 <= i < cs.len() ==> lo < #[trigger] cs[i] as int && (cs[i] as int) < d1.n(),
        forall|y: int|
            #[trigger] d1.preorder_forest(cs, lo).contains(y) ==> d2.nodes@[y] == d1.nodes@[y],
    ensures
        d2.preorder_forest(cs, lo) == d1.preorder_forest(cs, lo),
    decreases d1.n() - lo, cs.len(),
{
    if cs.len() == 0 {
        assert(d2.preorder_forest(cs, lo) == Seq::<int>::empty());
        assert(d1.preorder_forest(cs, lo) == Seq::<int>::empty());
    } else {
        assert(d1.preorder_forest(cs, lo) == d1.preorder(cs[0] as int) + d1.preorder_forest(
            cs.drop_first(),
            lo,
        ));
        lemma_preorder_bounds(d1, cs[0] as int);
        assert forall|y: int| #[trigger] d1.preorder(cs[0] as int).contains(y) implies d2.nodes@[y]
            == d1.nodes@[y] by {
            lemma_concat_contains(d1.preorder(cs[0] as int), d1.preorder_forest(cs.drop_first(), lo), y);
        }
        assert forall|y: int|
            #[trigger] d1.preorder_forest(cs.drop_first(), lo).contains(y) implies d2.nodes@[y]
            == d1.nodes@[y] by {
            lemma_concat_contains(d1.preorder(cs[0] as int), d1.preorder_forest(cs.drop_first(), lo), y);
        }
        lemma_preorder_frame(d1, d2, cs[0] as int);
        lemma_preorder_forest_frame(d1, d2, cs.drop_first(), lo);
        assert(d2.preorder_forest(cs, lo) == d2.preorder(cs[0] as int) + d2.preorder_forest(
            cs.drop_first(),
            lo,
        ));
    }
}

} // verus!
