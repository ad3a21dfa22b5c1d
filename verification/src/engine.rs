use vstd::prelude::*;
use crate::tree::{Dom, Fragment, lemma_children_len_bound, lemma_matches_frame};
use crate::order::{
    is_ancestor, lemma_ancestor_frame, lemma_ancestor_le, lemma_ancestor_trans,
    lemma_concat_contains, lemma_preorder_bounds, lemma_preorder_forest_bounds,
    lemma_preorder_forest_ancestor, lemma_preorder_forest_frame,
};

verus! {

/// A fatal condition of the hydration pass: these mark programming errors in
/// the embedding application, not recoverable states.
#[derive(Debug, PartialEq, Eq)]
pub enum HydrationError {
    /// A matched node had no parent to splice into.
    ParentlessMatch,
    /// A captured element was no longer attached to the document.
    DetachedElement,
}

/// The traversal's decision per element: leave it alone, or replace it with
/// the given detached fragments. Implementations may record what they were
/// shown; they see the tree read-only.
pub trait Replacer {
    fn replace(&mut self, dom: &Dom, node: usize) -> Option<Vec<Fragment>>
        requires
            dom.wf(),
            dom.valid(node as int),
    ;
}

/// The iterative depth-first cursor: an explicit stack of `(node, next child
/// index)` frames plus the frame being walked, so traversal depth never grows
/// the call stack. Its agenda — the exact sequence of nodes still to be
/// offered to the predicate — shrinks at every step.
pub struct Traversal {
    stack: Vec<(usize, usize)>,
    current: usize,
    index: usize,
}

impl Traversal {
    /// What one frame still owes the walk: the pre-orders of its pending
    /// children.
    pub closed spec fn frame_agenda(d: Dom, f: (usize, usize)) -> Seq<int> {
        d.preorder_forest(d.ch(f.0 as int).skip(f.1 as int), f.0 as int)
    }

    /// Agendas of a stack of frames, innermost (last) first.
    pub closed spec fn frames_agenda(d: Dom, fs: Seq<(usize, usize)>) -> Seq<int>
        decreases fs.len(),
    {
        if fs.len() == 0 {
            Seq::empty()
        } else {
            Self::frame_agenda(d, fs.last()) + Self::frames_agenda(d, fs.drop_last())
        }
    }

    /// The exact sequence of nodes this cursor will still offer to the
    /// predicate, in document order, if nothing more is replaced.
    pub closed spec fn agenda(self, d: Dom) -> Seq<int> {
        Self::frame_agenda(d, (self.current, self.index)) + Self::frames_agenda(d, self.stack@)
    }

    /// No pending child of the frame is an ancestor of `cur`: the walk below
    /// `cur` cannot touch what the frame still has to visit.
    pub closed spec fn frame_sep(d: Dom, f: (usize, usize), cur: int) -> bool {
        forall|j: int|
            f.1 as int <= j < d.ch(f.0 as int).len() ==> !is_ancestor(
                d,
                #[trigger] d.ch(f.0 as int)[j] as int,
                cur,
            )
    }

    /// The machine's invariant against a tree.
    pub closed spec fn inv(self, d: Dom) -> bool {
        &&& d.wf()
        &&& d.valid(self.current as int)
        &&& self.index as int <= d.ch(self.current as int).len()
        &&& (forall|k: int|
            0 <= k < self.stack@.len() ==> d.valid(#[trigger] self.stack@[k].0 as int))
        &&& (forall|k: int|
            0 <= k < self.stack@.len() ==> (#[trigger] self.stack@[k].1 as int) <= d.ch(
                self.stack@[k].0 as int,
            ).len())
        &&& (forall|k: int|
            0 <= k < self.stack@.len() ==> (#[trigger] self.stack@[k].0 as int) < self.current
                as int)
        &&& (forall|k1: int, k2: int|
            #![trigger self.stack@[k1], self.stack@[k2]]
            0 <= k1 < k2 < self.stack@.len() ==> (self.stack@[k1].0 as int) < (self.stack@[k2].0
                as int))
        &&& (forall|k: int|
            0 <= k < self.stack@.len() ==> is_ancestor(
                d,
                #[trigger] self.stack@[k].0 as int,
                self.current as int,
            ))
        &&& (forall|k1: int, k2: int|
            #![trigger self.stack@[k1], self.stack@[k2]]
            0 <= k1 < k2 < self.stack@.len() ==> is_ancestor(
                d,
                self.stack@[k1].0 as int,
                self.stack@[k2].0 as int,
            ))
        &&& (forall|k: int|
            0 <= k < self.stack@.len() ==> Self::frame_sep(
                d,
                #[trigger] self.stack@[k],
                self.current as int,
            ))
    }

    /// A child is under the cursor, ready to be offered to the predicate.
    pub closed spec fn ready(self, d: Dom) -> bool {
        (self.index as int) < d.ch(self.current as int).len()
    }

    /// The node under the cursor.
    pub closed spec fn candidate(self, d: Dom) -> int {
        d.ch(self.current as int)[self.index as int] as int
    }

    /// The cursor's parent node and child position: a candidate is always
    /// `ch(cursor_node)[cursor_index]`.
    pub closed spec fn cursor_node(self) -> int {
        self.current as int
    }

    pub closed spec fn cursor_index(self) -> int {
        self.index as int
    }

    /// Start a walk over the children of `root`. The agenda is then exactly
    /// the pre-order of `root`'s subtree without `root` itself (a caller
    /// tests the root separately, before the walk).
    pub fn begin(d: &Dom, root: usize) -> (t: Traversal)
        requires
            d.wf(),
            d.valid(root as int),
        ensures
            t.inv(*d),
            t.agenda(*d) == d.preorder(root as int).drop_first(),
    {
        let t = Traversal { stack: Vec::new(), current: root, index: 0 };
        proof {
            assert(d.wf_at(root as int));
            assert(d.ch(root as int).skip(0) =~= d.ch(root as int));
            assert(d.preorder(root as int) == seq![root as int] + d.preorder_forest(
                d.ch(root as int),
                root as int,
            ));
            assert(t.agenda(*d) =~= d.preorder(root as int).drop_first());
        }
        t
    }

    /// Move the cursor to the next node to test, popping exhausted frames.
    /// Returns the agenda's head, or `None` when the walk is over.
    pub fn next_candidate(&mut self, d: &Dom) -> (r: Option<usize>)
        requires
            old(self).inv(*d),
        ensures
            final(self).inv(*d),
            final(self).agenda(*d) == old(self).agenda(*d),
            match r {
                Some(c) => {
                    &&& final(self).ready(*d)
                    &&& final(self).candidate(*d) == c as int
                    &&& d.valid(c as int)
                    &&& d.par(c as int) == Some(final(self).cursor_node() as usize)
                    &&& final(self).agenda(*d).len() > 0
                    &&& final(self).agenda(*d)[0] == c as int
                },
                None => final(self).agenda(*d).len() == 0,
            },
    {
        loop
            invariant
                self.inv(*d),
                self.agenda(*d) == old(self).agenda(*d),
            decreases self.stack@.len(),
        {
            if self.index < d.child_count(self.current) {
                let c = d.child_at(self.current, self.index);
                proof {
                    let cur = self.current as int;
                    let idx = self.index as int;
                    assert(d.wf_at(cur));
                    let cs = d.ch(cur).skip(idx);
                    assert(cs[0] == d.ch(cur)[idx]);
                    assert(Self::frame_agenda(*d, (self.current, self.index)) == d.preorder(
                        c as int,
                    ) + d.preorder_forest(cs.drop_first(), cur));
                    lemma_preorder_bounds(*d, c as int);
                    assert(self.agenda(*d)[0] == d.preorder(c as int)[0]);
                }
                return Some(c);
            }
            let ghost t0 = *self;
            match self.stack.pop() {
                Some(f) => {
                    let ghost st0 = t0.stack@;
                    self.current = f.0;
                    self.index = f.1;
                    proof {
                        assert(st0.drop_last() =~= self.stack@);
                        assert(st0.last() == f);
                        // the exhausted frame contributed nothing
                        assert(d.ch(t0.current as int).skip(t0.index as int) =~= Seq::<
                            usize,
                        >::empty());
                        assert(Self::frame_agenda(*d, (t0.current, t0.index)) =~= Seq::<
                            int,
                        >::empty());
                        assert(t0.agenda(*d) =~= Self::frames_agenda(*d, st0));
                        assert(Self::frames_agenda(*d, st0) == Self::frame_agenda(*d, f)
                            + Self::frames_agenda(*d, self.stack@));
                        assert(self.agenda(*d) =~= t0.agenda(*d));
                        // separation survives the pop: anything under the new
                        // cursor was under the old one
                        assert forall|k: int| 0 <= k < self.stack@.len() implies Self::frame_sep(
                            *d,
                            #[trigger] self.stack@[k],
                            self.current as int,
                        ) by {
                            assert(st0[k] == self.stack@[k]);
                            let fk = self.stack@[k];
                            assert(Self::frame_sep(*d, fk, t0.current as int));
                            assert forall|j: int|
                                fk.1 as int <= j < d.ch(fk.0 as int).len() implies !is_ancestor(
                                *d,
                                #[trigger] d.ch(fk.0 as int)[j] as int,
                                self.current as int,
                            ) by {
                                let cj = d.ch(fk.0 as int)[j] as int;
                                assert(d.wf_at(fk.0 as int));
                                if is_ancestor(*d, cj, self.current as int) {
                                    assert(is_ancestor(*d, self.current as int, t0.current as int));
                                    lemma_ancestor_trans(*d, cj, self.current as int, t0.current as int);
                                }
                            }
                        }
                    }
                },
                None => {
                    proof {
                        assert(d.ch(self.current as int).skip(self.index as int) =~= Seq::<
                            usize,
                        >::empty());
                        assert(Self::frame_agenda(*d, (self.current, self.index)) =~= Seq::<
                            int,
                        >::empty());
                        assert(self.stack@ =~= Seq::<(usize, usize)>::empty());
                        assert(self.agenda(*d) =~= Seq::<int>::empty());
                    }
                    return None;
                },
            }
        }
    }

    /// The predicate declined the candidate: descend into it when it has
    /// children, step past it otherwise. The agenda loses exactly its head.
    pub fn keep(&mut self, d: &Dom)
        requires
            old(self).inv(*d),
            old(self).ready(*d),
        ensures
            final(self).inv(*d),
            final(self).agenda(*d) == old(self).agenda(*d).drop_first(),
    {
        let cnt = d.child_count(self.current);
        let c = d.child_at(self.current, self.index);
        proof {
            let cur = self.current as int;
            let idx = self.index as int;
            assert(d.wf_at(cur));
            assert(d.valid(c as int));
            assert(d.wf_at(c as int));
            let cs = d.ch(cur).skip(idx);
            assert(cs[0] == c);
            assert(cs.drop_first() =~= d.ch(cur).skip(idx + 1));
            assert(Self::frame_agenda(*d, (self.current, self.index)) == d.preorder(c as int)
                + d.preorder_forest(d.ch(cur).skip(idx + 1), cur));
            assert(d.preorder(c as int) == seq![c as int] + d.preorder_forest(
                d.ch(c as int),
                c as int,
            ));
        }
        if d.child_count(c) > 0 {
            let ghost t0 = *self;
            let old_current = self.current;
            let next_index = self.index + 1;
            self.stack.push((old_current, next_index));
            self.current = c;
            self.index = 0;
            proof {
                let cur = t0.current as int;
                let idx = t0.index as int;
                let cc = c as int;
                assert(d.wf_at(cur));
                assert(self.stack@.drop_last() =~= t0.stack@);
                assert(self.stack@.last() == (old_current, next_index));
                assert(d.ch(cc).skip(0) =~= d.ch(cc));
                // agenda: new frame + updated old frame + rest == old agenda minus head
                assert(Self::frames_agenda(*d, self.stack@) == Self::frame_agenda(
                    *d,
                    (old_current, next_index),
                ) + Self::frames_agenda(*d, t0.stack@));
                assert(self.agenda(*d) =~= t0.agenda(*d).drop_first());
                // ancestry: the new cursor hangs off the old one
                assert(d.par(cc) == Some(t0.current));
                assert(is_ancestor(*d, cur, cur));
                assert(is_ancestor(*d, cur, cc));
                assert forall|k: int| 0 <= k < self.stack@.len() implies is_ancestor(
                    *d,
                    #[trigger] self.stack@[k].0 as int,
                    self.current as int,
                ) && (self.stack@[k].0 as int) < self.current as int by {
                    if k < t0.stack@.len() {
                        assert(self.stack@[k] == t0.stack@[k]);
                        lemma_ancestor_trans(*d, self.stack@[k].0 as int, cur, cc);
                    } else {
                        assert(self.stack@[k] == (old_current, next_index));
                    }
                }
                // separation: pending children elsewhere are not ancestors of c
                assert forall|k: int| 0 <= k < self.stack@.len() implies Self::frame_sep(
                    *d,
                    #[trigger] self.stack@[k],
                    self.current as int,
                ) by {
                    let fk = self.stack@[k];
                    assert forall|j: int|
                        fk.1 as int <= j < d.ch(fk.0 as int).len() implies !is_ancestor(
                        *d,
                        #[trigger] d.ch(fk.0 as int)[j] as int,
                        self.current as int,
                    ) by {
                        assert(d.wf_at(fk.0 as int));
                        let cj = d.ch(fk.0 as int)[j] as int;
                        assert(d.par(cj) == Some(fk.0));
                        if k < t0.stack@.len() {
                            assert(fk == t0.stack@[k]);
                            assert(Self::frame_sep(*d, fk, cur));
                            assert((fk.0 as int) < cur);
                            if is_ancestor(*d, cj, cc) {
                                // cj != c since their parents differ
                                assert(cj != cc);
                                assert(is_ancestor(*d, cj, cur));
                            }
                        } else {
                            // pending sibling of c in the old cursor frame
                            assert(fk == (old_current, next_index));
                            if is_ancestor(*d, cj, cc) {
                                if cj == cc {
                                    assert(d.ch(cur)[j] == d.ch(cur)[idx]);
                                    assert(j != idx);
                                    assert(false);
                                } else {
                                    assert(is_ancestor(*d, cj, cur));
                                    lemma_ancestor_le(*d, cj, cur);
                                    assert(cur < cj);
                                }
                            }
                        }
                    }
                }
            }
        } else {
            let ghost t0 = *self;
            self.index = self.index + 1;
            proof {
                let cur = self.current as int;
                let cc = c as int;
                assert(d.wf_at(cur));
                assert(d.ch(cc).len() == 0);
                assert(d.preorder(cc) =~= seq![cc] + d.preorder_forest(d.ch(cc), cc));
                assert(d.preorder_forest(d.ch(cc), cc) =~= Seq::<int>::empty());
                assert(d.preorder(cc) =~= seq![cc]);
                assert(self.agenda(*d) =~= t0.agenda(*d).drop_first());
            }
        }
    }

    /// The predicate matched the candidate: splice the built fragments into
    /// its place and detach it, then aim the cursor at its former right
    /// sibling. The agenda loses exactly the candidate's subtree from the
    /// front; in particular nothing freshly built is ever offered to the
    /// predicate by this walk.
    pub fn splice(&mut self, d: &mut Dom, frags: &Vec<Fragment>)
        requires
            old(self).inv(*old(d)),
            old(self).ready(*old(d)),
        ensures
            final(self).inv(*final(d)),
            final(d).wf(),
            old(d).n() <= final(d).n(),
            final(self).cursor_node() == old(self).cursor_node(),
            splice_shape(
                *old(d),
                *final(d),
                old(self).cursor_node(),
                old(self).candidate(*old(d)) as usize,
                old(self).cursor_index(),
                frags@,
            ),
            final(d).par(old(self).candidate(*old(d))) is None,
            !final(d).attached(old(self).candidate(*old(d))),
            final(d).ch(old(self).candidate(*old(d))) == old(d).ch(old(self).candidate(*old(d))),
            old(self).agenda(*old(d)) == old(d).preorder(old(self).candidate(*old(d))) + final(self).agenda(*final(d)),
            final(self).agenda(*final(d)).len() < old(self).agenda(*old(d)).len(),
            forall|y: int|
                #[trigger] final(self).agenda(*final(d)).contains(y) ==> old(self).agenda(
                    *old(d),
                ).contains(y) && 0 <= y < old(d).n(),
            forall|x: int| old(d).valid(x) ==> final(d).kind_of(x) == old(d).kind_of(x),
            forall|x: int|
                old(d).valid(x) && x != old(self).cursor_node() && x != old(self).candidate(
                    *old(d),
                ) ==> final(d).nodes@[x] == old(d).nodes@[x],
            final(d).par(old(self).cursor_node()) == old(d).par(old(self).cursor_node()),
    {
        let e = d.child_at(self.current, self.index);
        let ghost d1 = *d;
        let ghost t0 = *self;
        let ghost pp = self.current as int;
        let ghost idx = self.index as int;
        let ghost ee = e as int;
        proof {
            assert(d1.wf_at(pp));
            assert(d1.par(ee) == Some(t0.current));
            assert(d1.parent_id(ee) == pp);
            assert(d1.ch(pp)[idx] == e);
        }
        let resume = replace_at(d, e, self.index, frags);
        self.index = resume;
        proof {
            let d2 = *d;
            let kk = frags@.len() as int;
            let pos = resume as int - kk;
            // the scan found e exactly at the cursor
            assert(pos == idx) by {
                if pos > idx {
                    assert(d1.ch(pp)[idx] != e);
                }
            }
            assert(splice_shape(d1, d2, pp, e, idx, frags@));
            // the old frame's tail is untouched, element for element
            assert(d2.ch(pp).skip(resume as int) =~= d1.ch(pp).skip(idx + 1)) by {
                assert forall|t: int| 0 <= t < d2.ch(pp).len() - resume as int implies d2.ch(
                    pp,
                ).skip(resume as int)[t] == d1.ch(pp).skip(idx + 1)[t] by {
                    assert(d2.ch(pp)[resume as int + t] == d1.ch(pp)[resume as int + t - kk + 1]);
                }
            }
            let tail = d1.ch(pp).skip(idx + 1);
            // nothing in the tail's forest was touched by the splice
            assert forall|i: int| 0 <= i < tail.len() implies pp < #[trigger] tail[i] as int && (
            tail[i] as int) < d1.n() by {
                assert(tail[i] == d1.ch(pp)[idx + 1 + i]);
            }
            assert forall|y: int|
                #[trigger] d1.preorder_forest(tail, pp).contains(y) implies d2.nodes@[y]
                == d1.nodes@[y] by {
                lemma_preorder_forest_bounds(d1, tail, pp);
                assert(pp < y < d1.n());
                assert(d1.valid(y));
                if y == ee {
                    lemma_preorder_forest_ancestor(d1, tail, pp, y);
                    let i = choose|i: int|
                        0 <= i < tail.len() && is_ancestor(d1, tail[i] as int, y) && d1.preorder(
                            tail[i] as int,
                        ).contains(y);
                    assert(tail[i] == d1.ch(pp)[idx + 1 + i]);
                    assert(tail[i] != e);
                    assert(is_ancestor(d1, tail[i] as int, pp));
                    lemma_ancestor_le(d1, tail[i] as int, pp);
                    assert(false);
                }
                assert(y != pp && y != ee);
                assert(d2.nodes@[y] == d1.nodes@[y]);
            }
            lemma_preorder_forest_frame(d1, d2, tail, pp);
            // the stack frames' agendas are untouched too
            assert forall|k: int|
                0 <= k < t0.stack@.len() implies Traversal::frame_agenda(
                d2,
                #[trigger] t0.stack@[k],
            ) == Traversal::frame_agenda(d1, t0.stack@[k]) by {
                let fk = t0.stack@[k];
                let fn0 = fk.0 as int;
                assert(d1.wf_at(fn0));
                assert(fn0 < pp);
                assert(fn0 != ee);
                assert(d2.nodes@[fn0] == d1.nodes@[fn0]);
                assert(d2.ch(fn0) == d1.ch(fn0));
                let cs = d1.ch(fn0).skip(fk.1 as int);
                assert forall|i: int| 0 <= i < cs.len() implies fn0 < #[trigger] cs[i] as int && (
                cs[i] as int) < d1.n() by {
                    assert(cs[i] == d1.ch(fn0)[fk.1 as int + i]);
                }
                assert forall|y: int|
                    #[trigger] d1.preorder_forest(cs, fn0).contains(y) implies d2.nodes@[y]
                    == d1.nodes@[y] by {
                    lemma_preorder_forest_bounds(d1, cs, fn0);
                    assert(fn0 < y < d1.n());
                    assert(d1.valid(y));
                    if y == pp || y == ee {
                        lemma_preorder_forest_ancestor(d1, cs, fn0, y);
                        let i = choose|i: int|
                            0 <= i < cs.len() && is_ancestor(d1, cs[i] as int, y) && d1.preorder(
                                cs[i] as int,
                            ).contains(y);
                        assert(cs[i] == d1.ch(fn0)[fk.1 as int + i]);
                        let cj = cs[i] as int;
                        assert(Self::frame_sep(d1, fk, pp));
                        assert(!is_ancestor(d1, cj, pp));
                        if y == pp {
                            assert(false);
                        } else {
                            assert(d1.par(ee) == Some(t0.current));
                            assert(d1.par(cj) == Some(fk.0));
                            assert(cj != ee);
                            assert(is_ancestor(d1, cj, pp));
                            assert(false);
                        }
                    }
                    assert(y != pp && y != ee);
                    assert(d2.nodes@[y] == d1.nodes@[y]);
                }
                lemma_preorder_forest_frame(d1, d2, cs, fn0);
            }
            lemma_frames_agenda_pointwise(d1, d2, t0.stack@);
            // stitch: old agenda = preorder(e) + new agenda
            let head = d1.ch(pp).skip(idx);
            assert(head[0] == e);
            assert(head.drop_first() =~= tail);
            assert(Self::frame_agenda(d1, (t0.current, t0.index)) == d1.preorder(ee)
                + d1.preorder_forest(tail, pp));
            assert(Self::frame_agenda(d2, (self.current, self.index)) == d2.preorder_forest(
                d2.ch(pp).skip(resume as int),
                pp,
            ));
            assert(Self::frame_agenda(d2, (self.current, self.index)) == d1.preorder_forest(
                tail,
                pp,
            ));
            assert(t0.agenda(d1) =~= d1.preorder(ee) + self.agenda(d2));
            lemma_preorder_bounds(d1, ee);
            assert(d1.preorder(ee).len() >= 1);
            // agenda membership: the walk only ever shrinks
            assert forall|y: int| #[trigger] self.agenda(d2).contains(y) implies t0.agenda(
                d1,
            ).contains(y) && 0 <= y < d1.n() by {
                lemma_concat_contains(d1.preorder(ee), self.agenda(d2), y);
                lemma_concat_contains(
                    Self::frame_agenda(d1, (self.current, resume)),
                    Self::frames_agenda(d1, t0.stack@),
                    y,
                );
                lemma_preorder_forest_bounds(d1, tail, pp);
                lemma_frames_agenda_bounds(d1, t0.stack@);
                lemma_concat_contains(
                    d1.preorder_forest(tail, pp),
                    Self::frames_agenda(d1, t0.stack@),
                    y,
                );
            }
            // the machine invariant against the spliced tree
            assert forall|k: int| 0 <= k < self.stack@.len() implies d2.valid(
                #[trigger] self.stack@[k].0 as int,
            ) && self.stack@[k].1 as int <= d2.ch(self.stack@[k].0 as int).len() by {
                let fn0 = self.stack@[k].0 as int;
                assert(fn0 < pp);
                assert(fn0 != ee);
                assert(d2.nodes@[fn0] == d1.nodes@[fn0]);
            }
            assert forall|z: int| 0 <= z <= pp && z < d1.n() implies d2.par(z) == d1.par(z) by {
                assert(d1.valid(z));
                if z != pp && z != ee {
                    assert(d2.nodes@[z] == d1.nodes@[z]);
                }
            }
            assert forall|k: int| 0 <= k < self.stack@.len() implies is_ancestor(
                d2,
                #[trigger] self.stack@[k].0 as int,
                self.current as int,
            ) by {
                lemma_ancestor_frame(d1, d2, self.stack@[k].0 as int, pp);
            }
            assert forall|k1: int, k2: int|
                #![trigger self.stack@[k1], self.stack@[k2]]
                0 <= k1 < k2 < self.stack@.len() implies is_ancestor(
                d2,
                self.stack@[k1].0 as int,
                self.stack@[k2].0 as int,
            ) by {
                assert(is_ancestor(d1, self.stack@[k1].0 as int, self.stack@[k2].0 as int));
                assert((self.stack@[k2].0 as int) < pp);
                lemma_ancestor_frame(d1, d2, self.stack@[k1].0 as int, self.stack@[k2].0 as int);
            }
            assert forall|k: int| 0 <= k < self.stack@.len() implies Self::frame_sep(
                d2,
                #[trigger] self.stack@[k],
                self.current as int,
            ) by {
                let fk = self.stack@[k];
                let fn0 = fk.0 as int;
                assert(Self::frame_sep(d1, fk, pp));
                assert(d2.nodes@[fn0] == d1.nodes@[fn0]);
                assert(d2.ch(fn0) == d1.ch(fn0));
                assert(d1.wf_at(fn0));
                assert forall|j: int|
                    fk.1 as int <= j < d2.ch(fn0).len() implies !is_ancestor(
                    d2,
                    #[trigger] d2.ch(fn0)[j] as int,
                    self.current as int,
                ) by {
                    let cj = d2.ch(fn0)[j] as int;
                    assert(d1.ch(fn0)[j] == d2.ch(fn0)[j]);
                    assert(!is_ancestor(d1, cj, pp));
                    lemma_ancestor_frame(d1, d2, cj, pp);
                }
            }
            assert(self.inv(d2));
        }
    }
}

/// Walk every node below `node` (excluding `node` itself) in document order,
/// splicing in whatever the predicate builds for each match. Matches found
/// during the walk always sit under a live parent, so this never fails.
pub fn hydrate_children<R: Replacer>(dom: &mut Dom, node: usize, replace: &mut R)
    requires
        old(dom).wf(),
        old(dom).valid(node as int),
    ensures
        final(dom).wf(),
        old(dom).n() <= final(dom).n(),
        forall|x: int| old(dom).valid(x) ==> final(dom).kind_of(x) == old(dom).kind_of(x),
        forall|x: int|
            old(dom).valid(x) && old(dom).par(x) is None ==> final(dom).par(x) is None,
{
    let mut t = Traversal::begin(&*dom, node);
    loop
        invariant
            t.inv(*dom),
            old(dom).n() <= dom.n(),
            forall|x: int| old(dom).valid(x) ==> dom.kind_of(x) == old(dom).kind_of(x),
            forall|x: int| old(dom).valid(x) && old(dom).par(x) is None ==> dom.par(x) is None,
        decreases t.agenda(*dom).len(),
    {
        let c_opt = t.next_candidate(&*dom);
        match c_opt {
            None => {
                break ;
            },
            Some(c) => {
                match replace.replace(&*dom, c) {
                    Some(frags) => {
                        let ghost d_pre = *dom;
                        let ghost t_pre = t;
                        t.splice(dom, &frags);
                        proof {
                            assert forall|x: int| old(dom).valid(x) implies dom.kind_of(x) == old(
                                dom,
                            ).kind_of(x) by {
                                assert(d_pre.valid(x));
                                assert(dom.kind_of(x) == d_pre.kind_of(x));
                            }
                            assert forall|x: int|
                                old(dom).valid(x) && old(dom).par(x) is None implies dom.par(
                                x,
                            ) is None by {
                                assert(d_pre.valid(x));
                                assert(d_pre.par(x) is None);
                                if x != t_pre.cursor_node() && x != t_pre.candidate(d_pre) {
                                    assert(dom.nodes@[x] == d_pre.nodes@[x]);
                                }
                            }
                        }
                    },
                    None => {
                        t.keep(&*dom);
                    },
                }
            },
        }
    }
}

/// Hydrate the subtree rooted at `node`: test the root itself first with the
/// same single-node check, then walk its descendants. A matched root that
/// has no parent to splice into is the one fatal condition; every deeper
/// match sits under a live parent. On that error the tree is untouched.
pub fn hydrate_node<R: Replacer>(dom: &mut Dom, node: usize, replace: &mut R) -> (res: Result<
    (),
    HydrationError,
>)
    requires
        old(dom).wf(),
        old(dom).valid(node as int),
    ensures
        final(dom).wf(),
        old(dom).n() <= final(dom).n(),
        forall|x: int| old(dom).valid(x) ==> final(dom).kind_of(x) == old(dom).kind_of(x),
        forall|x: int|
            old(dom).valid(x) && old(dom).par(x) is None ==> final(dom).par(x) is None,
        res is Err ==> old(dom).par(node as int) is None && *final(dom) == *old(dom),
{
    match replace.replace(&*dom, node) {
        Some(frags) => {
            match dom.parent_of(node) {
                None => Err(HydrationError::ParentlessMatch),
                Some(p) => {
                    proof {
                        assert(dom.wf_at(node as int));
                        assert(dom.ch(p as int).contains(node));
                        let j = choose|j: int|
                            0 <= j < dom.ch(p as int).len() && dom.ch(p as int)[j] == node;
                        assert(0 <= j < dom.ch(dom.parent_id(node as int)).len() && dom.ch(
                            dom.parent_id(node as int),
                        )[j] == node);
                    }
                    let ghost d_pre = *dom;
                    replace_at(dom, node, 0, &frags);
                    proof {
                        assert forall|x: int|
                            d_pre.valid(x) && d_pre.par(x) is None implies dom.par(x) is None by {
                            if x != d_pre.parent_id(node as int) && x != node as int {
                                assert(dom.nodes@[x] == d_pre.nodes@[x]);
                            }
                        }
                    }
                    Ok(())
                },
            }
        },
        None => {
            hydrate_children(dom, node, replace);
            Ok(())
        },
    }
}

/// The exact document order of the subtree rooted at `root`, as the walk
/// visits it: the same cursor machine run with nothing replaced yields
/// precisely the tree's pre-order, each node once.
pub fn preorder_ids(dom: &Dom, root: usize) -> (r: Vec<usize>)
    requires
        dom.wf(),
        dom.valid(root as int),
    ensures
        r@.map_values(|u: usize| u as int) == dom.preorder(root as int),
{
    let mut r: Vec<usize> = Vec::new();
    r.push(root);
    let mut t = Traversal::begin(dom, root);
    proof {
        lemma_preorder_bounds(*dom, root as int);
        assert(r@.map_values(|u: usize| u as int) =~= seq![root as int]);
        assert(r@.map_values(|u: usize| u as int) + t.agenda(*dom) =~= dom.preorder(root as int));
    }
    loop
        invariant
            t.inv(*dom),
            dom.wf(),
            dom.valid(root as int),
            r@.map_values(|u: usize| u as int) + t.agenda(*dom) == dom.preorder(root as int),
        ensures
            r@.map_values(|u: usize| u as int) == dom.preorder(root as int),
        decreases t.agenda(*dom).len(),
    {
        match t.next_candidate(dom) {
            None => {
                proof {
                    assert(r@.map_values(|u: usize| u as int) + t.agenda(*dom) =~= r@.map_values(
                        |u: usize| u as int,
                    ));
                }
                break ;
            },
            Some(c) => {
                let ghost r0 = r@;
                let ghost a0 = t.agenda(*dom);
                r.push(c);
                t.keep(dom);
                proof {
                    assert(a0 =~= seq![c as int] + a0.drop_first());
                    assert(r@.map_values(|u: usize| u as int) =~= r0.map_values(
                        |u: usize| u as int,
                    ).push(c as int));
                    assert(r0.map_values(|u: usize| u as int).push(c as int) + a0.drop_first()
                        =~= r0.map_values(|u: usize| u as int) + a0);
                }
            },
        }
    }
    r
}

/// Frame agendas equal frame by frame give equal stacked agendas.
proof fn lemma_frames_agenda_pointwise(d1: Dom, d2: Dom, fs: Seq<(usize, usize)>)
    requires
        forall|k: int|
            0 <= k < fs.len() ==> Traversal::frame_agenda(d2, #[trigger] fs[k])
                == Traversal::frame_agenda(d1, fs[k]),
    ensures
        Traversal::frames_agenda(d2, fs) == Traversal::frames_agenda(d1, fs),
    decreases fs.len(),
{
    if fs.len() > 0 {
        assert(fs[fs.len() - 1] == fs.last());
        assert forall|k: int|
            0 <= k < fs.drop_last().len() implies Traversal::frame_agenda(
            d2,
            #[trigger] fs.drop_last()[k],
        ) == Traversal::frame_agenda(d1, fs.drop_last()[k]) by {
            assert(fs.drop_last()[k] == fs[k]);
        }
        lemma_frames_agenda_pointwise(d1, d2, fs.drop_last());
    }
}

/// Everything a stack of well-formed frames still owes the walk is a valid
/// node id.
proof fn lemma_frames_agenda_bounds(d: Dom, fs: Seq<(usize, usize)>)
    requires
        d.wf(),
        forall|k: int|
            0 <= k < fs.len() ==> d.valid(#[trigger] fs[k].0 as int) && fs[k].1 as int <= d.ch(
                fs[k].0 as int,
            ).len(),
    ensures
        forall|y: int| #[trigger] Traversal::frames_agenda(d, fs).contains(y) ==> 0 <= y < d.n(),
    decreases fs.len(),
{
    if fs.len() > 0 {
        let f = fs.last();
        assert(fs[fs.len() - 1] == f);
        assert(d.wf_at(f.0 as int));
        lemma_preorder_forest_bounds(d, d.ch(f.0 as int).skip(f.1 as int), f.0 as int);
        assert forall|k: int|
            0 <= k < fs.drop_last().len() implies d.valid(#[trigger] fs.drop_last()[k].0 as int)
            && fs.drop_last()[k].1 as int <= d.ch(fs.drop_last()[k].0 as int).len() by {
            assert(fs.drop_last()[k] == fs[k]);
        }
        lemma_frames_agenda_bounds(d, fs.drop_last());
        assert forall|y: int| #[trigger] Traversal::frames_agenda(d, fs).contains(y) implies 0 <= y
            < d.n() by {
            lemma_concat_contains(
                Traversal::frame_agenda(d, f),
                Traversal::frames_agenda(d, fs.drop_last()),
                y,
            );
        }
    }
}

/// Exact shape of a parent's child list after one splice: the matched child
/// `e`, formerly at `pos`, is gone; subtrees built from the fragments stand
/// in its place; left and right siblings keep their order around them.
pub open spec fn splice_shape(
    d1: Dom,
    d2: Dom,
    p: int,
    e: usize,
    pos: int,
    frags: Seq<Fragment>,
) -> bool {
    let k = frags.len() as int;
    &&& 0 <= pos < d1.ch(p).len()
    &&& d1.ch(p)[pos] == e
    &&& d2.ch(p).len() == d1.ch(p).len() + k - 1
    &&& (forall|j: int| 0 <= j < pos ==> d2.ch(p)[j] == d1.ch(p)[j])
    &&& (forall|j: int| pos + k <= j < d2.ch(p).len() ==> d2.ch(p)[j] == d1.ch(p)[j - k + 1])
    &&& (forall|j: int|
        0 <= j < k ==> d2.subtree_matches(#[trigger] d2.ch(p)[pos + j] as int, frags[j]))
    &&& (forall|j: int| 0 <= j < k ==> d1.n() <= #[trigger] d2.ch(p)[pos + j] as int)
}

/// Replace `e` in place: build each fragment's subtree, insert them
/// immediately before `e` (document order preserved), then detach `e`
/// permanently. The parent's child list is scanned from `start` to find the
/// position `e` still occupies. Returns the position at which `e`'s former
/// right siblings now begin, where a walk resumes.
pub fn replace_at(d: &mut Dom, e: usize, start: usize, frags: &Vec<Fragment>) -> (resume: usize)
    requires
        old(d).wf(),
        old(d).valid(e as int),
        old(d).par(e as int) is Some,
        exists|j: int|
            start as int <= j < old(d).ch(old(d).parent_id(e as int)).len() && old(d).ch(
                old(d).parent_id(e as int),
            )[j] == e,
    ensures
        final(d).wf(),
        old(d).n() <= final(d).n(),
        frags@.len() <= resume as int,
        start as int <= resume as int - frags@.len() as int,
        splice_shape(
            *old(d),
            *final(d),
            old(d).parent_id(e as int),
            e,
            resume as int - frags@.len() as int,
            frags@,
        ),
        forall|j: int|
            start as int <= j < resume as int - frags@.len() as int ==> old(d).ch(
                old(d).parent_id(e as int),
            )[j] != e,
        final(d).par(e as int) is None,
        !final(d).attached(e as int),
        final(d).ch(e as int) == old(d).ch(e as int),
        forall|x: int|
            old(d).valid(x) && x != old(d).parent_id(e as int) && x != e as int ==> final(d).nodes@[x] == old(d).nodes@[x],
        forall|x: int| old(d).valid(x) ==> final(d).kind_of(x) == old(d).kind_of(x),
        final(d).par(old(d).parent_id(e as int)) == old(d).par(old(d).parent_id(e as int)),
{
    let ghost d0 = *old(d);
    let p = d.parent_of(e).unwrap();
    let ghost pp = p as int;
    proof {
        assert(d0.wf_at(e as int));
        lemma_children_len_bound(d0, pp);
    }
    // scan for the position e still occupies, from start
    let ghost j0 = choose|j: int| start as int <= j < d0.ch(pp).len() && d0.ch(pp)[j] == e;
    let mut pos = start;
    while d.child_at(p, pos) != e
        invariant
            *d == d0,
            pp == p as int,
            d0.wf(),
            d0.valid(pp),
            d0.valid(e as int),
            start as int <= pos as int <= j0,
            j0 < d0.ch(pp).len(),
            d0.ch(pp)[j0] == e,
            d0.ch(pp).len() <= usize::MAX,
            forall|j: int| start as int <= j < pos as int ==> d0.ch(pp)[j] != e,
        decreases j0 - pos,
    {
        pos = pos + 1;
    }
    // build and hook in the fragments, in order, just before e
    let mut k: usize = 0;
    while k < frags.len()
        invariant
            d.wf(),
            k as int <= frags@.len(),
            pp == p as int,
            d0.wf(),
            d0.valid(pp),
            d0.valid(e as int),
            pp < e as int,
            e != 0,
            d0.par(e as int) == Some(p),
            (pos as int) < d0.ch(pp).len(),
            d0.ch(pp)[pos as int] == e,
            d0.n() <= d.n(),
            d.ch(pp).len() == d0.ch(pp).len() + k as int,
            forall|j: int| 0 <= j < pos as int ==> d.ch(pp)[j] == d0.ch(pp)[j],
            forall|j: int|
                pos as int + k as int <= j < d.ch(pp).len() ==> d.ch(pp)[j] == d0.ch(pp)[j - k
                    as int],
            forall|j: int|
                0 <= j < k as int ==> d.subtree_matches(
                    #[trigger] d.ch(pp)[pos as int + j] as int,
                    frags@[j],
                ),
            forall|j: int| 0 <= j < k as int ==> d0.n() <= #[trigger] d.ch(pp)[pos as int + j] as int,
            forall|x: int| d0.valid(x) && x != pp ==> d.nodes@[x] == d0.nodes@[x],
            d.kind_of(pp) == d0.kind_of(pp),
            d.par(pp) == d0.par(pp),
        decreases frags@.len() - k,
    {
        let ghost d_pre = *d;
        let cid = d.graft_node(&frags[k]);
        let ghost d_mid = *d;
        proof {
            assert(d_pre.valid(pp));
            assert(d_mid.nodes@[pp] == d_pre.nodes@[pp]);
            lemma_children_len_bound(d_mid, pp);
            assert(pp < cid as int);
            assert(d_mid.par(cid as int) is None);
        }
        let at = pos + k;
        d.insert_child_at(p, at, cid);
        proof {
            d_mid.ch(pp).insert_ensures(at as int, cid);
            assert(d.ch(pp) == d_mid.ch(pp).insert(at as int, cid));
            // the fresh subtree still matches once hooked in
            assert forall|y: int|
                cid as int <= y < d_mid.n() implies d.kind_of(y) == d_mid.kind_of(y) && d.ch(y)
                == d_mid.ch(y) by {
                assert(d_mid.valid(y));
                assert(y != pp);
                if y != cid as int {
                    assert(d.nodes@[y] == d_mid.nodes@[y]);
                }
            }
            lemma_matches_frame(d_mid, *d, cid as int, frags@[k as int]);
            // earlier grafts sit above everything that changed
            assert forall|j: int| 0 <= j < k as int + 1 implies d.subtree_matches(
                #[trigger] d.ch(pp)[pos as int + j] as int,
                frags@[j],
            ) by {
                if j < k as int {
                    assert(d.ch(pp)[pos as int + j] == d_pre.ch(pp)[pos as int + j]);
                    let rj = d_pre.ch(pp)[pos as int + j] as int;
                    assert(d_pre.subtree_matches(rj, frags@[j]));
                    assert(d0.n() <= rj);
                    assert forall|y: int|
                        rj <= y < d_pre.n() implies d.kind_of(y) == d_pre.kind_of(y) && d.ch(y)
                        == d_pre.ch(y) by {
                        assert(d_pre.valid(y));
                        assert(d_mid.nodes@[y] == d_pre.nodes@[y]);
                        assert(d_mid.valid(y));
                        assert(y != pp && y != cid as int);
                        assert(d.nodes@[y] == d_mid.nodes@[y]);
                    }
                    lemma_matches_frame(d_pre, *d, rj, frags@[j]);
                } else {
                    assert(d.ch(pp)[pos as int + j] == cid);
                }
            }
            assert forall|x: int| d0.valid(x) && x != pp implies d.nodes@[x] == d0.nodes@[x] by {
                assert(d_pre.nodes@[x] == d0.nodes@[x]);
                assert(d_pre.valid(x));
                assert(d_mid.nodes@[x] == d_pre.nodes@[x]);
                assert(d_mid.valid(x));
                assert(x != cid as int);
                assert(d.nodes@[x] == d_mid.nodes@[x]);
            }
        }
        k = k + 1;
    }
    let ghost d_full = *d;
    proof {
        lemma_children_len_bound(*d, pp);
    }
    let at = pos + frags.len();
    proof {
        assert(d_full.ch(pp)[at as int] == d0.ch(pp)[pos as int]);
        assert(d_full.ch(pp)[at as int] == e);
    }
    d.detach_child(p, at);
    proof {
        d_full.ch(pp).remove_ensures(at as int);
        assert(d.ch(pp) == d_full.ch(pp).remove(at as int));
        let kk = frags@.len() as int;
        // the splice shape, read off the two phases
        assert forall|j: int| 0 <= j < kk implies d.subtree_matches(
            #[trigger] d.ch(pp)[pos as int + j] as int,
            frags@[j],
        ) && d0.n() <= d.ch(pp)[pos as int + j] as int by {
            assert(d.ch(pp)[pos as int + j] == d_full.ch(pp)[pos as int + j]);
            let rj = d_full.ch(pp)[pos as int + j] as int;
            assert(d_full.subtree_matches(rj, frags@[j]));
            assert(d0.n() <= rj);
            assert forall|y: int|
                rj <= y < d_full.n() implies d.kind_of(y) == d_full.kind_of(y) && d.ch(y)
                == d_full.ch(y) by {
                assert(d_full.valid(y));
                assert(y != pp && y != e as int);
                assert(d.nodes@[y] == d_full.nodes@[y]);
            }
            lemma_matches_frame(d_full, *d, rj, frags@[j]);
        }
        assert forall|x: int| d0.valid(x) && x != pp && x != e as int implies d.nodes@[x]
            == d0.nodes@[x] by {
            assert(d_full.nodes@[x] == d0.nodes@[x]);
            assert(d_full.valid(x));
            assert(d.nodes@[x] == d_full.nodes@[x]);
        }
        assert(splice_shape(d0, *d, pp, e, pos as int, frags@));
    }
    at
}

} // verus!
