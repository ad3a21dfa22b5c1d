use vstd::prelude::*;

verus! {

/// What a single node of the live tree is: an element (taggable, carrying a
/// set of attribute keys a replacement predicate may inspect) or an opaque
/// non-element (text or comment). Tags, attribute keys and character data are
/// interned as integers; the engine imposes no schema on them.
#[verifier::ext_equal]
pub enum NodeKind {
    Element { tag: u64, attrs: Vec<u64> },
    Text { data: u64 },
    Comment { data: u64 },
}

/// The mathematical value of a node kind: the same shape with the attribute
/// list abstracted to a sequence.
#[verifier::ext_equal]
pub enum KindView {
    Element { tag: u64, attrs: Seq<u64> },
    Text { data: u64 },
    Comment { data: u64 },
}

impl View for NodeKind {
    type V = KindView;

    open spec fn view(&self) -> KindView {
        match *self {
            NodeKind::Element { tag, attrs } => KindView::Element { tag, attrs: attrs@ },
            NodeKind::Text { data } => KindView::Text { data },
            NodeKind::Comment { data } => KindView::Comment { data },
        }
    }
}

/// One slot of the arena: the node's kind, its parent (None while detached),
/// and its ordered child list.
pub struct NodeData {
    pub kind: NodeKind,
    pub parent: Option<usize>,
    pub children: Vec<usize>,
}

/// A live node tree, held as an arena. Slot 0 is the document root; a node
/// whose parent is `None` (other than the root) is detached from the
/// document. Nodes are only ever appended, so a node's id also records its
/// allocation order: every child's id is strictly greater than its parent's.
pub struct Dom {
    pub nodes: Vec<NodeData>,
}

impl Dom {
    /// Number of slots in the arena.
    pub open spec fn n(self) -> int {
        self.nodes@.len() as int
    }

    pub open spec fn valid(self, x: int) -> bool {
        0 <= x < self.n()
    }

    /// The ordered child list of node `x`.
    pub open spec fn ch(self, x: int) -> Seq<usize> {
        self.nodes@[x].children@
    }

    pub open spec fn par(self, x: int) -> Option<usize> {
        self.nodes@[x].parent
    }

    /// The parent's id as an integer, meaningful only when a parent exists.
    pub open spec fn parent_id(self, x: int) -> int {
        match self.par(x) {
            Some(p) => p as int,
            None => -1,
        }
    }

    pub open spec fn kind_of(self, x: int) -> NodeKind {
        self.nodes@[x].kind
    }

    pub open spec fn is_elem(self, x: int) -> bool {
        self.kind_of(x) is Element
    }

    /// The attribute keys of `x`, empty when `x` is not an element.
    pub open spec fn attrs_of(self, x: int) -> Seq<u64> {
        match self.kind_of(x) {
            NodeKind::Element { attrs, .. } => attrs@,
            _ => Seq::empty(),
        }
    }

    /// Local well-formedness at node `x`: children are valid ids strictly
    /// greater than `x`, pairwise distinct, each pointing back at `x` as its
    /// parent; and `x`'s own parent pointer, if any, is a smaller id whose
    /// child list holds `x`.
    pub open spec fn wf_at(self, x: int) -> bool {
        &&& (forall|i: int|
            0 <= i < self.ch(x).len() ==> x < #[trigger] self.ch(x)[i] as int
                && (self.ch(x)[i] as int) < self.n())
        &&& (forall|i: int, j: int|
            0 <= i < j < self.ch(x).len() ==> self.ch(x)[i] != self.ch(x)[j])
        &&& (forall|i: int|
            0 <= i < self.ch(x).len() ==> self.par(#[trigger] self.ch(x)[i] as int)
                == Some(x as usize))
        &&& (self.par(x) matches Some(p) ==> (p as int) < x && 0 <= (p as int)
            && self.ch(p as int).contains(x as usize))
    }

    /// The tree's invariant: slot 0 is the (parentless) document root and
    /// every slot is locally well-formed.
    pub open spec fn wf(self) -> bool {
        &&& self.n() >= 1
        &&& self.par(0) is None
        &&& (forall|x: int| self.valid(x) ==> #[trigger] self.wf_at(x))
    }

    /// Whether node `x` is attached to the document: its parent chain ends at
    /// the root.
    pub open spec fn attached(self, x: int) -> bool
        decreases x,
        when self.wf() && self.valid(x)
        via Self::attached_decreases
    {
        if x == 0 {
            true
        } else {
            match self.par(x) {
                Some(p) => self.attached(p as int),
                None => false,
            }
        }
    }

    #[via_fn]
    proof fn attached_decreases(self, x: int) {
        assert(self.wf_at(x));
    }

    /// Document (pre-)order of the subtree rooted at `x`: the node itself,
    /// then each child's subtree, left to right.
    pub open spec fn preorder(self, x: int) -> Seq<int>
        decreases self.n() - x, self.ch(x).len() + 1,
        when self.wf() && self.valid(x)
    {
        seq![x] + self.preorder_forest(self.ch(x), x)
    }

    /// Concatenated pre-orders of the subtrees rooted at the ids in `cs`,
    /// all of which lie strictly above `lo`.
    pub open spec fn preorder_forest(self, cs: Seq<usize>, lo: int) -> Seq<int>
        decreases self.n() - lo, cs.len(),
        when self.wf() && (forall|i: int|
            0 <= i < cs.len() ==> lo < #[trigger] cs[i] as int && (cs[i] as int) < self.n())
    {
        if cs.len() == 0 {
            Seq::empty()
        } else {
            self.preorder(cs[0] as int) + self.preorder_forest(cs.drop_first(), lo)
        }
    }

    /// Number of nodes in the subtree rooted at `x`.
    pub open spec fn subtree_size(self, x: int) -> int {
        self.preorder(x).len() as int
    }

    /// Whether `y` lies in the subtree rooted at `x`.
    pub open spec fn in_subtree(self, x: int, y: int) -> bool {
        self.preorder(x).contains(y)
    }

    // --- executable queries -------------------------------------------------

    pub fn node_count(&self) -> (r: usize)
        ensures
            r as int == self.n(),
    {
        self.nodes.len()
    }

    pub fn child_count(&self, x: usize) -> (r: usize)
        requires
            self.valid(x as int),
        ensures
            r as int == self.ch(x as int).len(),
    {
        self.nodes[x].children.len()
    }

    pub fn child_at(&self, x: usize, i: usize) -> (r: usize)
        requires
            self.valid(x as int),
            (i as int) < self.ch(x as int).len(),
        ensures
            r == self.ch(x as int)[i as int],
    {
        self.nodes[x].children[i]
    }

    pub fn parent_of(&self, x: usize) -> (r: Option<usize>)
        requires
            self.valid(x as int),
        ensures
            r == self.par(x as int),
    {
        self.nodes[x].parent
    }

    pub fn is_element(&self, x: usize) -> (r: bool)
        requires
            self.valid(x as int),
        ensures
            r == self.is_elem(x as int),
    {
        match &self.nodes[x].kind {
            NodeKind::Element { .. } => true,
            _ => false,
        }
    }

    pub fn tag_of(&self, x: usize) -> (r: Option<u64>)
        requires
            self.valid(x as int),
        ensures
            match r {
                Some(t) => self.kind_of(x as int) matches NodeKind::Element { tag, .. } && t
                    == tag,
                None => !self.is_elem(x as int),
            },
    {
        match &self.nodes[x].kind {
            NodeKind::Element { tag, .. } => Some(*tag),
            _ => None,
        }
    }

    /// Whether `x` is an element carrying the attribute key `a`.
    pub fn has_attr(&self, x: usize, a: u64) -> (r: bool)
        requires
            self.valid(x as int),
        ensures
            r == (self.is_elem(x as int) && self.attrs_of(x as int).contains(a)),
    {
        match &self.nodes[x].kind {
            NodeKind::Element { attrs, .. } => {
                let mut i: usize = 0;
                while i < attrs.len()
                    invariant
                        i <= attrs.len(),
                        self.valid(x as int),
                        self.is_elem(x as int),
                        self.attrs_of(x as int) == attrs@,
                        forall|j: int| 0 <= j < i ==> attrs@[j] != a,
                    decreases attrs.len() - i,
                {
                    if attrs[i] == a {
                        proof {
                            assert(attrs@[i as int] == a);
                            assert(attrs@.contains(a));
                        }
                        return true;
                    }
                    i = i + 1;
                }
                false
            },
            _ => false,
        }
    }

    /// Whether `x` is attached to the document, by walking the parent chain.
    pub fn is_attached(&self, x: usize) -> (r: bool)
        requires
            self.wf(),
            self.valid(x as int),
        ensures
            r == self.attached(x as int),
    {
        let mut cur: usize = x;
        loop
            invariant
                self.wf(),
                self.valid(cur as int),
                self.attached(x as int) == self.attached(cur as int),
            decreases cur,
        {
            if cur == 0 {
                return true;
            }
            match self.nodes[cur].parent {
                Some(p) => {
                    assert(self.wf_at(cur as int));
                    cur = p;
                },
                None => {
                    return false;
                },
            }
        }
    }

    // --- construction -------------------------------------------------------

    /// A fresh tree holding only a document root of the given kind.
    pub fn new(kind: NodeKind) -> (d: Dom)
        ensures
            d.wf(),
            d.n() == 1,
            d.kind_of(0) == kind,
            d.ch(0).len() == 0,
            d.attached(0),
    {
        let nodes = vec![NodeData { kind, parent: None, children: Vec::new() }];
        let d = Dom { nodes };
        assert forall|x: int| d.valid(x) implies d.wf_at(x) by {
            assert(d.ch(x).len() == 0);
        }
        d
    }

    /// Append a fresh node of the given kind as the last child of `parent`.
    /// Returns the new node's id, which is the arena's previous length.
    pub fn add_node(&mut self, parent: usize, kind: NodeKind) -> (r: usize)
        requires
            old(self).wf(),
            old(self).valid(parent as int),
        ensures
            final(self).wf(),
            r as int == old(self).n(),
            final(self).n() == old(self).n() + 1,
            final(self).ch(parent as int) == old(self).ch(parent as int).push(r),
            final(self).kind_of(r as int) == kind,
            final(self).par(r as int) == Some(parent),
            final(self).ch(r as int).len() == 0,
            forall|x: int|
                old(self).valid(x) && x != parent ==> final(self).nodes@[x] == old(self).nodes@[x],
            forall|x: int| old(self).valid(x) ==> final(self).kind_of(x) == old(self).kind_of(x),
            forall|x: int| old(self).valid(x) ==> final(self).par(x) == old(self).par(x),
            final(self).attached(r as int) == old(self).attached(parent as int),
    {
        let id = self.nodes.len();
        self.nodes.push(NodeData { kind, parent: Some(parent), children: Vec::new() });
        let ghost mid = *self;
        let p_children = &mut self.nodes[parent].children;
        p_children.push(id);
        proof {
            let d0 = *old(self);
            let n0 = d0.n();
            assert forall|x: int| self.valid(x) implies self.wf_at(x) by {
                if x < n0 {
                    assert(d0.wf_at(x));
                    if x == parent as int {
                        assert(self.ch(x) == d0.ch(x).push(id));
                        assert(forall|i: int|
                            0 <= i < d0.ch(x).len() ==> self.ch(x)[i] == d0.ch(x)[i]);
                        assert(self.ch(x)[d0.ch(x).len() as int] == id);
                    } else {
                        assert(self.ch(x) == d0.ch(x));
                    }
                    match d0.par(x) {
                        Some(pp) => {
                            assert(d0.ch(pp as int).contains(x as usize));
                            let k = choose|k: int|
                                0 <= k < d0.ch(pp as int).len() && d0.ch(pp as int)[k] == x
                                    as usize;
                            assert(self.ch(pp as int)[k] == x as usize);
                            assert(self.ch(pp as int).contains(x as usize));
                        },
                        None => {},
                    }
                } else {
                    assert(x == id as int);
                    assert(self.ch(x).len() == 0);
                    assert(self.ch(parent as int)[d0.ch(parent as int).len() as int] == id);
                    assert(self.ch(parent as int).contains(id));
                }
            }
            assert(self.wf());
            lemma_attached_frame(d0, *self, parent as int);
            assert(self.attached(id as int) == self.attached(parent as int));
        }
        id
    }

    /// Append a fresh detached node of the given kind (no parent). Returns
    /// its id.
    pub fn add_detached(&mut self, kind: NodeKind) -> (r: usize)
        requires
            old(self).wf(),
        ensures
            final(self).wf(),
            r as int == old(self).n(),
            final(self).n() == old(self).n() + 1,
            final(self).kind_of(r as int) == kind,
            final(self).par(r as int) is None,
            final(self).ch(r as int).len() == 0,
            forall|x: int| old(self).valid(x) ==> final(self).nodes@[x] == old(self).nodes@[x],
    {
        let id = self.nodes.len();
        self.nodes.push(NodeData { kind, parent: None, children: Vec::new() });
        proof {
            assert forall|x: int| self.valid(x) implies self.wf_at(x) by {
                if x < old(self).n() {
                    assert(old(self).wf_at(x));
                    assert(self.ch(x) == old(self).ch(x));
                } else {
                    assert(self.ch(x).len() == 0);
                }
            }
        }
        id
    }
}

/// A detached subtree a replacement builder hands to the engine: a node kind
/// together with the fragments that become its children, in order.
pub struct Fragment {
    pub kind: NodeKind,
    pub children: Vec<Fragment>,
}

impl Dom {
    /// Whether the subtree rooted at `x` has exactly the shape and kinds that
    /// the fragment describes.
    pub open spec fn subtree_matches(self, x: int, f: Fragment) -> bool
        decreases f,
    {
        &&& self.valid(x)
        &&& self.kind_of(x)@ == f.kind@
        &&& self.ch(x).len() == f.children@.len()
        &&& (forall|i: int|
            0 <= i < f.children@.len() ==> self.subtree_matches(
                self.ch(x)[i] as int,
                #[trigger] f.children@[i],
            ))
    }

    /// Hook a detached node into `parent`'s child list at position `pos`,
    /// shifting later siblings right.
    pub fn insert_child_at(&mut self, parent: usize, pos: usize, child: usize)
        requires
            old(self).wf(),
            old(self).valid(parent as int),
            old(self).valid(child as int),
            old(self).par(child as int) is None,
            child != 0,
            (parent as int) < child as int,
            pos as int <= old(self).ch(parent as int).len(),
        ensures
            final(self).wf(),
            final(self).n() == old(self).n(),
            final(self).ch(parent as int) == old(self).ch(parent as int).insert(
                pos as int,
                child,
            ),
            final(self).par(child as int) == Some(parent),
            forall|x: int|
                old(self).valid(x) && x != parent as int && x != child as int ==> final(self).nodes@[x] == old(self).nodes@[x],
            final(self).kind_of(parent as int) == old(self).kind_of(parent as int),
            final(self).par(parent as int) == old(self).par(parent as int),
            final(self).kind_of(child as int) == old(self).kind_of(child as int),
            final(self).ch(child as int) == old(self).ch(child as int),
    {
        proof {
            old(self).ch(parent as int).insert_ensures(pos as int, child);
        }
        let nd = &mut self.nodes[child];
        nd.parent = Some(parent);
        let pc = &mut self.nodes[parent].children;
        pc.insert(pos, child);
        proof {
            let d0 = *old(self);
            let pp = parent as int;
            let cc = child as int;
            // the detached child sat in no child list
            assert forall|x: int, i: int|
                d0.valid(x) && 0 <= i < d0.ch(x).len() implies d0.ch(x)[i] != child by {
                assert(d0.wf_at(x));
            }
            assert forall|x: int| self.valid(x) implies self.wf_at(x) by {
                assert(d0.wf_at(x));
                if x == pp {
                    assert(self.ch(x) == d0.ch(x).insert(pos as int, child));
                    assert(self.ch(x)[pos as int] == child);
                    match d0.par(x) {
                        Some(gp) => {
                            assert(d0.ch(gp as int).contains(x as usize));
                            let k = choose|k: int|
                                0 <= k < d0.ch(gp as int).len() && d0.ch(gp as int)[k] == x
                                    as usize;
                            assert(self.ch(gp as int)[k] == x as usize);
                        },
                        None => {},
                    }
                } else {
                    assert(self.ch(x) == d0.ch(x));
                    match d0.par(x) {
                        Some(q) => {
                            assert(d0.ch(q as int).contains(x as usize));
                            let k = choose|k: int|
                                0 <= k < d0.ch(q as int).len() && d0.ch(q as int)[k] == x
                                    as usize;
                            if q as int == pp {
                                if k < pos as int {
                                    assert(self.ch(pp)[k] == x as usize);
                                } else {
                                    assert(self.ch(pp)[k + 1] == x as usize);
                                }
                            } else {
                                assert(self.ch(q as int)[k] == x as usize);
                            }
                            assert(self.ch(q as int).contains(x as usize));
                        },
                        None => {
                            if x == cc {
                                assert(self.ch(pp).contains(child));
                            }
                        },
                    }
                }
            }
        }
    }

    /// Unhook the child at position `pos` of `parent` from the document: it
    /// leaves the child list and loses its parent, keeping its own subtree.
    pub fn detach_child(&mut self, parent: usize, pos: usize)
        requires
            old(self).wf(),
            old(self).valid(parent as int),
            (pos as int) < old(self).ch(parent as int).len(),
        ensures
            final(self).wf(),
            final(self).n() == old(self).n(),
            final(self).ch(parent as int) == old(self).ch(parent as int).remove(pos as int),
            final(self).par(old(self).ch(parent as int)[pos as int] as int) is None,
            !final(self).attached(old(self).ch(parent as int)[pos as int] as int),
            forall|x: int|
                old(self).valid(x) && x != parent as int && x != old(self).ch(parent as int)[pos
                    as int] as int ==> final(self).nodes@[x] == old(self).nodes@[x],
            final(self).kind_of(parent as int) == old(self).kind_of(parent as int),
            final(self).par(parent as int) == old(self).par(parent as int),
            final(self).kind_of(old(self).ch(parent as int)[pos as int] as int) == old(self).kind_of(old(self).ch(parent as int)[pos as int] as int),
            final(self).ch(old(self).ch(parent as int)[pos as int] as int) == old(self).ch(
                old(self).ch(parent as int)[pos as int] as int,
            ),
    {
        proof {
            old(self).ch(parent as int).remove_ensures(pos as int);
            assert(old(self).wf_at(parent as int));
        }
        let e = self.nodes[parent].children[pos];
        let pc = &mut self.nodes[parent].children;
        pc.remove(pos);
        let nd = &mut self.nodes[e];
        nd.parent = None;
        proof {
            let d0 = *old(self);
            let pp = parent as int;
            let ee = e as int;
            lemma_dom_len_bound(d0);
            assert forall|x: int| self.valid(x) implies self.wf_at(x) by {
                assert(d0.wf_at(x));
                if x == pp {
                    assert(self.ch(x) == d0.ch(x).remove(pos as int));
                    assert forall|i: int| 0 <= i < self.ch(x).len() implies self.par(
                        #[trigger] self.ch(x)[i] as int,
                    ) == Some(parent) by {
                        if i < pos as int {
                            assert(self.ch(x)[i] == d0.ch(x)[i]);
                            assert(d0.ch(x)[i] != e);
                        } else {
                            assert(self.ch(x)[i] == d0.ch(x)[i + 1]);
                            assert(d0.ch(x)[i + 1] != e);
                        }
                    }
                    match d0.par(x) {
                        Some(gp) => {
                            assert(gp as int != ee);
                            assert(d0.ch(gp as int).contains(x as usize));
                        },
                        None => {},
                    }
                } else if x == ee {
                    assert(self.ch(x) == d0.ch(x));
                } else {
                    assert(self.ch(x) == d0.ch(x));
                    match d0.par(x) {
                        Some(q) => {
                            assert(d0.ch(q as int).contains(x as usize));
                            let k = choose|k: int|
                                0 <= k < d0.ch(q as int).len() && d0.ch(q as int)[k] == x
                                    as usize;
                            if q as int == pp {
                                assert(x as usize != e);
                                assert(k != pos as int);
                                if k < pos as int {
                                    assert(self.ch(pp)[k] == x as usize);
                                } else {
                                    assert(self.ch(pp)[k - 1] == x as usize);
                                }
                            } else {
                                assert(self.ch(q as int)[k] == x as usize);
                            }
                            assert(self.ch(q as int).contains(x as usize));
                        },
                        None => {},
                    }
                }
            }
            assert(ee != 0);
        }
    }
}

impl Dom {
    /// Allocate the fragment as a detached subtree: fresh ids only, nothing
    /// below the old arena length is touched. Returns the subtree's root.
    pub fn graft_node(&mut self, f: &Fragment) -> (r: usize)
        requires
            old(self).wf(),
        ensures
            final(self).wf(),
            r as int == old(self).n(),
            old(self).n() < final(self).n(),
            forall|x: int| old(self).valid(x) ==> final(self).nodes@[x] == old(self).nodes@[x],
            final(self).par(r as int) is None,
            final(self).subtree_matches(r as int, *f),
        decreases f,
    {
        let id = self.add_detached(clone_kind(&f.kind));
        let ghost d_start = *old(self);
        let mut i: usize = 0;
        while i < f.children.len()
            invariant
                self.wf(),
                id as int == d_start.n(),
                d_start.n() < self.n(),
                i as int <= f.children@.len(),
                forall|x: int| d_start.valid(x) ==> self.nodes@[x] == d_start.nodes@[x],
                self.kind_of(id as int)@ == f.kind@,
                self.par(id as int) is None,
                self.ch(id as int).len() == i as int,
                forall|j: int|
                    0 <= j < i as int ==> self.subtree_matches(
                        #[trigger] self.ch(id as int)[j] as int,
                        f.children@[j],
                    ),
            decreases f.children@.len() - i,
        {
            let ghost d_pre = *self;
            let cid = self.graft_node(&f.children[i]);
            let ghost d_mid = *self;
            proof {
                assert(d_pre.valid(id as int));
                assert(d_mid.nodes@[id as int] == d_pre.nodes@[id as int]);
                assert(d_mid.ch(id as int).len() == i as int);
                assert(id < cid);
            }
            self.insert_child_at(id, i, cid);
            proof {
                assert(self.ch(id as int) == d_mid.ch(id as int).insert(i as int, cid));
                d_mid.ch(id as int).insert_ensures(i as int, cid);
                assert(self.ch(id as int).len() == i + 1);
                // only slot id (below cid) and cid's parent changed at the hook-in
                assert forall|y: int|
                    cid as int <= y < d_mid.n() implies self.kind_of(y) == d_mid.kind_of(y)
                    && self.ch(y) == d_mid.ch(y) by {
                    assert(d_mid.valid(y));
                    assert(y != id as int);
                    if y != cid as int {
                        assert(self.nodes@[y] == d_mid.nodes@[y]);
                    }
                }
                lemma_matches_frame(d_mid, *self, cid as int, f.children@[i as int]);
                // earlier children sit strictly above id, which is all that changed
                assert forall|j: int| 0 <= j < (i + 1) as int implies self.subtree_matches(
                    #[trigger] self.ch(id as int)[j] as int,
                    f.children@[j],
                ) by {
                    if j < i as int {
                        assert(self.ch(id as int)[j] == d_pre.ch(id as int)[j]);
                        assert(d_pre.subtree_matches(d_pre.ch(id as int)[j] as int, f.children@[j]));
                        assert(d_pre.wf_at(id as int));
                        let rj = d_pre.ch(id as int)[j] as int;
                        assert((id as int) < rj);
                        assert forall|y: int|
                            rj <= y < d_pre.n() implies self.kind_of(y) == d_pre.kind_of(y)
                            && self.ch(y) == d_pre.ch(y) by {
                            assert(d_pre.valid(y));
                            assert(d_mid.nodes@[y] == d_pre.nodes@[y]);
                            assert(d_mid.valid(y));
                            assert(y != id as int && y != cid as int);
                            assert(self.nodes@[y] == d_mid.nodes@[y]);
                        }
                        lemma_matches_frame(d_pre, *self, rj, f.children@[j]);
                    } else {
                        assert(self.ch(id as int)[j] == cid);
                    }
                }
                assert forall|x: int| d_start.valid(x) implies self.nodes@[x]
                    == d_start.nodes@[x] by {
                    assert(d_pre.nodes@[x] == d_start.nodes@[x]);
                    assert(d_pre.valid(x));
                    assert(d_mid.nodes@[x] == d_pre.nodes@[x]);
                    assert(d_mid.valid(x));
                    assert(x != id as int && x != cid as int);
                    assert(self.nodes@[x] == d_mid.nodes@[x]);
                }
            }
            i = i + 1;
        }
        id
    }
}

/// A fragment keeps matching a subtree as long as the kinds and child lists
/// of every node at or above the subtree's root are unchanged (node ids below
/// the root cannot occur inside it).
pub proof fn lemma_matches_frame(d1: Dom, d2: Dom, x: int, f: Fragment)
    requires
        d1.wf(),
        d1.subtree_matches(x, f),
        d2.n() >= d1.n(),
        forall|y: int|
            x <= y < d1.n() ==> d2.kind_of(y) == d1.kind_of(y) && d2.ch(y) == d1.ch(y),
    ensures
        d2.subtree_matches(x, f),
    decreases f,
{
    assert(d1.wf_at(x));
    assert(d2.ch(x) == d1.ch(x));
    assert forall|i: int| 0 <= i < f.children@.len() implies d2.subtree_matches(
        d2.ch(x)[i] as int,
        #[trigger] f.children@[i],
    ) by {
        assert(d1.subtree_matches(d1.ch(x)[i] as int, f.children@[i]));
        lemma_matches_frame(d1, d2, d1.ch(x)[i] as int, f.children@[i]);
    }
}

/// Copy a list of attribute keys.
fn clone_vec_u64(v: &Vec<u64>) -> (r: Vec<u64>)
    ensures
        r@ == v@,
{
    let mut r: Vec<u64> = Vec::new();
    let mut i: usize = 0;
    while i < v.len()
        invariant
            i <= v.len(),
            r@ == v@.take(i as int),
        decreases v.len() - i,
    {
        r.push(v[i]);
        proof {
            assert(r@ =~= v@.take(i as int + 1));
        }
        i = i + 1;
    }
    proof {
        assert(v@.take(v@.len() as int) =~= v@);
    }
    r
}

/// Copy a node kind.
fn clone_kind(k: &NodeKind) -> (r: NodeKind)
    ensures
        r@ == k@,
{
    match k {
        NodeKind::Element { tag, attrs } => {
            let r = NodeKind::Element { tag: *tag, attrs: clone_vec_u64(attrs) };
            proof {
                assert(r@ =~= k@);
            }
            r
        },
        NodeKind::Text { data } => NodeKind::Text { data: *data },
        NodeKind::Comment { data } => NodeKind::Comment { data: *data },
    }
}

/// The arena sits in a `Vec`, so node ids fit in `usize`.
pub proof fn lemma_dom_len_bound(d: Dom)
    ensures
        d.n() <= usize::MAX,
{
    vstd::std_specs::vec::axiom_spec_len(&d.nodes);
}

/// A child list sits in a `Vec`, so child positions fit in `usize`.
pub proof fn lemma_children_len_bound(d: Dom, x: int)
    requires
        d.valid(x),
    ensures
        d.ch(x).len() <= usize::MAX,
{
    vstd::std_specs::vec::axiom_spec_len(&d.nodes@[x].children);
}

/// Attachment only looks at parent pointers, so a change that keeps every
/// parent pointer of the old nodes keeps their attachment.
pub proof fn lemma_attached_frame(d1: Dom, d2: Dom, x: int)
    requires
        d1.wf(),
        d2.wf(),
        d1.valid(x),
        d2.n() >= d1.n(),
        forall|y: int| d1.valid(y) ==> d2.par(y) == d1.par(y),
    ensures
        d2.attached(x) == d1.attached(x),
    decreases x,
{
    if x != 0 {
        assert(d1.wf_at(x));
        match d1.par(x) {
            Some(p) => {
                lemma_attached_frame(d1, d2, p as int);
            },
            None => {},
        }
    }
}

} // verus!
