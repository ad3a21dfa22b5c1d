use dom_hydrate::{
    Dom, Fragment, HydrationError, HydrationGuard, NodeKind, OriginalChildren, Replacer,
    hydrate_children, hydrate_node, preorder_ids,
};

const DIV: u64 = 1;
const P: u64 = 2;
const SPAN: u64 = 3;
const B: u64 = 4;
const DATA_X: u64 = 100;

fn elem(tag: u64, attrs: Vec<u64>) -> NodeKind {
    NodeKind::Element { tag, attrs }
}

fn text(data: u64) -> NodeKind {
    NodeKind::Text { data }
}

/// A predicate that records every node it is offered and replaces elements
/// carrying `attr` with the fragments `build` produces.
struct Recording {
    visited: Vec<usize>,
    attr: Option<u64>,
    build: fn() -> Vec<Fragment>,
}

impl Recording {
    fn never() -> Recording {
        Recording { visited: Vec::new(), attr: None, build: empty_frags }
    }

    fn on_attr(attr: u64, build: fn() -> Vec<Fragment>) -> Recording {
        Recording { visited: Vec::new(), attr: Some(attr), build }
    }
}

fn empty_frags() -> Vec<Fragment> {
    Vec::new()
}

fn single_b() -> Vec<Fragment> {
    vec![Fragment {
        kind: NodeKind::Element { tag: B, attrs: vec![] },
        children: vec![Fragment { kind: NodeKind::Text { data: 12 }, children: vec![] }],
    }]
}

fn two_texts() -> Vec<Fragment> {
    vec![
        Fragment { kind: NodeKind::Text { data: 21 }, children: vec![] },
        Fragment { kind: NodeKind::Text { data: 22 }, children: vec![] },
    ]
}

impl Replacer for Recording {
    fn replace(&mut self, dom: &Dom, node: usize) -> Option<Vec<Fragment>> {
        self.visited.push(node);
        match self.attr {
            Some(a) if dom.has_attr(node, a) => Some((self.build)()),
            _ => None,
        }
    }
}

#[test]
fn scenario_marked_paragraph_replaced() {
    // <div><p data-x>A</p><span>B</span></div>, predicate matches data-x,
    // builder yields a single <b>X</b>; expect <div><b>X</b><span>B</span></div>
    let mut d = Dom::new(elem(DIV, vec![]));
    let p = d.add_node(0, elem(P, vec![DATA_X]));
    let a_txt = d.add_node(p, text(10));
    let span = d.add_node(0, elem(SPAN, vec![]));
    let b_txt = d.add_node(span, text(11));
    let n_before = d.node_count();

    let mut r = Recording::on_attr(DATA_X, single_b);
    hydrate_node(&mut d, 0, &mut r).unwrap();

    assert_eq!(d.child_count(0), 2);
    let nb = d.child_at(0, 0);
    assert!(nb >= n_before, "replacement nodes are fresh");
    assert_eq!(d.tag_of(nb), Some(B));
    assert_eq!(d.child_count(nb), 1);
    assert_eq!(d.child_at(0, 1), span);
    // the matched element is gone from the document, its subtree intact
    assert!(!d.is_attached(p));
    assert_eq!(d.parent_of(p), None);
    assert_eq!(d.child_count(p), 1);
    assert_eq!(d.child_at(p, 0), a_txt);
    // offered nodes: root, the match, then its former right siblings —
    // never the replacement, never the detached subtree
    assert_eq!(r.visited, vec![0, p, span, b_txt]);
    // exactly one match means exactly one ownership hand-off
    let matches = r.visited.iter().filter(|&&n| n == p).count();
    assert_eq!(matches, 1);
}

#[test]
fn index_repair_after_two_node_replacement() {
    // parent with [A, B, C], B replaced by [X, Y]: order becomes [A, X, Y, C]
    // and the walk resumes at C (X and Y are skipped, C is not)
    let mut d = Dom::new(elem(DIV, vec![]));
    let a = d.add_node(0, elem(SPAN, vec![]));
    let b = d.add_node(0, elem(P, vec![DATA_X]));
    let c = d.add_node(0, elem(SPAN, vec![]));
    let n_before = d.node_count();

    let mut r = Recording::on_attr(DATA_X, two_texts);
    hydrate_node(&mut d, 0, &mut r).unwrap();

    assert_eq!(d.child_count(0), 4);
    assert_eq!(d.child_at(0, 0), a);
    let x = d.child_at(0, 1);
    let y = d.child_at(0, 2);
    assert!(x >= n_before && y >= n_before);
    assert_eq!(d.child_at(0, 3), c);
    assert!(!d.is_attached(b));
    // resumed at C: C tested, X and Y never offered
    assert_eq!(r.visited, vec![0, a, b, c]);
}

#[test]
fn coverage_is_preorder_when_nothing_matches() {
    // children keep their insertion order, so the walk's order differs from
    // the ids' numeric order
    let mut d = Dom::new(elem(DIV, vec![]));
    let a = d.add_node(0, elem(SPAN, vec![]));
    let g1 = d.add_node(0, elem(SPAN, vec![]));
    let g2 = d.add_node(0, elem(SPAN, vec![]));
    let b = d.add_node(a, text(1));
    let c = d.add_node(a, text(2));
    let e = d.add_node(g1, elem(P, vec![]));
    let f = d.add_node(e, text(3));

    let order = preorder_ids(&d, 0);
    assert_eq!(order, vec![0, a, b, c, g1, e, f, g2]);

    let mut r = Recording::never();
    hydrate_node(&mut d, 0, &mut r).unwrap();
    assert_eq!(r.visited, order);

    // every node exactly once
    let mut sorted = r.visited.clone();
    sorted.sort();
    sorted.dedup();
    assert_eq!(sorted.len(), d.node_count());
}

#[test]
fn replacements_are_never_reentered() {
    let mut d = Dom::new(elem(DIV, vec![]));
    let _a = d.add_node(0, elem(SPAN, vec![]));
    let b = d.add_node(0, elem(P, vec![DATA_X]));
    let under_b = d.add_node(b, text(7));
    let _c = d.add_node(0, elem(SPAN, vec![]));
    let n_before = d.node_count();

    let mut r = Recording::on_attr(DATA_X, single_b);
    hydrate_node(&mut d, 0, &mut r).unwrap();

    // no freshly built node was ever offered to the predicate
    assert!(r.visited.iter().all(|&n| n < n_before));
    // nothing under the detached match was offered either
    assert!(!r.visited.contains(&under_b));
}

#[test]
fn children_walk_skips_the_root_test() {
    let mut d = Dom::new(elem(DIV, vec![DATA_X]));
    let a = d.add_node(0, elem(SPAN, vec![]));
    let b = d.add_node(a, text(5));

    // hydrate_children never offers the root, so the marked root survives
    let mut r = Recording::on_attr(DATA_X, single_b);
    hydrate_children(&mut d, 0, &mut r);
    assert_eq!(r.visited, vec![a, b]);
    assert!(d.is_attached(0));
}

#[test]
fn extraction_before_mutation_returns_children_in_order() {
    let mut d = Dom::new(elem(DIV, vec![]));
    let p = d.add_node(0, elem(P, vec![]));
    let t1 = d.add_node(p, text(1));
    let t2 = d.add_node(p, text(2));
    let t3 = d.add_node(p, elem(SPAN, vec![]));

    let orig = OriginalChildren::new(p);
    assert_eq!(orig.clone_children(&d).unwrap(), vec![t1, t2, t3]);
}

#[test]
fn extraction_after_detach_fails_fatally() {
    let mut d = Dom::new(elem(DIV, vec![]));
    let p = d.add_node(0, elem(P, vec![]));
    let _t1 = d.add_node(p, text(1));

    let orig = OriginalChildren::new(p);
    d.detach_child(0, 0);
    assert_eq!(orig.clone_children(&d), Err(HydrationError::DetachedElement));
}

#[test]
fn deep_tree_traversal_does_not_overflow() {
    let mut d = Dom::new(elem(DIV, vec![]));
    let mut cur: usize = 0;
    for _ in 0..100_000 {
        cur = d.add_node(cur, elem(DIV, vec![]));
    }
    let order = preorder_ids(&d, 0);
    assert_eq!(order.len(), 100_001);

    let mut r = Recording::never();
    hydrate_node(&mut d, 0, &mut r).unwrap();
    assert_eq!(r.visited.len(), 100_001);
}

#[test]
fn matched_root_with_parent_is_replaced_in_place() {
    let mut d = Dom::new(elem(DIV, vec![]));
    let left = d.add_node(0, elem(SPAN, vec![]));
    let p = d.add_node(0, elem(P, vec![DATA_X]));
    let right = d.add_node(0, elem(SPAN, vec![]));
    let n_before = d.node_count();

    // hydration rooted at the marked element itself: it is tested first and
    // replaced, nothing deeper is walked
    let mut r = Recording::on_attr(DATA_X, single_b);
    hydrate_node(&mut d, p, &mut r).unwrap();

    assert_eq!(r.visited, vec![p]);
    assert_eq!(d.child_count(0), 3);
    assert_eq!(d.child_at(0, 0), left);
    let nb = d.child_at(0, 1);
    assert!(nb >= n_before);
    assert_eq!(d.tag_of(nb), Some(B));
    assert_eq!(d.child_at(0, 2), right);
    assert!(!d.is_attached(p));
}

#[test]
fn matched_parentless_root_is_fatal_and_mutates_nothing() {
    let mut d = Dom::new(elem(DIV, vec![DATA_X]));
    let a = d.add_node(0, elem(SPAN, vec![]));
    let n_before = d.node_count();

    let mut r = Recording::on_attr(DATA_X, single_b);
    let res = hydrate_node(&mut d, 0, &mut r);
    assert_eq!(res, Err(HydrationError::ParentlessMatch));
    assert_eq!(d.node_count(), n_before);
    assert_eq!(d.child_count(0), 1);
    assert_eq!(d.child_at(0, 0), a);
}

#[test]
fn empty_replacement_removes_the_element() {
    let mut d = Dom::new(elem(DIV, vec![]));
    let a = d.add_node(0, elem(SPAN, vec![]));
    let b = d.add_node(0, elem(P, vec![DATA_X]));
    let c = d.add_node(0, elem(SPAN, vec![]));

    let mut r = Recording::on_attr(DATA_X, empty_frags);
    hydrate_node(&mut d, 0, &mut r).unwrap();

    assert_eq!(d.child_count(0), 2);
    assert_eq!(d.child_at(0, 0), a);
    assert_eq!(d.child_at(0, 1), c);
    assert!(!d.is_attached(b));
    assert_eq!(r.visited, vec![0, a, b, c]);
}

#[test]
fn two_sibling_matches_in_one_pass() {
    let mut d = Dom::new(elem(DIV, vec![]));
    let a = d.add_node(0, elem(P, vec![DATA_X]));
    let b = d.add_node(0, elem(SPAN, vec![]));
    let c = d.add_node(0, elem(P, vec![DATA_X]));
    let n_before = d.node_count();

    let mut r = Recording::on_attr(DATA_X, two_texts);
    hydrate_node(&mut d, 0, &mut r).unwrap();

    // [A, B, C] with A and C both matched by a 2-node builder:
    // [X, Y, B, X', Y']
    assert_eq!(d.child_count(0), 5);
    assert!(d.child_at(0, 0) >= n_before);
    assert!(d.child_at(0, 1) >= n_before);
    assert_eq!(d.child_at(0, 2), b);
    assert!(d.child_at(0, 3) >= n_before);
    assert!(d.child_at(0, 4) >= n_before);
    assert!(!d.is_attached(a));
    assert!(!d.is_attached(c));
    assert_eq!(r.visited, vec![0, a, b, c]);
}

#[test]
fn nested_match_replaces_deep_in_the_tree() {
    let mut d = Dom::new(elem(DIV, vec![]));
    let a = d.add_node(0, elem(SPAN, vec![]));
    let b = d.add_node(a, elem(P, vec![DATA_X]));
    let tail = d.add_node(0, elem(SPAN, vec![]));
    let n_before = d.node_count();

    let mut r = Recording::on_attr(DATA_X, single_b);
    hydrate_node(&mut d, 0, &mut r).unwrap();

    assert_eq!(d.child_count(a), 1);
    let nb = d.child_at(a, 0);
    assert!(nb >= n_before);
    assert_eq!(d.tag_of(nb), Some(B));
    assert!(!d.is_attached(b));
    // after finishing under a, the walk still reaches a's later sibling
    assert_eq!(r.visited, vec![0, a, b, tail]);
}

#[test]
fn single_node_tree_offers_only_the_root() {
    let mut d = Dom::new(elem(DIV, vec![]));
    assert_eq!(preorder_ids(&d, 0), vec![0]);
    let mut r = Recording::never();
    hydrate_node(&mut d, 0, &mut r).unwrap();
    assert_eq!(r.visited, vec![0]);
}

#[test]
fn hydration_guard_starts_exactly_once() {
    let mut g = HydrationGuard::new();
    assert!(g.try_start());
    assert!(!g.try_start());
    assert!(!g.try_start());
}

#[test]
fn node_queries_read_the_tree() {
    let mut d = Dom::new(elem(DIV, vec![]));
    let p = d.add_node(0, elem(P, vec![DATA_X, 101]));
    let t = d.add_node(p, text(9));

    assert_eq!(d.tag_of(0), Some(DIV));
    assert_eq!(d.tag_of(t), None);
    assert!(d.is_element(p));
    assert!(!d.is_element(t));
    assert!(d.has_attr(p, DATA_X));
    assert!(d.has_attr(p, 101));
    assert!(!d.has_attr(p, 102));
    assert!(!d.has_attr(t, DATA_X));
    assert_eq!(d.parent_of(t), Some(p));
    assert_eq!(d.parent_of(0), None);
    assert!(d.is_attached(t));
}
