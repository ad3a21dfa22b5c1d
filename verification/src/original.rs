use vstd::prelude::*;
use crate::tree::Dom;
use crate::engine::HydrationError;

verus! {

/// Exclusive capture of one live element, standing for "the children this
/// node used to have": the handle lets a caller move the captured element's
/// current children somewhere else in the output tree without copying them.
/// Extraction demands that the element still be attached to the document; on
/// a stale capture it reports the fatal condition instead of silently
/// handing back stale or empty content.
pub struct OriginalChildren {
    elem: usize,
}

impl OriginalChildren {
    /// The captured element.
    pub closed spec fn element(self) -> int {
        self.elem as int
    }

    /// Capture `e`. Nothing is copied or moved yet.
    pub fn new(e: usize) -> (r: OriginalChildren)
        ensures
            r.element() == e as int,
    {
        OriginalChildren { elem: e }
    }

    /// The captured element's children at extraction time, in document
    /// order — or the fatal condition when the capture has gone stale, that
    /// is, the element is no longer attached to the document.
    pub fn clone_children(&self, dom: &Dom) -> (r: Result<Vec<usize>, HydrationError>)
        requires
            dom.wf(),
            dom.valid(self.element()),
        ensures
            match r {
                Ok(v) => dom.attached(self.element()) && v@ == dom.ch(self.element()),
                Err(e) => !dom.attached(self.element()) && e is DetachedElement,
            },
    {
        if !dom.is_attached(self.elem) {
            return Err(HydrationError::DetachedElement);
        }
        let cnt = dom.child_count(self.elem);
        let mut v: Vec<usize> = Vec::new();
        let mut i: usize = 0;
        while i < cnt
            invariant
                dom.wf(),
                dom.valid(self.element()),
                cnt as int == dom.ch(self.element()).len(),
                i <= cnt,
                v@ == dom.ch(self.element()).take(i as int),
            decreases cnt - i,
        {
            v.push(dom.child_at(self.elem, i));
            proof {
                assert(v@ =~= dom.ch(self.element()).take(i as int + 1));
            }
            i = i + 1;
        }
        proof {
            assert(dom.ch(self.element()).take(cnt as int) =~= dom.ch(self.element()));
        }
        Ok(v)
    }
}

} // verus!
