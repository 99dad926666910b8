//! What the attacker has seen of the enclave's page accesses since the
//! page-table bits were last cleared.

use vstd::prelude::*;
use std::collections::HashMap;
use vstd::std_specs::iter::IteratorSpec;
use crate::page_access::PageAccess;

verus! {

/// The observations after one more access: the page of the access holds
/// the union of what was seen of it before and the access.
pub open spec fn observe(
    state: Map<usize, PageAccess>,
    access: PageAccess,
) -> Map<usize, PageAccess> {
    if state.contains_key(access.page) {
        state.insert(access.page, state[access.page].spec_union(access))
    } else {
        state.insert(access.page, access)
    }
}

/// The observations after the accesses of `pages`, in order.
pub open spec fn observe_all(
    state: Map<usize, PageAccess>,
    pages: Seq<PageAccess>,
) -> Map<usize, PageAccess>
    decreases pages.len(),
{
    if pages.len() == 0 {
        state
    } else {
        observe(observe_all(state, pages.drop_last()), pages.last())
    }
}

/// Every observation is filed under its own page.
pub open spec fn filed_by_page(state: Map<usize, PageAccess>) -> bool {
    forall|page: usize| state.contains_key(page) ==> (#[trigger] state[page]).page == page
}

/// Observing keeps every observation under its own page.
pub proof fn lemma_observe_all_filed(state: Map<usize, PageAccess>, pages: Seq<PageAccess>)
    requires
        filed_by_page(state),
    ensures
        filed_by_page(observe_all(state, pages)),
    decreases pages.len(),
{
    if pages.len() > 0 {
        lemma_observe_all_filed(state, pages.drop_last());
    }
}

/// What was observed of a page covers every access to it that was
/// observed, and nothing is forgotten.
pub proof fn lemma_observe_all_covers(state: Map<usize, PageAccess>, pages: Seq<PageAccess>)
    requires
        filed_by_page(state),
    ensures
        forall|i: int|
            0 <= i < pages.len() ==> observe_all(state, pages).contains_key(
                (#[trigger] pages[i]).page,
            ) && observe_all(state, pages)[pages[i].page].spec_covers(pages[i]),
        forall|page: usize|
            #[trigger] state.contains_key(page) ==> observe_all(state, pages).contains_key(page)
                && observe_all(state, pages)[page].spec_covers(state[page]),
    decreases pages.len(),
{
    if pages.len() > 0 {
        let earlier = pages.drop_last();
        lemma_observe_all_covers(state, earlier);
        lemma_observe_all_filed(state, earlier);
        let before = observe_all(state, earlier);
        let after = observe_all(state, pages);
        assert forall|i: int| 0 <= i < pages.len() implies after.contains_key(
            (#[trigger] pages[i]).page,
        ) && after[pages[i].page].spec_covers(pages[i]) by {
            if i < earlier.len() {
                assert(earlier[i] == pages[i]);
                assert(before[pages[i].page].spec_covers(pages[i]));
            }
        }
        assert forall|page: usize| #[trigger] state.contains_key(page) implies after.contains_key(
            page,
        ) && after[page].spec_covers(state[page]) by {
            assert(before.contains_key(page));
            assert(before[page].spec_covers(state[page]));
            assert(before[page].page == page);
        }
    }
}

/// The page accesses observed since the last clear, by page.
pub struct PageTableObservations {
    state: HashMap<usize, PageAccess>,
}

impl View for PageTableObservations {
    type V = Map<usize, PageAccess>;

    closed spec fn view(&self) -> Map<usize, PageAccess> {
        self.state@
    }
}

impl PageTableObservations {
    /// Every observation is filed under its own page.
    pub open spec fn wf(&self) -> bool {
        filed_by_page(self@)
    }

    /// No observations.
    pub fn new() -> (result: Self)
        ensures
            result.wf(),
            result@ == Map::<usize, PageAccess>::empty(),
    {
        Self { state: HashMap::new() }
    }

    /// Forgets every observation.
    pub fn clear(&mut self)
        ensures
            final(self).wf(),
            final(self)@ == Map::<usize, PageAccess>::empty(),
    {
        self.state.clear()
    }

    /// Adds the accesses of `pages` to what was observed of their pages.
    pub fn update(&mut self, pages: &[PageAccess])
        requires
            old(self).wf(),
        ensures
            final(self).wf(),
            final(self)@ == observe_all(old(self)@, pages@),
    {
        let mut i: usize = 0;
        assert(pages@.take(0) =~= Seq::<PageAccess>::empty());
        while i < pages.len()
            invariant
                i <= pages@.len(),
                self@ == observe_all(old(self)@, pages@.take(i as int)),
            decreases pages@.len() - i,
        {
            let page = pages[i];
            proof {
                let next = pages@.take(i + 1);
                assert(next.drop_last() =~= pages@.take(i as int));
                assert(next.last() == page);
            }
            let merged = match self.state.get(&page.page) {
                Some(seen) => seen.union(&page),
                None => page,
            };
            self.state.insert(page.page, merged);
            i += 1;
        }
        assert(pages@.take(i as int) =~= pages@);
        proof {
            lemma_observe_all_filed(old(self)@, pages@);
        }
    }

    /// What was observed of `page`, if anything.
    pub fn get(&self, page: usize) -> (result: Option<PageAccess>)
        ensures
            result == (if self@.contains_key(page) {
                Some(self@[page])
            } else {
                None
            }),
    {
        match self.state.get(&page) {
            Some(seen) => Some(*seen),
            None => None,
        }
    }

    /// Number of pages of which something was observed.
    pub fn len(&self) -> (result: usize)
        ensures
            result == self@.dom().len(),
    {
        self.state.len()
    }

    /// The observations, one per page, in no particular order.
    pub fn iter(&self) -> (result: Vec<PageAccess>)
        ensures
            result@.to_set() == self@.values(),
            result@.len() == self@.dom().len(),
    {
        let mut result: Vec<PageAccess> = Vec::new();
        let ghost values = self.state.values().remaining().unref();
        for value in it: self.state.values()
            invariant
                it.seq().unref() == values,
                result@ == values.take(it.index()),
        {
            assert(values[it.index()] == *value);
            result.push(*value);
            assert(values.take(it.index() + 1) =~= values.take(it.index()).push(*value));
        }
        assert(result@ =~= values);
        result
    }
}

} // verus!
