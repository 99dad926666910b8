//! The attackers that the simulation knows: when each of them can
//! interrupt the enclave, and what each of them gets to see.

use vstd::prelude::*;
use crate::dump::{EntryWriteView, VCDEntry};
use crate::observations::PageTableObservations;
use crate::page_access::PageAccess;
use crate::page_table::{lemma_selection_is_filter, selection, PageTable};
use crate::tlb::{HardwareTLB, TlbView};

verus! {

/// How the attacker interrupts the enclave.
#[derive(Debug, Clone, Copy, PartialEq, Eq, Structural)]
pub enum InterruptPattern {
    DebugSingleStep,
    SingleStep,
    PageFault,
    Stealthy,
}

impl InterruptPattern {
    /// The name of the pattern.
    pub open spec fn name(self) -> Seq<char> {
        match self {
            Self::DebugSingleStep => "debug-single-step"@,
            Self::SingleStep => "single-step"@,
            Self::PageFault => "page-fault"@,
            Self::Stealthy => "stealthy"@,
        }
    }

    /// The name of the pattern.
    pub fn to_string(&self) -> (result: String)
        ensures
            result@ == self.name(),
    {
        match self {
            Self::DebugSingleStep => "debug-single-step".to_owned(),
            Self::SingleStep => "single-step".to_owned(),
            Self::PageFault => "page-fault".to_owned(),
            Self::Stealthy => "stealthy".to_owned(),
        }
    }
}

/// When the attacker gets to see what the page table shows.
#[derive(Debug, Clone, Copy, PartialEq, Eq, Structural)]
pub enum CanObserve {
    Always,
    Interrupt,
}

/// The accesses of `pages` that the TLB does not serve.
pub open spec fn untranslated(pages: Seq<PageAccess>, tlb: TlbView) -> Seq<PageAccess> {
    pages.filter(|page: PageAccess| !tlb.hits(page))
}

/// The accesses of `pages` that the TLB does not serve, to pages that the
/// attacker has not mapped.
pub open spec fn faulting(pages: Seq<PageAccess>, tlb: TlbView, live_pages: Seq<usize>) -> Seq<
    PageAccess,
> {
    untranslated(pages, tlb).filter(|page: PageAccess| !live_pages.contains(page.page))
}

/// The pages that the accesses of `pages` name, in order.
pub open spec fn page_numbers(pages: Seq<PageAccess>) -> Seq<usize> {
    Seq::new(pages.len(), |i: int| pages[i].page)
}

/// Whether `listing` lists what was observed: every observation once, in
/// any order.
pub open spec fn lists(listing: Seq<PageAccess>, observations: Map<usize, PageAccess>) -> bool {
    &&& listing.to_set() == observations.values()
    &&& listing.len() == observations.dom().len()
}

/// What an [`Attacker`] holds.
#[verifier::ext_equal]
pub enum AttackerView {
    DebugSingleStep,
    SingleStep,
    PageFault { live_pages: Seq<usize>, observe_ptes: bool },
    Stealthy,
}

impl AttackerView {
    /// The attacker that follows a pattern.  An attacker that works with
    /// page faults starts without mapped pages.
    pub open spec fn of(pattern: InterruptPattern, observe_ptes: bool) -> Self {
        match pattern {
            InterruptPattern::DebugSingleStep => AttackerView::DebugSingleStep,
            InterruptPattern::SingleStep => AttackerView::SingleStep,
            InterruptPattern::PageFault => AttackerView::PageFault {
                live_pages: Seq::empty(),
                observe_ptes,
            },
            InterruptPattern::Stealthy => AttackerView::Stealthy,
        }
    }

    /// The pattern that the attacker follows.
    pub open spec fn pattern(self) -> InterruptPattern {
        match self {
            AttackerView::DebugSingleStep => InterruptPattern::DebugSingleStep,
            AttackerView::SingleStep => InterruptPattern::SingleStep,
            AttackerView::PageFault { .. } => InterruptPattern::PageFault,
            AttackerView::Stealthy => InterruptPattern::Stealthy,
        }
    }

    /// Whether the attacker can interrupt the enclave, given the accesses
    /// that the page table shows and the state of the hardware TLB.
    ///
    /// A debugger can always interrupt and a stealthy attacker never does.
    /// Single-stepping takes an access that the TLB does not serve, and a
    /// page fault takes one to a page that the attacker has not mapped.
    pub open spec fn interrupts(self, pages: Seq<PageAccess>, tlb: TlbView) -> bool {
        match self {
            AttackerView::DebugSingleStep => true,
            AttackerView::SingleStep => exists|i: int|
                0 <= i < pages.len() && !tlb.hits(#[trigger] pages[i]),
            AttackerView::PageFault { live_pages, .. } => exists|i: int|
                0 <= i < pages.len() && !tlb.hits(#[trigger] pages[i]) && !live_pages.contains(
                    pages[i].page,
                ),
            AttackerView::Stealthy => false,
        }
    }

    /// When the attacker gets to see the page table: a stealthy attacker at
    /// all times, every other one when it interrupts.
    pub open spec fn can_observe(self) -> CanObserve {
        match self {
            AttackerView::Stealthy => CanObserve::Always,
            _ => CanObserve::Interrupt,
        }
    }

    /// Whether the attacker sees no more than the page faults themselves.
    pub open spec fn sees_faults_only(self) -> bool {
        self matches AttackerView::PageFault { observe_ptes, .. } && !observe_ptes
    }

    /// Whether `seen` is what the attacker sees: the accesses that fault
    /// if it sees page faults only, else all that was observed.
    pub open spec fn sees(
        self,
        seen: Seq<PageAccess>,
        pages: Seq<PageAccess>,
        tlb: TlbView,
        observations: Map<usize, PageAccess>,
    ) -> bool {
        if self.sees_faults_only() {
            seen == faulting(pages, tlb, self->live_pages)
        } else {
            lists(seen, observations)
        }
    }

    /// What stays observed after a step: nothing for a stealthy attacker,
    /// who does not gather observations over steps.
    pub open spec fn step_observations(
        self,
        observations: Map<usize, PageAccess>,
    ) -> Map<usize, PageAccess> {
        match self {
            AttackerView::Stealthy => Map::empty(),
            _ => observations,
        }
    }

    /// The attacker after an interrupt: one that works with page faults has
    /// mapped the pages that were accessed.
    pub open spec fn interrupted(self, pages: Seq<PageAccess>) -> Self {
        match self {
            AttackerView::PageFault { observe_ptes, .. } => AttackerView::PageFault {
                live_pages: page_numbers(pages),
                observe_ptes,
            },
            _ => self,
        }
    }

    /// What stays observed after an interrupt: nothing, but for a stealthy
    /// attacker, who has no interrupts.
    pub open spec fn interrupt_observations(
        self,
        observations: Map<usize, PageAccess>,
    ) -> Map<usize, PageAccess> {
        match self {
            AttackerView::Stealthy => observations,
            _ => Map::empty(),
        }
    }
}

/// The attacker of a simulation.
#[derive(Debug, Clone)]
pub enum Attacker {
    /// Interrupts after every instruction, which takes an enclave in debug
    /// mode.
    DebugSingleStep,
    /// Interrupts whenever an access misses the hardware TLB.
    SingleStep,
    /// Interrupts by page faults: `live_pages` are the pages that it had to
    /// map to let the enclave go on, and which cannot fault for now.
    PageFault { live_pages: Vec<usize>, observe_ptes: bool },
    /// Watches the page table without ever interrupting.
    Stealthy,
}

impl View for Attacker {
    type V = AttackerView;

    open spec fn view(&self) -> AttackerView {
        match self {
            Attacker::DebugSingleStep => AttackerView::DebugSingleStep,
            Attacker::SingleStep => AttackerView::SingleStep,
            Attacker::PageFault { live_pages, observe_ptes } => AttackerView::PageFault {
                live_pages: live_pages@,
                observe_ptes: *observe_ptes,
            },
            Attacker::Stealthy => AttackerView::Stealthy,
        }
    }
}

/// Whether `pages` holds `page`.
fn holds_page(pages: &Vec<usize>, page: usize) -> (result: bool)
    ensures
        result == pages@.contains(page),
{
    let mut i: usize = 0;
    while i < pages.len()
        invariant
            i <= pages@.len(),
            forall|j: int| 0 <= j < i ==> pages@[j] != page,
        decreases pages@.len() - i,
    {
        if pages[i] == page {
            return true;
        }
        i += 1;
    }
    false
}

/// A filtered sequence has an element exactly if the sequence has one that
/// passes the filter.
pub proof fn lemma_filter_nonempty(pages: Seq<PageAccess>, pred: spec_fn(PageAccess) -> bool)
    ensures
        pages.filter(pred).len() > 0 <==> exists|i: int|
            0 <= i < pages.len() && pred(#[trigger] pages[i]),
    decreases pages.len(),
{
    reveal(Seq::filter);
    if pages.len() > 0 {
        let front = pages.drop_last();
        lemma_filter_nonempty(front, pred);
        if exists|i: int| 0 <= i < front.len() && pred(#[trigger] front[i]) {
            let i = choose|i: int| 0 <= i < front.len() && pred(#[trigger] front[i]);
            assert(pages[i] == front[i]);
        }
        if exists|i: int| 0 <= i < pages.len() && pred(#[trigger] pages[i]) {
            let i = choose|i: int| 0 <= i < pages.len() && pred(#[trigger] pages[i]);
            if i < front.len() {
                assert(front[i] == pages[i]);
            } else {
                assert(pages.last() == pages[i]);
            }
        }
    }
}

/// The accesses of the last sample that the TLB does not serve.
pub fn untranslated_pages(page_table: &PageTable, hw_tlb: &HardwareTLB) -> (result: Vec<
    PageAccess,
>)
    requires
        hw_tlb.wf(),
        hw_tlb@.usable(),
    ensures
        result@ == untranslated(page_table.pages@, hw_tlb@),
{
    let missed = |p: &PageAccess| -> (missed: bool)
        requires
            hw_tlb.wf(),
            hw_tlb@.usable(),
        ensures
            missed == !hw_tlb@.hits(*p),
        { !hw_tlb.test(p) };
    let result = page_table.get_accessed_pages(missed);
    proof {
        let kept = choose|kept: Seq<bool>|
            {
                &&& kept.len() == page_table.pages@.len()
                &&& forall|i: int|
                    0 <= i < kept.len() ==> call_ensures(
                        missed,
                        (&page_table.pages@[i],),
                        #[trigger] kept[i],
                    )
                &&& result@ == selection(page_table.pages@, kept)
            };
        lemma_selection_is_filter(page_table.pages@, kept, |page: PageAccess| !hw_tlb@.hits(page));
    }
    result
}

impl Attacker {
    /// The attacker that follows a pattern.
    pub fn new(pattern: InterruptPattern, observe_ptes: bool) -> (result: Self)
        ensures
            result@ == AttackerView::of(pattern, observe_ptes),
    {
        match pattern {
            InterruptPattern::DebugSingleStep => Attacker::DebugSingleStep,
            InterruptPattern::SingleStep => Attacker::SingleStep,
            InterruptPattern::PageFault => Attacker::PageFault {
                live_pages: Vec::new(),
                observe_ptes,
            },
            InterruptPattern::Stealthy => Attacker::Stealthy,
        }
    }

    /// The name of the pattern that the attacker follows.
    pub fn to_string(&self) -> (result: String)
        ensures
            result@ == self@.pattern().name(),
    {
        match self {
            Self::DebugSingleStep => "debug-single-step".to_owned(),
            Self::SingleStep => "single-step".to_owned(),
            Self::PageFault { .. } => "page-fault".to_owned(),
            Self::Stealthy => "stealthy".to_owned(),
        }
    }

    /// Given the behaviour of the attacker and the state of the HW TLB and
    /// page table, would the attacker be able to interrupt at this point.
    pub fn can_trigger_interrupt(&self, page_table: &PageTable, hw_tlb: &HardwareTLB) -> (result:
        bool)
        requires
            hw_tlb.wf(),
            hw_tlb@.usable(),
        ensures
            result == self@.interrupts(page_table.pages@, hw_tlb@),
    {
        match self {
            Attacker::DebugSingleStep => {
                // A single-stepping adversary can always interrupt,
                // regardless of the state of the hardware TLB.
                true
            },
            Attacker::SingleStep => {
                // This attacker can interrupt if there is some page accessed
                // that was not in the hardware TLB.
                let missed = untranslated_pages(page_table, hw_tlb);
                proof {
                    lemma_filter_nonempty(
                        page_table.pages@,
                        |page: PageAccess| !hw_tlb@.hits(page),
                    );
                }
                missed.len() > 0
            },
            Attacker::PageFault { live_pages, .. } => {
                // The page fault attacker is like the single-stepping
                // attacker, but has a set of live pages that are mapped.  An
                // interrupt can only be triggered if there is a page that
                // is not in the hardware TLB *and* not in the set of pages
                // that the attacker made accessible.
                let missed = untranslated_pages(page_table, hw_tlb);
                let mut found = false;
                let mut i: usize = 0;
                while i < missed.len() && !found
                    invariant
                        i <= missed@.len(),
                        !found ==> forall|j: int|
                            0 <= j < i ==> live_pages@.contains((#[trigger] missed@[j]).page),
                        found ==> 0 < i && !live_pages@.contains(missed@[i - 1].page),
                    decreases missed@.len() - i,
                {
                    if !holds_page(live_pages, missed[i].page) {
                        found = true;
                    }
                    i += 1;
                }
                proof {
                    let pages = page_table.pages@;
                    let tlb = hw_tlb@;
                    let pred = |page: PageAccess| !tlb.hits(page);
                    if found {
                        let access = missed@[i - 1];
                        assert(pages.filter(pred).contains(access));
                        pages.lemma_filter_contains_rev(pred, access);
                        let k = choose|k: int| 0 <= k < pages.len() && pages[k] == access;
                        pages.lemma_filter_pred(pred, i - 1);
                        assert(!tlb.hits(pages[k]));
                    } else if self@.interrupts(pages, tlb) {
                        let k = choose|k: int|
                            0 <= k < pages.len() && !tlb.hits(#[trigger] pages[k])
                                && !live_pages@.contains(pages[k].page);
                        pages.lemma_filter_contains(pred, k);
                        let j = choose|j: int| 0 <= j < missed@.len() && missed@[j] == pages[k];
                        assert(live_pages@.contains(missed@[j].page));
                    }
                }
                found
            },
            Attacker::Stealthy => {
                // The stealthy attacker only observes changes to PTE bits,
                // but never interrupts.
                false
            },
        }
    }

    /// Writes what the attacker sees at this step to an entry of the
    /// trace.
    pub fn observe(
        &self,
        entry: &mut VCDEntry,
        page_table: &PageTable,
        hw_tlb: &HardwareTLB,
        observations: &PageTableObservations,
    )
        requires
            hw_tlb.wf(),
            hw_tlb@.usable(),
        ensures
            final(entry)@.len() == old(entry)@.len() + 1,
            final(entry)@.drop_last() == old(entry)@,
            final(entry)@.last() matches EntryWriteView::PageAccesses(seen) && self@.sees(
                seen,
                page_table.pages@,
                hw_tlb@,
                observations@,
            ),
    {
        match self {
            Attacker::PageFault { live_pages, observe_ptes: false } => {
                let missed = untranslated_pages(page_table, hw_tlb);
                let mut seen: Vec<PageAccess> = Vec::new();
                let ghost pred = |page: PageAccess| !live_pages@.contains(page.page);
                let mut i: usize = 0;
                proof {
                    reveal(Seq::filter);
                    assert(missed@.take(0) =~= Seq::<PageAccess>::empty());
                }
                while i < missed.len()
                    invariant
                        i <= missed@.len(),
                        pred == |page: PageAccess| !live_pages@.contains(page.page),
                        seen@ == missed@.take(i as int).filter(pred),
                    decreases missed@.len() - i,
                {
                    proof {
                        reveal(Seq::filter);
                        let next = missed@.take(i + 1);
                        assert(next.drop_last() =~= missed@.take(i as int));
                        assert(next.last() == missed@[i as int]);
                    }
                    if !holds_page(live_pages, missed[i].page) {
                        seen.push(missed[i]);
                    }
                    i += 1;
                }
                assert(missed@.take(i as int) =~= missed@);
                entry.write_page_accesses(seen.as_slice());
            },
            _ => {
                let seen = observations.iter();
                entry.write_page_accesses(seen.as_slice());
            },
        }
        assert(final(entry)@.drop_last() =~= old(entry)@);
    }

    /// When the attacker gets to see the page table.
    pub fn can_observe(&self) -> (result: CanObserve)
        ensures
            result == self@.can_observe(),
    {
        match self {
            // Stealthy attacker sees everything without interrupts.
            Attacker::Stealthy => CanObserve::Always,
            // Other attackers only observe on interrupt.
            _ => CanObserve::Interrupt,
        }
    }

    /// The attacker takes note of a step of the enclave.
    pub fn handle_step(&mut self, observations: &mut PageTableObservations)
        requires
            old(observations).wf(),
        ensures
            final(self)@ == old(self)@,
            final(observations).wf(),
            final(observations)@ == old(self)@.step_observations(old(observations)@),
    {
        match self {
            Attacker::Stealthy => observations.clear(),
            _ => {},
        }
    }

    /// The attacker interrupts the enclave.
    pub fn handle_interrupt(
        &mut self,
        page_table: &PageTable,
        observations: &mut PageTableObservations,
    )
        requires
            old(observations).wf(),
        ensures
            final(self)@ == old(self)@.interrupted(page_table.pages@),
            final(observations).wf(),
            final(observations)@ == old(self)@.interrupt_observations(old(observations)@),
    {
        match self {
            Attacker::PageFault { live_pages, .. } => {
                // This attacker maps the pages that are necessary for the
                // current instruction to execute.  It can then not trigger
                // page faults on those pages, so they are recorded as live
                // pages to remember the current capabilities of the
                // attacker.
                live_pages.clear();
                let pages = page_table.get_all_accessed_pages();
                let mut i: usize = 0;
                while i < pages.len()
                    invariant
                        i <= pages@.len(),
                        pages@ == page_table.pages@,
                        live_pages@ == page_numbers(pages@).take(i as int),
                    decreases pages@.len() - i,
                {
                    live_pages.push(pages[i].page);
                    i += 1;
                    assert(live_pages@ =~= page_numbers(pages@).take(i as int));
                }
                assert(page_numbers(pages@).take(i as int) =~= page_numbers(pages@));
                observations.clear();
            },
            Attacker::Stealthy => {},
            _ => {
                // All other attackers clear PTE bits as often as possible.
                observations.clear();
            },
        }
    }
}

impl From<InterruptPattern> for Attacker {
    fn from(value: InterruptPattern) -> (result: Self)
        ensures
            result@ == AttackerView::of(value, true),
    {
        Attacker::new(value, true)
    }
}

impl vstd::std_specs::convert::FromSpecImpl<InterruptPattern> for Attacker {
    /// The conversion yields a vector, of which only the contents are
    /// specified: see the contract of `from`.
    open spec fn obeys_from_spec() -> bool {
        false
    }

    open spec fn from_spec(value: InterruptPattern) -> Self {
        arbitrary()
    }
}

} // verus!
