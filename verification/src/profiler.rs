//! The dispatcher of the simulation: what happens at every trap of the
//! single-stepped enclave.
//!
//! At a trap the page table is sampled, the attacker decides whether it
//! could have interrupted here and what it has seen, and the simulated
//! hardware TLB either takes in the accesses of the step or, after an
//! interrupt, is flushed and filled with what the mitigation prefetches.

use vstd::prelude::*;
use crate::attacker::{untranslated, untranslated_pages, Attacker, AttackerView, CanObserve};
use crate::dump::{EntryWriteView, VCDEntry};
use crate::observations::{observe_all, PageTableObservations};
use crate::page_access::PageAccess;
use crate::page_table::{cleared_entries, shown_accesses, PageTable, PteBits, PAGE_SIZE};
use crate::pam::{PamView, PAM};
use crate::tlb::{HardwareTLB, HardwareTLBConfig, TlbView};

verus! {

/// What a simulation writes and what it leaves out.
#[derive(Debug, Clone, Copy, PartialEq, Eq, Structural)]
pub struct ProfilerConfig {
    /// Write the instruction pointer to every frame of a trace.
    pub write_erip: bool,
    /// Leave the hardware TLB empty after an interrupt.
    pub no_prefetch: bool,
    /// Trace the working set of the page-access map as well.
    pub debug_pam: bool,
    /// Trace the contents of the simulated hardware TLB as well.
    pub debug_sim_hwtlb: bool,
}

/// Where the enclave and the data of the mitigation lie in memory.
#[derive(Debug, Clone, Copy, PartialEq, Eq, Structural)]
pub struct EnclaveLayout {
    /// Address of the first byte of the enclave.
    pub base: usize,
    /// Address of the last byte of the enclave.
    pub limit: usize,
    /// Address of the page-access map.
    pub pam_address: usize,
    /// Address of the counter of the page-access map.
    pub pam_counter_address: usize,
    /// Address of the code that updates the page-access map.
    pub pam_update_code_address: usize,
}

/// What is read from the enclave at a trap.
#[derive(Debug, Clone, Copy, PartialEq, Eq, Structural)]
pub struct TrapInput {
    /// The instruction pointer of the enclave.
    pub erip: u64,
    /// The stack pointer that the enclave saved when it was interrupted.
    pub stack_ptr: usize,
}

/// What to do after a trap.
pub struct TrapOutput {
    /// The trap was the first one, which only served to clear the page
    /// table bits.
    pub primed: bool,
    /// The attacker could have interrupted the enclave at this step.
    pub interrupted: bool,
    /// What to write to the trace of the working set, if anything.
    pub pam_frame: Option<VCDEntry>,
    /// What to write to the trace of the hardware TLB, if anything.
    pub hwtlb_frame: Option<VCDEntry>,
    /// What to write to the trace of the attacker, if anything.
    pub trace_frame: Option<VCDEntry>,
}

/// Read and execute access to `page`.
pub open spec fn code_access(page: int) -> PageAccess {
    PageAccess { read: true, write: false, execute: true, page: page as usize }
}

/// Read and write access to `page`.
pub open spec fn data_access(page: int) -> PageAccess {
    PageAccess { read: true, write: true, execute: false, page: page as usize }
}

impl EnclaveLayout {
    /// The page of the enclave that holds `address`.
    pub open spec fn page_of(self, address: usize) -> int {
        (address - self.base) / PAGE_SIZE as int
    }

    /// Whether the stack pointer points into the enclave.
    pub open spec fn holds_stack(self, stack_ptr: usize) -> bool {
        self.base <= stack_ptr <= self.limit
    }

    /// Number of pages that are prefetched for a page-access map of
    /// `pam_len` counters.
    pub open spec fn pam_page_count(pam_len: nat) -> nat {
        pam_len * 8 / PAGE_SIZE as nat + 1
    }

    /// The data of the mitigation lies in the enclave, and its pages can be
    /// numbered.
    pub open spec fn wf(self, pam_len: nat) -> bool {
        &&& self.base <= self.pam_address
        &&& self.base <= self.pam_counter_address
        &&& self.base <= self.pam_update_code_address
        &&& pam_len * 8 <= usize::MAX
        &&& self.page_of(self.pam_address) + Self::pam_page_count(pam_len) <= usize::MAX
    }

    /// Whether the page below the one of the stack pointer can be named.
    pub open spec fn stack_ok(self, stack_ptr: usize) -> bool {
        self.holds_stack(stack_ptr) ==> self.page_of(stack_ptr) >= 1
    }

    /// The pages of the stack: the one that the stack pointer points to and
    /// its two neighbours, if the stack pointer points into the enclave.
    pub open spec fn stack_pages(self, stack_ptr: usize) -> Seq<PageAccess> {
        if self.holds_stack(stack_ptr) {
            let page = self.page_of(stack_ptr);
            seq![code_access(page - 1), code_access(page), code_access(page + 1)]
        } else {
            Seq::empty()
        }
    }

    /// The page of the code that updates the page-access map.
    pub open spec fn code_page(self) -> Seq<PageAccess> {
        seq![code_access(self.page_of(self.pam_update_code_address))]
    }

    /// The page of the counter of the page-access map.
    pub open spec fn counter_page(self) -> Seq<PageAccess> {
        seq![data_access(self.page_of(self.pam_counter_address))]
    }

    /// The pages of the page-access map.
    pub open spec fn pam_pages(self, pam_len: nat) -> Seq<PageAccess> {
        Seq::new(
            Self::pam_page_count(pam_len),
            |i: int| data_access(self.page_of(self.pam_address) + i),
        )
    }
}

impl EnclaveLayout {
    /// Whether the data of the mitigation lies in the enclave, and its
    /// pages can be numbered for a page-access map of `pam_len` counters.
    pub fn is_valid(&self, pam_len: usize) -> (result: bool)
        ensures
            result == self.wf(pam_len as nat),
    {
        if self.base > self.pam_address || self.base > self.pam_counter_address || self.base
            > self.pam_update_code_address {
            return false;
        }
        if pam_len > usize::MAX / 8 {
            return false;
        }
        let first = (self.pam_address - self.base) / PAGE_SIZE;
        let count = pam_len * 8 / PAGE_SIZE + 1;
        first <= usize::MAX - count
    }

    /// Whether the page below the one of the stack pointer can be named.
    pub fn has_stack_room(&self, stack_ptr: usize) -> (result: bool)
        ensures
            result == self.stack_ok(stack_ptr),
    {
        if stack_ptr >= self.base && stack_ptr <= self.limit {
            (stack_ptr - self.base) / PAGE_SIZE >= 1
        } else {
            true
        }
    }
}

/// What a [`Profiler`] holds.
#[verifier::ext_equal]
pub struct ProfilerView {
    pub config: ProfilerConfig,
    pub layout: EnclaveLayout,
    /// The entries of the page table as last read.
    pub page_table_map: Seq<Option<PteBits>>,
    /// The accesses that the last sample showed.
    pub pages: Seq<PageAccess>,
    /// Every access that any sample showed.
    pub accessed_ptes: Seq<(PageAccess, usize)>,
    pub pam: PamView,
    pub attacker: AttackerView,
    pub tlb: TlbView,
    /// What the attacker has observed since the page table bits were last
    /// cleared for it.
    pub observations: Map<usize, PageAccess>,
    /// No trap has been handled yet.
    pub first_run: bool,
}

impl ProfilerView {
    /// The accesses that the page table shows.
    pub open spec fn sampled(self) -> Seq<PageAccess> {
        shown_accesses(self.page_table_map, self.page_table_map.len())
    }

    /// What the attacker has observed once the accesses of this step that
    /// the hardware TLB did not serve have left their mark in the page
    /// table.
    pub open spec fn observed(self) -> Map<usize, PageAccess> {
        observe_all(self.observations, untranslated(self.sampled(), self.tlb))
    }

    /// Whether the attacker can interrupt the enclave at this step.
    pub open spec fn interrupted(self) -> bool {
        self.attacker.interrupts(self.sampled(), self.tlb)
    }

    /// Whether the attacker gets to see the page table at this step.
    pub open spec fn observes(self) -> bool {
        self.attacker.can_observe() == CanObserve::Always || self.interrupted()
    }

    /// The TLB and the observations after the mitigation has prefetched
    /// `pages`.
    pub open spec fn prefetch(
        state: (TlbView, Map<usize, PageAccess>),
        pages: Seq<PageAccess>,
    ) -> (TlbView, Map<usize, PageAccess>) {
        (state.0.update(pages), observe_all(state.1, pages))
    }

    /// The TLB and the observations after an interrupt: the TLB is flushed
    /// and the attacker clears the page table bits.  Then the mitigation
    /// prefetches the working set, the stack, the code and the counter of
    /// the page-access map, and the map itself.
    pub open spec fn after_interrupt(self, stack_ptr: usize) -> (TlbView, Map<usize, PageAccess>) {
        let cleared = (
            self.tlb.flush(),
            self.attacker.interrupt_observations(
                self.attacker.step_observations(self.observed()),
            ),
        );
        if self.config.no_prefetch {
            cleared
        } else {
            Self::prefetch(
                Self::prefetch(
                    Self::prefetch(
                        Self::prefetch(
                            Self::prefetch(cleared, self.pam.active),
                            self.layout.stack_pages(stack_ptr),
                        ),
                        self.layout.code_page(),
                    ),
                    self.layout.counter_page(),
                ),
                self.layout.pam_pages(self.pam.buffer.len()),
            )
        }
    }

    /// The simulation after a trap.  The first trap only clears the page
    /// table bits, which are stale from the start of the enclave.
    pub open spec fn trap(self, input: TrapInput) -> Self {
        if self.first_run {
            ProfilerView {
                first_run: false,
                page_table_map: cleared_entries(self.page_table_map),
                ..self
            }
        } else if self.interrupted() {
            ProfilerView {
                page_table_map: cleared_entries(self.page_table_map),
                pages: self.sampled(),
                accessed_ptes: self.accessed_ptes + PageTable::filed(self.sampled()),
                attacker: self.attacker.interrupted(self.sampled()),
                tlb: self.after_interrupt(input.stack_ptr).0,
                observations: self.after_interrupt(input.stack_ptr).1,
                ..self
            }
        } else {
            ProfilerView {
                page_table_map: cleared_entries(self.page_table_map),
                pages: self.sampled(),
                accessed_ptes: self.accessed_ptes + PageTable::filed(self.sampled()),
                tlb: self.tlb.update(self.sampled()),
                observations: self.attacker.step_observations(self.observed()),
                ..self
            }
        }
    }

    /// What the frames of this step start with: the instruction pointer, if
    /// it is to be written.
    pub open spec fn frame_start(self, input: TrapInput) -> Seq<EntryWriteView> {
        if self.config.write_erip {
            seq![EntryWriteView::Erip(input.erip)]
        } else {
            Seq::empty()
        }
    }

    /// Whether `frame` is a frame of this step that shows pages of which
    /// `shown` holds.
    pub open spec fn is_frame(
        self,
        frame: Option<VCDEntry>,
        input: TrapInput,
        written: bool,
        shown: spec_fn(Seq<PageAccess>) -> bool,
    ) -> bool {
        if written {
            &&& frame matches Some(entry)
            &&& entry@.len() == self.frame_start(input).len() + 1
            &&& entry@.drop_last() == self.frame_start(input)
            &&& entry@.last() matches EntryWriteView::PageAccesses(pages)
            &&& shown(pages)
        } else {
            frame is None
        }
    }

    /// Whether `output` is what the trap asks to be done.
    pub open spec fn answers(self, input: TrapInput, output: TrapOutput) -> bool {
        &&& output.primed == self.first_run
        &&& output.interrupted == (!self.first_run && self.interrupted())
        &&& self.is_frame(
            output.pam_frame,
            input,
            !self.first_run && self.config.debug_pam,
            |pages: Seq<PageAccess>| pages == self.pam.active,
        )
        &&& self.is_frame(
            output.hwtlb_frame,
            input,
            !self.first_run && self.config.debug_sim_hwtlb,
            |pages: Seq<PageAccess>|
                pages.no_duplicates() && TlbView::Perfect(pages.to_set()) == self.tlb,
        )
        &&& self.is_frame(
            output.trace_frame,
            input,
            !self.first_run && self.observes(),
            |pages: Seq<PageAccess>|
                self.attacker.sees(pages, self.sampled(), self.tlb, self.observed()),
        )
    }

    /// The parts of the simulation fit together.
    pub open spec fn wf(self) -> bool {
        &&& self.tlb.usable()
        &&& self.layout.wf(self.pam.buffer.len())
        &&& self.config.debug_sim_hwtlb ==> self.tlb is Perfect
        &&& crate::observations::filed_by_page(self.observations)
        &&& crate::pam::slots_in_range(self.pam.active, self.pam.buffer.len())
    }

    /// The simulation before the first trap.
    pub open spec fn start(
        entries: Seq<Option<PteBits>>,
        pam_size: nat,
        pws_size: nat,
        attacker: AttackerView,
        tlb: HardwareTLBConfig,
        config: ProfilerConfig,
        layout: EnclaveLayout,
    ) -> Self {
        ProfilerView {
            config,
            layout,
            page_table_map: cleared_entries(entries),
            pages: Seq::empty(),
            accessed_ptes: Seq::empty(),
            pam: PamView {
                buffer: Seq::new(pam_size, |i: int| 0u64),
                active: Seq::new(pws_size, |i: int| PageAccess::spec_default()),
                counter: 0,
            },
            attacker,
            tlb: TlbView::empty(tlb),
            observations: Map::empty(),
            first_run: true,
        }
    }
}

/// The simulation of an attacker that watches an enclave through its page
/// table while the mitigation is at work.
pub struct Profiler {
    config: ProfilerConfig,
    layout: EnclaveLayout,
    page_table: PageTable,
    pam: PAM,
    attacker: Attacker,
    hw_tlb: HardwareTLB,
    pte_observations: PageTableObservations,
    first_run: bool,
}

impl View for Profiler {
    type V = ProfilerView;

    closed spec fn view(&self) -> ProfilerView {
        ProfilerView {
            config: self.config,
            layout: self.layout,
            page_table_map: self.page_table.page_table_map@,
            pages: self.page_table.pages@,
            accessed_ptes: self.page_table.accessed_ptes@,
            pam: self.pam@,
            attacker: self.attacker@,
            tlb: self.hw_tlb@,
            observations: self.pte_observations@,
            first_run: self.first_run,
        }
    }
}

impl Profiler {
    /// The parts of the simulation are well formed and fit together.
    pub closed spec fn wf(&self) -> bool {
        &&& self@.wf()
        &&& self.hw_tlb.wf()
        &&& self.pam.wf()
        &&& self.pte_observations.wf()
    }

    /// A simulation before the first trap.
    pub fn new(
        entries: Vec<Option<PteBits>>,
        pam_size: usize,
        pws_size: usize,
        attacker: Attacker,
        tlb: HardwareTLBConfig,
        config: ProfilerConfig,
        layout: EnclaveLayout,
    ) -> (result: Self)
        requires
            layout.wf(pam_size as nat),
            TlbView::empty(tlb).usable(),
            config.debug_sim_hwtlb ==> tlb == HardwareTLBConfig::Perfect,
        ensures
            result.wf(),
            result@ == ProfilerView::start(
                entries@,
                pam_size as nat,
                pws_size as nat,
                attacker@,
                tlb,
                config,
                layout,
            ),
    {
        Self {
            config,
            layout,
            page_table: PageTable::new(entries),
            pam: PAM::new(pam_size, pws_size),
            attacker,
            hw_tlb: HardwareTLB::new(tlb),
            pte_observations: PageTableObservations::new(),
            first_run: true,
        }
    }

    /// The mirror of the page-access map.
    pub fn pam(&self) -> (result: &PAM)
        ensures
            result@ == self@.pam,
    {
        &self.pam
    }

    /// The shadow of the page table.
    pub fn page_table(&self) -> (result: &PageTable)
        ensures
            result.page_table_map@ == self@.page_table_map,
            result.pages@ == self@.pages,
            result.accessed_ptes@ == self@.accessed_ptes,
    {
        &self.page_table
    }

    /// The simulated hardware TLB.
    pub fn hw_tlb(&self) -> (result: &HardwareTLB)
        ensures
            result@ == self@.tlb,
    {
        &self.hw_tlb
    }

    /// The attacker.
    pub fn attacker(&self) -> (result: &Attacker)
        ensures
            result@ == self@.attacker,
    {
        &self.attacker
    }

    /// What the attacker has observed.
    pub fn observations(&self) -> (result: &PageTableObservations)
        ensures
            result@ == self@.observations,
    {
        &self.pte_observations
    }

    /// Brings the mirror of the page-access map up to date with what was
    /// read from the enclave; see [`PAM::update_pam`].
    pub fn update_pam(&mut self, new_counter: u64, counters: &[u64]) -> (drifted: bool)
        requires
            old(self).wf(),
            counters@.len() <= old(self)@.pam.buffer.len(),
        ensures
            final(self).wf(),
            final(self)@ == (ProfilerView {
                pam: crate::pam::pam_update(old(self)@.pam, new_counter, counters@),
                ..old(self)@
            }),
            drifted == (new_counter != old(self)@.pam.counter && crate::pam::pam_drifted(
                old(self)@.pam,
                new_counter,
                counters@,
            )),
    {
        let drifted = self.pam.update_pam(new_counter, counters);
        proof {
            assert(self@.pam.buffer.len() == old(self)@.pam.buffer.len());
        }
        drifted
    }

    /// Records what was read of the page-table entry of `page`.
    pub fn set_entry(&mut self, page: usize, entry: Option<PteBits>)
        requires
            old(self).wf(),
            page < old(self)@.page_table_map.len(),
        ensures
            final(self).wf(),
            final(self)@ == (ProfilerView {
                page_table_map: old(self)@.page_table_map.update(page as int, entry),
                ..old(self)@
            }),
    {
        self.page_table.set_entry(page, entry);
    }

    /// A frame that starts with the instruction pointer, if it is to be
    /// written.
    fn frame(&self, input: &TrapInput) -> (result: VCDEntry)
        ensures
            result@ == self@.frame_start(*input),
    {
        let mut entry = VCDEntry::new();
        if self.config.write_erip {
            entry.write_erip(input.erip);
        }
        entry
    }

    /// The mitigation prefetches `pages`.
    fn prefetch(&mut self, pages: &[PageAccess])
        requires
            old(self).wf(),
        ensures
            final(self).wf(),
            final(self)@ == (ProfilerView {
                tlb: old(self)@.tlb.update(pages@),
                observations: observe_all(old(self)@.observations, pages@),
                ..old(self)@
            }),
    {
        self.hw_tlb.update(pages);
        self.pte_observations.update(pages);
        proof {
            lemma_update_usable(old(self)@.tlb, pages@);
        }
    }

    /// The pages of the stack.
    fn stack_pages(&self, stack_ptr: usize) -> (result: Vec<PageAccess>)
        requires
            self.wf(),
            self@.layout.stack_ok(stack_ptr),
        ensures
            result@ == self@.layout.stack_pages(stack_ptr),
    {
        let mut result: Vec<PageAccess> = Vec::new();
        if stack_ptr >= self.layout.base && stack_ptr <= self.layout.limit {
            let stack_page = (stack_ptr - self.layout.base) / PAGE_SIZE;
            result.push(
                PageAccess { read: true, execute: true, write: false, page: stack_page - 1 },
            );
            result.push(PageAccess { read: true, execute: true, write: false, page: stack_page });
            result.push(
                PageAccess { read: true, execute: true, write: false, page: stack_page + 1 },
            );
        }
        assert(result@ =~= self@.layout.stack_pages(stack_ptr));
        result
    }

    /// The pages of the page-access map.
    fn pam_pages(&self) -> (result: Vec<PageAccess>)
        requires
            self.wf(),
        ensures
            result@ == self@.layout.pam_pages(self@.pam.buffer.len()),
    {
        let pam_page = (self.layout.pam_address - self.layout.base) / PAGE_SIZE;
        let count = self.pam.buffer().len() * 8 / PAGE_SIZE + 1;
        let mut result: Vec<PageAccess> = Vec::new();
        let mut i: usize = 0;
        while i < count
            invariant
                i <= count,
                pam_page + count <= usize::MAX,
                result@.len() == i,
                forall|j: int|
                    0 <= j < i ==> #[trigger] result@[j] == data_access(pam_page as int + j),
            decreases count - i,
        {
            result.push(PageAccess { read: true, execute: false, write: true, page: pam_page + i });
            i += 1;
        }
        assert(result@ =~= self@.layout.pam_pages(self@.pam.buffer.len()));
        result
    }

    /// Handles a trap of the enclave.
    ///
    /// The entries of the page table must have been read into the shadow
    /// and the page-access map into its mirror.  The answer tells what to
    /// write to the traces; afterwards the accessed and dirty bits of the
    /// page table are to be cleared, as they are in the shadow.
    pub fn handle_trap(&mut self, input: TrapInput) -> (output: TrapOutput)
        requires
            old(self).wf(),
            old(self)@.layout.stack_ok(input.stack_ptr),
        ensures
            final(self).wf(),
            final(self)@ == old(self)@.trap(input),
            old(self)@.answers(input, output),
    {
        // Need to "prime" the page table on the first interrupt to get
        // accurate measurements.
        if self.first_run {
            self.first_run = false;
            self.page_table.clear_all_ad_bits();
            return TrapOutput {
                primed: true,
                interrupted: false,
                pam_frame: None,
                hwtlb_frame: None,
                trace_frame: None,
            };
        }
        let pam_frame = if self.config.debug_pam {
            let mut entry = self.frame(&input);
            entry.write_page_accesses(self.pam.get_pam().as_slice());
            assert(entry@.drop_last() =~= self@.frame_start(input));
            Some(entry)
        } else {
            None
        };
        let hwtlb_frame = if self.config.debug_sim_hwtlb {
            let mut entry = self.frame(&input);
            let held = self.hw_tlb.iter();
            entry.write_page_accesses(held.as_slice());
            assert(entry@.drop_last() =~= self@.frame_start(input));
            Some(entry)
        } else {
            None
        };

        // Check which pages were accessed.
        self.page_table.update_page_accesses();

        // The accesses that the hardware TLB did not serve leave their
        // mark in the page table.
        let missed = untranslated_pages(&self.page_table, &self.hw_tlb);
        self.pte_observations.update(missed.as_slice());

        let can_observe = self.attacker.can_observe();
        let can_trigger_interrupt = self.attacker.can_trigger_interrupt(
            &self.page_table,
            &self.hw_tlb,
        );

        // Only write observations to the trace if the attacker can observe.
        let trace_frame = if can_observe == CanObserve::Always || can_trigger_interrupt
            && can_observe == CanObserve::Interrupt {
            let mut entry = self.frame(&input);
            self.attacker.observe(
                &mut entry,
                &self.page_table,
                &self.hw_tlb,
                &self.pte_observations,
            );
            Some(entry)
        } else {
            None
        };

        self.attacker.handle_step(&mut self.pte_observations);

        // Simulate interrupt if attacker can trigger an interrupt now.
        if can_trigger_interrupt {
            self.attacker.handle_interrupt(&self.page_table, &mut self.pte_observations);

            // Interrupt causes hardware TLB flush.
            proof {
                lemma_update_usable(self.hw_tlb@, Seq::empty());
            }
            self.hw_tlb.flush();

            // Resume to AEX handler.
            if !self.config.no_prefetch {
                // The mitigation prefetches pages from the PAM.
                let working_set = self.pam.get_pam().clone();
                self.prefetch(working_set.as_slice());

                // Prefetch stack pages.
                let stack_pages = self.stack_pages(input.stack_ptr);
                self.prefetch(stack_pages.as_slice());

                // Prefetch the PAM update code.
                let code_page = (self.layout.pam_update_code_address - self.layout.base)
                    / PAGE_SIZE;
                let mut code_pages: Vec<PageAccess> = Vec::new();
                code_pages.push(
                    PageAccess { read: true, execute: true, write: false, page: code_page },
                );
                assert(code_pages@ =~= self@.layout.code_page());
                self.prefetch(code_pages.as_slice());

                let counter_page = (self.layout.pam_counter_address - self.layout.base)
                    / PAGE_SIZE;
                let mut counter_pages: Vec<PageAccess> = Vec::new();
                counter_pages.push(
                    PageAccess { read: true, execute: false, write: true, page: counter_page },
                );
                assert(counter_pages@ =~= self@.layout.counter_page());
                self.prefetch(counter_pages.as_slice());

                let pam_pages = self.pam_pages();
                self.prefetch(pam_pages.as_slice());
            }
        } else {
            // The attacker would not have interrupted, so the hardware TLB
            // would not be flushed: it takes in the accesses of the current
            // instruction.
            proof {
                lemma_update_usable(self.hw_tlb@, self.page_table.pages@);
            }
            self.hw_tlb.update(self.page_table.get_all_accessed_pages().as_slice());
        }

        // Clear all A/D bits so we can accurately record page accesses.
        self.page_table.clear_all_ad_bits();
        TrapOutput {
            primed: false,
            interrupted: can_trigger_interrupt,
            pam_frame,
            hwtlb_frame,
            trace_frame,
        }
    }
}

/// What a plain tracer writes at a trap: the instruction pointer, if it is
/// to be written, and every access that the page table shows.  The
/// accessed and dirty bits of the shadow are cleared for the next step.
pub fn trace_trap(page_table: &mut PageTable, write_erip: bool, erip: u64) -> (frame: VCDEntry)
    ensures
        final(page_table).page_table_map@ == cleared_entries(old(page_table).page_table_map@),
        final(page_table).pages@ == shown_accesses(
            old(page_table).page_table_map@,
            old(page_table).page_table_map@.len(),
        ),
        final(page_table).accessed_ptes@ == old(page_table).accessed_ptes@ + PageTable::filed(
            final(page_table).pages@,
        ),
        frame@ == (if write_erip {
            seq![EntryWriteView::Erip(erip)]
        } else {
            Seq::empty()
        }).push(EntryWriteView::PageAccesses(final(page_table).pages@)),
{
    let mut entry = VCDEntry::new();
    if write_erip {
        entry.write_erip(erip);
    }
    // Check which pages were accessed and write them to the trace.
    page_table.update_page_accesses();
    entry.write_page_accesses(page_table.get_all_accessed_pages().as_slice());
    // Clear all A/D bits in the shadow of the page table.
    page_table.clear_all_ad_bits();
    entry
}

/// A TLB that can take in accesses can do so after any update and any
/// flush.
pub proof fn lemma_update_usable(tlb: TlbView, pages: Seq<PageAccess>)
    requires
        tlb.usable(),
    ensures
        tlb.update(pages).usable(),
        tlb.flush().usable(),
        tlb is Perfect <==> tlb.update(pages) is Perfect,
        tlb is Perfect <==> tlb.flush() is Perfect,
    decreases pages.len(),
{
    if pages.len() > 0 {
        lemma_update_usable(tlb, pages.drop_last());
    }
}

} // verus!
