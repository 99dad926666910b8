use tlblur::attacker::{Attacker, InterruptPattern};
use tlblur::dump::{EntryWrite, VCDEntry};
use tlblur::page_access::PageAccess;
use tlblur::page_table::PteBits;
use tlblur::profiler::{EnclaveLayout, Profiler, ProfilerConfig, TrapInput};
use tlblur::tlb::HardwareTLBConfig;

const BASE: usize = 0x10_0000;
const PAGES: usize = 16;

fn layout() -> EnclaveLayout {
    EnclaveLayout {
        base: BASE,
        limit: BASE + PAGES * 4096 - 1,
        pam_address: BASE + 8 * 4096 + 16,
        pam_counter_address: BASE + 9 * 4096 + 8,
        pam_update_code_address: BASE + 2 * 4096 + 100,
    }
}

fn config(no_prefetch: bool) -> ProfilerConfig {
    ProfilerConfig { write_erip: false, no_prefetch, debug_pam: false, debug_sim_hwtlb: false }
}

fn profiler(pattern: InterruptPattern, tlb: HardwareTLBConfig, config: ProfilerConfig) -> Profiler {
    let entries = vec![Some(PteBits { present: true, accessed: true, dirty: true }); PAGES];
    Profiler::new(entries, PAGES, 2, Attacker::from(pattern), tlb, config, layout())
}

fn read(page: usize) -> PageAccess {
    PageAccess { read: true, write: false, execute: false, page }
}

fn write(page: usize) -> PageAccess {
    PageAccess { read: true, write: true, execute: false, page }
}

fn code(page: usize) -> PageAccess {
    PageAccess { read: true, write: false, execute: true, page }
}

/// The enclave reads the given pages, and the trap is handled.
fn step(profiler: &mut Profiler, pages: &[usize]) -> tlblur::profiler::TrapOutput {
    for &page in pages {
        profiler.set_entry(page, Some(PteBits { present: true, accessed: true, dirty: false }));
    }
    profiler.handle_trap(TrapInput { erip: 0x1234, stack_ptr: BASE + 5 * 4096 + 64 })
}

fn shown(frame: &Option<VCDEntry>) -> Vec<PageAccess> {
    let entry = frame.as_ref().expect("a frame was to be written");
    match entry.writes().last() {
        Some(EntryWrite::PageAccesses(pages)) => {
            let mut pages = pages.clone();
            pages.sort_by_key(|p| p.page);
            pages
        }
        _ => panic!("a frame ends with pages"),
    }
}

#[test]
fn first_trap_only_clears_the_page_table() {
    let mut profiler =
        profiler(InterruptPattern::SingleStep, HardwareTLBConfig::Perfect, config(true));
    // The shadow starts with its bits cleared, whatever was read.
    assert!(profiler.page_table().page_table_map.iter().all(|e| {
        *e == Some(PteBits { present: true, accessed: false, dirty: false })
    }));
    let output = step(&mut profiler, &[1, 2, 3]);
    assert!(output.primed);
    assert!(!output.interrupted);
    assert!(output.trace_frame.is_none());
    assert!(output.pam_frame.is_none());
    assert!(output.hwtlb_frame.is_none());
    assert!(profiler.page_table().pages.is_empty());
    assert!(profiler.page_table().page_table_map.iter().all(|e| {
        *e == Some(PteBits { present: true, accessed: false, dirty: false })
    }));
    assert_eq!(profiler.observations().len(), 0);
}

#[test]
fn single_step_interrupts_on_a_miss() {
    let mut profiler =
        profiler(InterruptPattern::SingleStep, HardwareTLBConfig::Perfect, config(true));
    step(&mut profiler, &[]);
    let output = step(&mut profiler, &[3, 4]);
    assert!(!output.primed);
    assert!(output.interrupted);
    assert_eq!(shown(&output.trace_frame), vec![read(3), read(4)]);
    assert_eq!(profiler.page_table().pages, vec![read(3), read(4)]);
    // The interrupt flushes the TLB and the attacker clears the bits.
    assert!(!profiler.hw_tlb().test(&read(3)));
    assert_eq!(profiler.observations().len(), 0);
    // The shadow is cleared for the next step.
    assert!(profiler.page_table().page_table_map.iter().all(|e| {
        *e == Some(PteBits { present: true, accessed: false, dirty: false })
    }));
    // A step without accesses cannot be interrupted, and writes no frame.
    let output = step(&mut profiler, &[]);
    assert!(!output.interrupted);
    assert!(output.trace_frame.is_none());
}

#[test]
fn tlb_takes_in_the_accesses_without_an_interrupt() {
    let mut profiler =
        profiler(InterruptPattern::Stealthy, HardwareTLBConfig::Perfect, config(false));
    step(&mut profiler, &[]);
    let output = step(&mut profiler, &[3]);
    assert!(!output.interrupted);
    assert_eq!(shown(&output.trace_frame), vec![read(3)]);
    assert!(profiler.hw_tlb().test(&read(3)));
    // A stealthy attacker does not gather observations over steps.
    assert_eq!(profiler.observations().len(), 0);
    // Accesses that the TLB serves leave no mark in the page table.
    let output = step(&mut profiler, &[3, 4]);
    assert_eq!(shown(&output.trace_frame), vec![read(4)]);
    let output = step(&mut profiler, &[3, 4]);
    assert_eq!(shown(&output.trace_frame), vec![]);
}

#[test]
fn debugger_interrupts_at_every_step() {
    let mut profiler =
        profiler(InterruptPattern::DebugSingleStep, HardwareTLBConfig::Perfect, config(true));
    step(&mut profiler, &[]);
    let output = step(&mut profiler, &[]);
    assert!(output.interrupted);
    assert_eq!(shown(&output.trace_frame), vec![]);
    let output = step(&mut profiler, &[7]);
    assert!(output.interrupted);
    assert_eq!(shown(&output.trace_frame), vec![read(7)]);
}

#[test]
fn prefetch_fills_the_tlb_after_an_interrupt() {
    let mut profiler =
        profiler(InterruptPattern::SingleStep, HardwareTLBConfig::Perfect, config(false));
    step(&mut profiler, &[]);
    profiler.update_pam(1, &[0, 0, 0, 0, 0, 0, 0, 0, 0, 0, 0, 1]);
    let output = step(&mut profiler, &[11]);
    assert!(output.interrupted);
    let tlb = profiler.hw_tlb();
    // The working set of the page-access map, with every permission.
    assert!(tlb.test(&PageAccess::full(11)));
    // The stack: the page of the stack pointer and its neighbours.
    for page in [4, 5, 6] {
        assert!(tlb.test(&code(page)));
        assert!(!tlb.test(&write(page)));
    }
    assert!(!tlb.test(&read(3)));
    assert!(!tlb.test(&read(7)));
    // The code and the data of the mitigation.
    assert!(tlb.test(&code(2)));
    assert!(tlb.test(&write(9)));
    assert!(tlb.test(&write(8)));
    assert!(!tlb.test(&code(9)));
    // What is prefetched is touched, and so observed.
    let observations = profiler.observations();
    assert_eq!(observations.get(11), Some(PageAccess::full(11)));
    assert_eq!(observations.get(5), Some(code(5)));
    assert_eq!(observations.get(2), Some(code(2)));
    assert_eq!(observations.get(9), Some(write(9)));
    assert_eq!(observations.get(8), Some(write(8)));
    assert_eq!(observations.get(3), None);
    // The empty slot of the working set is prefetched like a page.
    assert_eq!(observations.get(0), Some(PageAccess::default()));
    assert_eq!(observations.len(), 8);
    // Accesses that the prefetched TLB serves do not interrupt.
    let output = step(&mut profiler, &[5, 11]);
    assert!(!output.interrupted);
    assert!(output.trace_frame.is_none());
    let output = step(&mut profiler, &[5, 12]);
    assert!(output.interrupted);
    // The attacker sees what it observed since the last interrupt.
    let seen = shown(&output.trace_frame);
    assert!(seen.contains(&read(12)));
    assert!(seen.contains(&write(9)));
    assert!(!seen.contains(&read(5)));
}

#[test]
fn stack_outside_the_enclave_is_not_prefetched() {
    let mut profiler =
        profiler(InterruptPattern::SingleStep, HardwareTLBConfig::Perfect, config(false));
    profiler.handle_trap(TrapInput { erip: 0, stack_ptr: 0 });
    profiler.set_entry(1, Some(PteBits { present: true, accessed: true, dirty: false }));
    let output = profiler.handle_trap(TrapInput { erip: 0, stack_ptr: BASE - 1 });
    assert!(output.interrupted);
    for page in [4, 5, 6] {
        assert!(!profiler.hw_tlb().test(&code(page)));
    }
    assert!(profiler.hw_tlb().test(&code(2)));
}

#[test]
fn page_fault_attacker_in_the_simulation() {
    let mut profiler = profiler(
        InterruptPattern::PageFault,
        HardwareTLBConfig::SetAssociative { num_sets: 4, ways_per_set: 2 },
        config(true),
    );
    step(&mut profiler, &[]);
    let output = step(&mut profiler, &[10, 11]);
    assert!(output.interrupted);
    let output = step(&mut profiler, &[10]);
    assert!(!output.interrupted);
    // Without an interrupt the TLB takes in the access.
    assert!(profiler.hw_tlb().test(&read(10)));
    let output = step(&mut profiler, &[10, 12]);
    assert!(output.interrupted);
    assert_eq!(shown(&output.trace_frame), vec![read(10), read(12)]);
}

#[test]
fn frames_start_with_the_instruction_pointer() {
    let config = ProfilerConfig {
        write_erip: true,
        no_prefetch: true,
        debug_pam: true,
        debug_sim_hwtlb: true,
    };
    let mut profiler = profiler(InterruptPattern::Stealthy, HardwareTLBConfig::Perfect, config);
    step(&mut profiler, &[]);
    step(&mut profiler, &[6]);
    let output = step(&mut profiler, &[7]);
    for frame in [&output.pam_frame, &output.hwtlb_frame, &output.trace_frame] {
        let entry = frame.as_ref().unwrap();
        assert_eq!(entry.writes().len(), 2);
        assert_eq!(entry.writes()[0], EntryWrite::Erip(0x1234));
    }
    assert_eq!(shown(&output.pam_frame), vec![PageAccess::default(); 2]);
    // The TLB is traced as it was before the step.
    assert_eq!(shown(&output.hwtlb_frame), vec![read(6)]);
    assert_eq!(shown(&output.trace_frame), vec![read(7)]);
}

#[test]
fn mirror_follows_the_enclave() {
    let mut profiler =
        profiler(InterruptPattern::SingleStep, HardwareTLBConfig::Perfect, config(true));
    assert!(profiler.pam().counter_changed(3));
    assert!(!profiler.update_pam(3, &[0, 0, 0, 3]));
    assert_eq!(profiler.pam().counter(), 3);
    assert_eq!(profiler.pam().get_pam()[0], PageAccess::full(3));
    assert!(matches!(profiler.attacker(), Attacker::SingleStep));
}
