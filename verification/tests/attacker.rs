use tlblur::attacker::{untranslated_pages, Attacker, CanObserve, InterruptPattern};
use tlblur::dump::{EntryWrite, VCDEntry};
use tlblur::observations::PageTableObservations;
use tlblur::page_access::PageAccess;
use tlblur::page_table::{PageTable, PteBits};
use tlblur::tlb::{HardwareTLB, HardwareTLBConfig};

fn read(page: usize) -> PageAccess {
    PageAccess { read: true, write: false, execute: false, page }
}

/// A page table of 16 pages that shows reads of the given pages.
fn table(pages: &[usize]) -> PageTable {
    let mut table =
        PageTable::new(vec![Some(PteBits { present: true, accessed: false, dirty: false }); 16]);
    for &page in pages {
        table.set_entry(page, Some(PteBits { present: true, accessed: true, dirty: false }));
    }
    table.update_page_accesses();
    table
}

fn tlb(pages: &[usize]) -> HardwareTLB {
    let mut tlb = HardwareTLB::new(HardwareTLBConfig::Perfect);
    for &page in pages {
        tlb.insert(read(page));
    }
    tlb
}

fn written(entry: &VCDEntry) -> Vec<PageAccess> {
    assert_eq!(entry.writes().len(), 1);
    match &entry.writes()[0] {
        EntryWrite::PageAccesses(pages) => {
            let mut pages = pages.clone();
            pages.sort_by_key(|p| p.page);
            pages
        }
        EntryWrite::Erip(_) => panic!("pages were to be written"),
    }
}

#[test]
fn names_of_the_patterns() {
    assert_eq!(InterruptPattern::DebugSingleStep.to_string(), "debug-single-step");
    assert_eq!(InterruptPattern::SingleStep.to_string(), "single-step");
    assert_eq!(InterruptPattern::PageFault.to_string(), "page-fault");
    assert_eq!(InterruptPattern::Stealthy.to_string(), "stealthy");
    assert_eq!(Attacker::DebugSingleStep.to_string(), "debug-single-step");
    assert_eq!(Attacker::SingleStep.to_string(), "single-step");
    assert_eq!(
        Attacker::PageFault { live_pages: vec![1], observe_ptes: true }.to_string(),
        "page-fault"
    );
    assert_eq!(Attacker::Stealthy.to_string(), "stealthy");
}

#[test]
fn attacker_of_a_pattern() {
    assert!(matches!(
        Attacker::from(InterruptPattern::DebugSingleStep),
        Attacker::DebugSingleStep
    ));
    assert!(matches!(Attacker::from(InterruptPattern::SingleStep), Attacker::SingleStep));
    assert!(matches!(Attacker::from(InterruptPattern::Stealthy), Attacker::Stealthy));
    match Attacker::from(InterruptPattern::PageFault) {
        Attacker::PageFault { live_pages, observe_ptes } => {
            assert!(live_pages.is_empty());
            assert!(observe_ptes);
        }
        _ => panic!("a page-fault attacker was asked for"),
    }
    match Attacker::new(InterruptPattern::PageFault, false) {
        Attacker::PageFault { live_pages, observe_ptes } => {
            assert!(live_pages.is_empty());
            assert!(!observe_ptes);
        }
        _ => panic!("a page-fault attacker was asked for"),
    }
}

#[test]
fn untranslated_pages_miss_the_tlb() {
    assert_eq!(untranslated_pages(&table(&[1, 2, 3]), &tlb(&[2])), vec![read(1), read(3)]);
    assert_eq!(untranslated_pages(&table(&[1, 2]), &tlb(&[1, 2])), vec![]);
    assert_eq!(untranslated_pages(&table(&[]), &tlb(&[1])), vec![]);
}

#[test]
fn attacker_interruption() {
    let debug = Attacker::DebugSingleStep;
    let step = Attacker::SingleStep;
    let fault = Attacker::PageFault { live_pages: vec![5], observe_ptes: true };
    let stealthy = Attacker::Stealthy;
    // Nothing accessed.
    assert!(debug.can_trigger_interrupt(&table(&[]), &tlb(&[])));
    assert!(!step.can_trigger_interrupt(&table(&[]), &tlb(&[])));
    assert!(!fault.can_trigger_interrupt(&table(&[]), &tlb(&[])));
    assert!(!stealthy.can_trigger_interrupt(&table(&[]), &tlb(&[])));
    // Everything accessed is in the TLB.
    assert!(debug.can_trigger_interrupt(&table(&[3, 4]), &tlb(&[3, 4])));
    assert!(!step.can_trigger_interrupt(&table(&[3, 4]), &tlb(&[3, 4])));
    assert!(!fault.can_trigger_interrupt(&table(&[3, 4]), &tlb(&[3, 4])));
    assert!(!stealthy.can_trigger_interrupt(&table(&[3, 4]), &tlb(&[3, 4])));
    // A live page misses the TLB.
    assert!(step.can_trigger_interrupt(&table(&[3, 5]), &tlb(&[3])));
    assert!(!fault.can_trigger_interrupt(&table(&[3, 5]), &tlb(&[3])));
    // A page that is not live misses the TLB.
    assert!(step.can_trigger_interrupt(&table(&[3, 5, 6]), &tlb(&[3])));
    assert!(fault.can_trigger_interrupt(&table(&[3, 5, 6]), &tlb(&[3])));
    assert!(!stealthy.can_trigger_interrupt(&table(&[3, 5, 6]), &tlb(&[3])));
}

#[test]
fn page_fault_attacker_live_set() {
    let mut attacker = Attacker::new(InterruptPattern::PageFault, true);
    let mut observations = PageTableObservations::new();
    let hw_tlb = tlb(&[]);
    let first = table(&[10, 11]);
    assert!(attacker.can_trigger_interrupt(&first, &hw_tlb));
    attacker.handle_interrupt(&first, &mut observations);
    match &attacker {
        Attacker::PageFault { live_pages, .. } => assert_eq!(live_pages, &vec![10, 11]),
        _ => panic!("the attacker has changed its kind"),
    }
    assert!(!attacker.can_trigger_interrupt(&table(&[10]), &hw_tlb));
    assert!(!attacker.can_trigger_interrupt(&table(&[10, 11]), &hw_tlb));
    assert!(attacker.can_trigger_interrupt(&table(&[10, 12]), &hw_tlb));
}

#[test]
fn only_the_stealthy_attacker_observes_always() {
    assert_eq!(Attacker::Stealthy.can_observe(), CanObserve::Always);
    assert_eq!(Attacker::SingleStep.can_observe(), CanObserve::Interrupt);
    assert_eq!(Attacker::DebugSingleStep.can_observe(), CanObserve::Interrupt);
    assert_eq!(
        Attacker::new(InterruptPattern::PageFault, false).can_observe(),
        CanObserve::Interrupt
    );
}

#[test]
fn step_clears_for_the_stealthy_attacker_only() {
    for (pattern, kept) in [
        (InterruptPattern::DebugSingleStep, 1),
        (InterruptPattern::SingleStep, 1),
        (InterruptPattern::PageFault, 1),
        (InterruptPattern::Stealthy, 0),
    ] {
        let mut attacker = Attacker::from(pattern);
        let mut observations = PageTableObservations::new();
        observations.update(&[read(1)]);
        attacker.handle_step(&mut observations);
        assert_eq!(observations.len(), kept);
    }
}

#[test]
fn interrupt_clears_for_all_but_the_stealthy_attacker() {
    for (pattern, kept) in [
        (InterruptPattern::DebugSingleStep, 0),
        (InterruptPattern::SingleStep, 0),
        (InterruptPattern::PageFault, 0),
        (InterruptPattern::Stealthy, 1),
    ] {
        let mut attacker = Attacker::from(pattern);
        let mut observations = PageTableObservations::new();
        observations.update(&[read(1)]);
        attacker.handle_interrupt(&table(&[2]), &mut observations);
        assert_eq!(observations.len(), kept);
    }
}

#[test]
fn attackers_see_what_was_observed() {
    let mut observations = PageTableObservations::new();
    observations.update(&[read(1), read(9)]);
    for attacker in [
        Attacker::DebugSingleStep,
        Attacker::SingleStep,
        Attacker::Stealthy,
        Attacker::PageFault { live_pages: vec![9], observe_ptes: true },
    ] {
        let mut entry = VCDEntry::new();
        attacker.observe(&mut entry, &table(&[4]), &tlb(&[]), &observations);
        assert_eq!(written(&entry), vec![read(1), read(9)]);
    }
}

#[test]
fn page_fault_attacker_may_see_the_faults_only() {
    let mut observations = PageTableObservations::new();
    observations.update(&[read(1), read(9)]);
    let attacker = Attacker::PageFault { live_pages: vec![4, 6], observe_ptes: false };
    let mut entry = VCDEntry::new();
    attacker.observe(&mut entry, &table(&[3, 4, 5, 6, 7]), &tlb(&[5]), &observations);
    assert_eq!(written(&entry), vec![read(3), read(7)]);
}
