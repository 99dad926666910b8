use tlblur::dump::{
    create_dumper, dumper_pages, EntryWrite, RSet, RWXSet, TracePageSet, TraceRecord, VCDDumper,
    VCDEntry,
};
use tlblur::page_access::PageAccess;
use tlblur::wire::{bits, WireChange};

fn access(page: usize, read: bool, write: bool, execute: bool) -> PageAccess {
    PageAccess { read, write, execute, page }
}

fn scalar(wire: usize, value: bool) -> TraceRecord {
    TraceRecord::ChangeScalar(WireChange { wire, value })
}

fn wire(name: &str) -> TraceRecord {
    TraceRecord::AddWire { width: 1, name: name.to_string() }
}

#[test]
fn dumper_pages_leave_room_to_spare() {
    assert_eq!(dumper_pages(0), 100);
    assert_eq!(dumper_pages(4095), 100);
    assert_eq!(dumper_pages(4096), 101);
    assert_eq!(dumper_pages(0x40_0000), 1124);
}

#[test]
fn head_of_a_trace() {
    let (dumper, head) = VCDDumper::<RSet>::new(3);
    assert_eq!(dumper.timestamp(), 0);
    assert_eq!(
        head,
        vec![
            TraceRecord::Timescale(1),
            TraceRecord::AddModule("trace".to_string()),
            wire("_0"),
            wire("_1"),
            wire("_2"),
            TraceRecord::AddWire { width: 64, name: "erip".to_string() },
            TraceRecord::Upscope,
            TraceRecord::Enddefinitions,
            scalar(0, false),
            scalar(1, false),
            scalar(2, false),
        ]
    );
}

#[test]
fn head_of_a_trace_with_permissions() {
    let (_, head) = VCDDumper::<RWXSet>::new(2);
    assert_eq!(
        head,
        vec![
            TraceRecord::Timescale(1),
            TraceRecord::AddModule("trace".to_string()),
            wire("_0_r"),
            wire("_1_r"),
            wire("_0_w"),
            wire("_1_w"),
            wire("_0_x"),
            wire("_1_x"),
            TraceRecord::AddWire { width: 64, name: "erip".to_string() },
            TraceRecord::Upscope,
            TraceRecord::Enddefinitions,
            scalar(0, false),
            scalar(1, false),
            scalar(2, false),
            scalar(3, false),
            scalar(4, false),
            scalar(5, false),
        ]
    );
}

#[test]
fn create_dumper_sizes_the_trace_by_the_enclave() {
    let (_, head) = create_dumper::<RSet>(8192);
    let wires = head.iter().filter(|r| matches!(r, TraceRecord::AddWire { width: 1, .. })).count();
    assert_eq!(wires, 102);
}

#[test]
fn entry_keeps_its_writes_in_order() {
    let mut entry = VCDEntry::new();
    assert!(entry.writes().is_empty());
    entry.write_erip(7);
    entry.write_page_accesses(&[access(1, true, false, false)]);
    assert_eq!(
        entry.writes(),
        &vec![
            EntryWrite::Erip(7),
            EntryWrite::PageAccesses(vec![access(1, true, false, false)])
        ]
    );
}

#[test]
fn every_step_ends_with_the_next_timestamp() {
    let (mut dumper, _) = VCDDumper::<RSet>::new(4);
    assert_eq!(dumper.next_step(VCDEntry::new()), vec![TraceRecord::Timestamp(1)]);
    assert_eq!(dumper.next_step(VCDEntry::new()), vec![TraceRecord::Timestamp(2)]);
    assert_eq!(dumper.timestamp(), 2);
}

#[test]
fn steps_write_diffs_only() {
    let (mut dumper, _) = VCDDumper::<RSet>::new(6);
    let mut entry = VCDEntry::new();
    entry.write_erip(0xdead_beef);
    entry.write_page_accesses(&[
        access(4, true, false, false),
        access(2, false, true, false),
        access(1, true, true, false),
    ]);
    assert!(dumper.can_show(&entry));
    assert_eq!(
        dumper.next_step(entry),
        vec![
            TraceRecord::ChangeVector { wire: 6, bits: bits(0xdead_beef) },
            scalar(4, true),
            scalar(1, true),
            TraceRecord::Timestamp(1),
        ]
    );
    let mut entry = VCDEntry::new();
    entry.write_page_accesses(&[access(1, true, false, false), access(5, true, false, false)]);
    assert_eq!(
        dumper.next_step(entry),
        vec![scalar(5, true), scalar(4, false), TraceRecord::Timestamp(2)]
    );
    let mut entry = VCDEntry::new();
    entry.write_page_accesses(&[access(5, true, false, false), access(1, true, false, false)]);
    assert_eq!(dumper.next_step(entry), vec![TraceRecord::Timestamp(3)]);
}

#[test]
fn later_writes_of_a_step_start_from_the_earlier_ones() {
    let (mut dumper, _) = VCDDumper::<RSet>::new(3);
    let mut entry = VCDEntry::new();
    entry.write_page_accesses(&[access(0, true, false, false)]);
    entry.write_page_accesses(&[access(2, true, false, false)]);
    assert_eq!(
        dumper.next_step(entry),
        vec![scalar(0, true), scalar(2, true), scalar(0, false), TraceRecord::Timestamp(1)]
    );
}

#[test]
fn permissions_have_wires_of_their_own() {
    let mut set = RWXSet::new(4);
    assert_eq!(
        set.update_state(&[
            access(1, true, true, false),
            access(3, false, false, true),
            access(0, true, false, true),
        ]),
        vec![
            WireChange { wire: 1, value: true },
            WireChange { wire: 0, value: true },
            WireChange { wire: 5, value: true },
            WireChange { wire: 11, value: true },
            WireChange { wire: 8, value: true },
        ]
    );
    assert_eq!(
        set.update_state(&[access(1, false, true, false)]),
        vec![
            WireChange { wire: 0, value: false },
            WireChange { wire: 1, value: false },
            WireChange { wire: 8, value: false },
            WireChange { wire: 11, value: false },
        ]
    );
}

#[test]
fn pages_without_a_wire_cannot_be_shown() {
    let set = RSet::new(4);
    assert!(set.can_show(&[access(3, true, false, false)]));
    assert!(!set.can_show(&[access(4, true, false, false)]));
    // An access that does not read raises no wire of a read set.
    assert!(set.can_show(&[access(4, false, true, true)]));
    let set = RWXSet::new(4);
    assert!(!set.can_show(&[access(4, false, true, false)]));
    assert!(!set.can_show(&[access(9, false, false, true)]));
    assert!(set.can_show(&[access(9, false, false, false)]));
    let (dumper, _) = VCDDumper::<RSet>::new(2);
    let mut entry = VCDEntry::new();
    entry.write_erip(1);
    entry.write_page_accesses(&[access(1, true, false, false)]);
    assert!(dumper.can_show(&entry));
    entry.write_page_accesses(&[access(2, true, false, false)]);
    assert!(!dumper.can_show(&entry));
}
