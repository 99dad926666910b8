use tlblur::page_access::PageAccess;
use tlblur::page_table::{page_addresses, PageTable, PteBits, PAGE_SIZE};

fn bits(present: bool, accessed: bool, dirty: bool) -> Option<PteBits> {
    Some(PteBits { present, accessed, dirty })
}

fn access(page: usize, write: bool) -> PageAccess {
    PageAccess { read: true, write, execute: false, page }
}

#[test]
fn addresses_are_one_page_apart() {
    assert_eq!(PAGE_SIZE, 4096);
    assert_eq!(page_addresses(0x1000, 0x1000), vec![0x1000]);
    assert_eq!(page_addresses(0x1000, 0x1fff), vec![0x1000]);
    assert_eq!(page_addresses(0x1000, 0x2000), vec![0x1000, 0x2000]);
    assert_eq!(
        page_addresses(0x7000_0000, 0x7000_3fff),
        vec![0x7000_0000, 0x7000_1000, 0x7000_2000, 0x7000_3000]
    );
    assert_eq!(page_addresses(5, 4100), vec![5]);
    assert_eq!(page_addresses(5, 4101), vec![5, 4101]);
    assert_eq!(page_addresses(usize::MAX - 10, usize::MAX), vec![usize::MAX - 10]);
}

#[test]
fn new_shadow_has_its_bits_cleared() {
    let table = PageTable::new(vec![bits(true, true, true), None, bits(false, true, false)]);
    assert_eq!(
        table.page_table_map,
        vec![bits(true, false, false), None, bits(false, false, false)]
    );
    assert!(table.pages.is_empty());
    assert!(table.accessed_ptes.is_empty());
}

#[test]
fn sample_shows_accessed_present_pages() {
    let mut table = PageTable::new(vec![None; 6]);
    table.set_entry(0, bits(true, true, false));
    table.set_entry(1, bits(true, false, true));
    table.set_entry(2, bits(false, true, true));
    table.set_entry(3, bits(true, true, true));
    table.set_entry(5, bits(true, true, false));
    table.update_page_accesses();
    assert_eq!(table.pages, vec![access(0, false), access(3, true), access(5, false)]);
    assert_eq!(table.get_all_accessed_pages(), &table.pages);
    assert_eq!(
        table.accessed_ptes,
        vec![(access(0, false), 0), (access(3, true), 3), (access(5, false), 5)]
    );
}

#[test]
fn shadow_reset() {
    let mut table = PageTable::new(vec![bits(true, false, false); 4]);
    table.set_entry(1, bits(true, true, true));
    table.set_entry(2, bits(true, true, false));
    table.update_page_accesses();
    assert_eq!(table.pages.len(), 2);
    table.clear_all_ad_bits();
    table.update_page_accesses();
    assert_eq!(table.pages, vec![]);
    assert_eq!(table.page_table_map, vec![bits(true, false, false); 4]);
    // Until the enclave runs again.
    table.set_entry(3, bits(true, true, false));
    table.update_page_accesses();
    assert_eq!(table.pages, vec![access(3, false)]);
}

#[test]
fn every_sample_joins_the_record() {
    let mut table = PageTable::new(vec![bits(true, false, false); 3]);
    table.set_entry(1, bits(true, true, false));
    table.update_page_accesses();
    table.update_page_accesses();
    assert_eq!(table.pages, vec![access(1, false)]);
    assert_eq!(table.accessed_ptes, vec![(access(1, false), 1), (access(1, false), 1)]);
}

#[test]
fn filter_selects_in_order() {
    let mut table = PageTable::new(vec![bits(true, false, false); 6]);
    for page in [1, 2, 4, 5] {
        table.set_entry(page, bits(true, true, page % 2 == 0));
    }
    table.update_page_accesses();
    assert_eq!(
        table.get_accessed_pages(|p| p.write),
        vec![access(2, true), access(4, true)]
    );
    assert_eq!(table.get_accessed_pages(|p| p.page > 4), vec![access(5, false)]);
    assert_eq!(table.get_accessed_pages(|_| false), vec![]);
    assert_eq!(table.get_accessed_pages(|_| true), table.pages);
}

#[test]
fn cleared_bits_keep_the_present_bit() {
    let entry = PteBits { present: true, accessed: true, dirty: true };
    assert_eq!(entry.cleared(), PteBits { present: true, accessed: false, dirty: false });
    let entry = PteBits { present: false, accessed: true, dirty: false };
    assert_eq!(entry.cleared(), PteBits { present: false, accessed: false, dirty: false });
}
