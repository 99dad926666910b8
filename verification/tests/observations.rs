use tlblur::observations::PageTableObservations;
use tlblur::page_access::PageAccess;

fn access(page: usize, read: bool, write: bool, execute: bool) -> PageAccess {
    PageAccess { read, write, execute, page }
}

fn sorted(observations: &PageTableObservations) -> Vec<PageAccess> {
    let mut all = observations.iter();
    all.sort_by_key(|p| p.page);
    all
}

#[test]
fn new_observations_are_empty() {
    let observations = PageTableObservations::new();
    assert_eq!(observations.len(), 0);
    assert_eq!(observations.iter(), vec![]);
    assert_eq!(observations.get(3), None);
}

#[test]
fn update_merges_by_page() {
    let mut observations = PageTableObservations::new();
    observations.update(&[
        access(4, true, false, false),
        access(2, true, false, false),
        access(4, false, true, false),
    ]);
    assert_eq!(
        sorted(&observations),
        vec![access(2, true, false, false), access(4, true, true, false)]
    );
    observations.update(&[access(2, false, false, true)]);
    assert_eq!(observations.get(2), Some(access(2, true, false, true)));
    assert_eq!(observations.get(4), Some(access(4, true, true, false)));
    assert_eq!(observations.len(), 2);
}

#[test]
fn clear_forgets_everything() {
    let mut observations = PageTableObservations::new();
    observations.update(&[access(1, true, false, false)]);
    observations.clear();
    assert_eq!(observations.len(), 0);
    assert_eq!(observations.get(1), None);
    observations.update(&[access(1, false, true, false)]);
    assert_eq!(observations.get(1), Some(access(1, false, true, false)));
}

#[test]
fn observation_covers_every_access_seen() {
    let seen = [
        access(7, true, false, false),
        access(7, false, false, true),
        access(8, false, true, false),
        access(7, true, false, false),
    ];
    let mut observations = PageTableObservations::new();
    observations.update(&seen);
    for access in seen {
        assert!(observations.get(access.page).unwrap().covers(&access));
    }
}
