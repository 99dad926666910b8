use tlblur::page_access::PageAccess;
use tlblur::pam::PAM;

fn pages(pam: &PAM) -> Vec<usize> {
    pam.get_pam().iter().map(|p| p.page).collect()
}

#[test]
fn new_mirror_is_empty() {
    let pam = PAM::new(5, 3);
    assert_eq!(pam.buffer(), &vec![0; 5]);
    assert_eq!(pam.get_pam(), &vec![PageAccess::default(); 3]);
    assert_eq!(pam.counter(), 0);
    assert!(!pam.counter_changed(0));
    assert!(pam.counter_changed(1));
}

#[test]
fn pam_promotion() {
    let mut pam = PAM::new(7, 2);
    assert!(!pam.update_pam(5, &[0, 0, 5, 0, 0, 0, 0]));
    assert_eq!(pages(&pam), vec![2, 0]);
    assert!(!pam.update_pam(7, &[0, 0, 5, 0, 7, 0, 0]));
    assert_eq!(pages(&pam), vec![2, 4]);
    assert!(!pam.update_pam(9, &[0, 0, 5, 0, 7, 0, 9]));
    assert_eq!(pages(&pam), vec![6, 4]);
    assert_eq!(pam.counter(), 9);
    assert_eq!(pam.buffer(), &vec![0, 0, 5, 0, 7, 0, 9]);
    let mut held = pages(&pam);
    held.sort();
    assert_eq!(held, vec![4, 6]);
}

#[test]
fn pam_promotion_with_the_last_counters_throughout() {
    let mut pam = PAM::new(7, 2);
    for counter in [5, 7, 9] {
        let drifted = pam.update_pam(counter, &[0, 0, 5, 0, 7, 0, 9]);
        assert!(!drifted);
    }
    let mut held = pages(&pam);
    held.sort();
    assert_eq!(held, vec![4, 6]);
}

#[test]
fn promoted_pages_get_every_permission() {
    let mut pam = PAM::new(4, 1);
    pam.update_pam(1, &[0, 0, 1, 0]);
    assert_eq!(pam.get_pam(), &vec![PageAccess::full(2)]);
}

#[test]
fn unchanged_counter_changes_nothing() {
    let mut pam = PAM::new(4, 2);
    pam.update_pam(3, &[0, 3, 0, 0]);
    let before = pam.get_pam().clone();
    // The counters are not even looked at.
    assert!(!pam.update_pam(3, &[0, 3, 4, 0]));
    assert_eq!(pam.get_pam(), &before);
    assert_eq!(pam.buffer(), &vec![0, 3, 0, 0]);
}

#[test]
fn only_recent_pages_are_promoted() {
    let mut pam = PAM::new(6, 3);
    // Counters 9 and 10 are recent to counter 10, counter 8 is not.
    pam.update_pam(10, &[0, 8, 9, 10, 0, 0]);
    assert_eq!(pages(&pam), vec![2, 3, 0]);
    assert_eq!(pam.counter(), 10);
}

#[test]
fn held_pages_are_not_promoted_twice() {
    let mut pam = PAM::new(6, 3);
    pam.update_pam(1, &[0, 1, 0, 0, 0, 0]);
    pam.update_pam(2, &[0, 2, 0, 0, 0, 0]);
    assert_eq!(pages(&pam), vec![1, 0, 0]);
}

#[test]
fn first_least_recently_used_slot_is_evicted() {
    let mut pam = PAM::new(8, 3);
    pam.update_pam(1, &[0, 1, 0, 0, 0, 0, 0, 0]);
    pam.update_pam(2, &[0, 1, 2, 0, 0, 0, 0, 0]);
    pam.update_pam(3, &[0, 1, 2, 3, 0, 0, 0, 0]);
    assert_eq!(pages(&pam), vec![1, 2, 3]);
    // Page 1 is used again, so page 2 is the least recently used one.
    pam.update_pam(4, &[0, 4, 2, 3, 0, 0, 0, 0]);
    assert_eq!(pages(&pam), vec![1, 2, 3]);
    pam.update_pam(5, &[0, 4, 2, 3, 0, 5, 0, 0]);
    assert_eq!(pages(&pam), vec![1, 5, 3]);
    pam.update_pam(6, &[0, 4, 2, 3, 0, 5, 0, 6]);
    assert_eq!(pages(&pam), vec![1, 5, 7]);
}

#[test]
fn working_set_holds_the_latest_pages() {
    // One page is stamped per step; the working set always holds the three
    // pages with the highest counters.
    let stamps = [3usize, 5, 1, 3, 7, 2, 5, 6, 1, 4];
    let mut counters = vec![0u64; 8];
    let mut pam = PAM::new(8, 3);
    for (step, &page) in stamps.iter().enumerate() {
        let counter = step as u64 + 1;
        counters[page] = counter;
        pam.update_pam(counter, &counters);
        let mut ranked: Vec<usize> = (1..8).filter(|&p| counters[p] > 0).collect();
        ranked.sort_by_key(|&p| std::cmp::Reverse(counters[p]));
        ranked.truncate(3);
        ranked.sort();
        let mut held: Vec<usize> = pages(&pam).into_iter().filter(|&p| p != 0).collect();
        held.sort();
        assert_eq!(held, ranked);
    }
}

#[test]
fn two_stamps_in_one_step_can_evict_the_later_one() {
    // With a single slot, pages are promoted by ascending number, whatever
    // their counters: page 2 evicts page 1 although page 1 was used last.
    let mut pam = PAM::new(3, 1);
    pam.update_pam(8, &[0, 8, 7]);
    assert_eq!(pages(&pam), vec![2]);
}

#[test]
fn nothing_recent_leaves_the_counter_and_reports_drift() {
    let mut pam = PAM::new(4, 2);
    assert!(pam.update_pam(10, &[0, 3, 4, 0]));
    assert_eq!(pam.counter(), 0);
    assert_eq!(pages(&pam), vec![0, 0]);
    assert_eq!(pam.buffer(), &vec![0, 3, 4, 0]);
    // A counter that is one ahead is no drift.
    let mut pam = PAM::new(4, 2);
    assert!(!pam.update_pam(1, &[0, 0, 0, 0]));
    // Neither is a counter that went back.
    let mut pam = PAM::new(4, 2);
    pam.update_pam(9, &[0, 9, 0, 0]);
    assert!(!pam.update_pam(2, &[0, 0, 0, 0]));
    assert_eq!(pam.counter(), 9);
}

#[test]
fn counter_zero_makes_every_counted_page_recent() {
    let mut pam = PAM::new(4, 3);
    pam.update_pam(5, &[0, 0, 0, 5]);
    assert!(!pam.update_pam(0, &[0, 2, 0, 5]));
    assert_eq!(pages(&pam), vec![3, 1, 0]);
    assert_eq!(pam.counter(), 0);
}

#[test]
fn counters_overwrite_the_front_of_the_buffer() {
    let mut pam = PAM::new(6, 2);
    pam.update_pam(1, &[0, 1]);
    assert_eq!(pam.buffer(), &vec![0, 1, 0, 0, 0, 0]);
    pam.update_pam(2, &[0, 1, 2]);
    assert_eq!(pam.buffer(), &vec![0, 1, 2, 0, 0, 0]);
    assert_eq!(pages(&pam), vec![1, 2]);
}

#[test]
fn mirror_without_slots_promotes_nothing() {
    let mut pam = PAM::new(3, 0);
    assert!(!pam.update_pam(1, &[0, 1, 0]));
    assert_eq!(pages(&pam), Vec::<usize>::new());
    assert_eq!(pam.counter(), 1);
}

#[test]
fn page_of_the_use_before_stays_held() {
    // The enclave stamps the new counter, so the page used before still
    // looks recent at the next reading; with two slots both are held.
    let mut pam = PAM::new(4, 2);
    pam.update_pam(1, &[0, 1, 0, 0]);
    assert_eq!(pages(&pam), vec![1, 0]);
    pam.update_pam(2, &[0, 1, 2, 0]);
    assert_eq!(pages(&pam), vec![1, 2]);
    pam.update_pam(3, &[0, 1, 2, 3]);
    assert_eq!(pages(&pam), vec![3, 2]);
    // A lower page than the one used before is promoted first, and does
    // not evict it.
    pam.update_pam(4, &[0, 4, 2, 3]);
    assert_eq!(pages(&pam), vec![3, 1]);
}

#[test]
fn two_slots_hold_the_two_latest_pages() {
    let stamps = [5usize, 2, 7, 7, 1, 6, 2, 2, 3, 1, 4, 4, 6];
    let mut counters = vec![0u64; 8];
    let mut pam = PAM::new(8, 2);
    for (step, &page) in stamps.iter().enumerate() {
        let counter = step as u64 + 1;
        counters[page] = counter;
        pam.update_pam(counter, &counters);
        assert_eq!(pam.buffer(), &counters);
        assert_eq!(pam.counter(), counter);
        let mut ranked: Vec<usize> = (1..8).filter(|&p| counters[p] > 0).collect();
        ranked.sort_by_key(|&p| std::cmp::Reverse(counters[p]));
        ranked.truncate(2);
        ranked.sort();
        let mut held: Vec<usize> = pages(&pam).into_iter().filter(|&p| p != 0).collect();
        held.sort();
        assert_eq!(held, ranked);
        assert!(held.contains(&page));
    }
}
