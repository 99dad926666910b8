use tlblur::page_access::{PageAccess, Permission};

fn access(page: usize, read: bool, write: bool, execute: bool) -> PageAccess {
    PageAccess { read, write, execute, page }
}

#[test]
fn covers_needs_the_same_page() {
    let a = access(3, true, true, true);
    let b = access(4, true, false, false);
    assert!(!a.covers(&b));
    assert!(!b.covers(&a));
}

#[test]
fn covers_is_permission_subsumption() {
    let rwx = access(7, true, true, true);
    let r = access(7, true, false, false);
    let w = access(7, false, true, false);
    let x = access(7, false, false, true);
    assert!(rwx.covers(&r));
    assert!(rwx.covers(&w));
    assert!(rwx.covers(&x));
    assert!(rwx.covers(&rwx));
    assert!(!r.covers(&rwx));
    assert!(!r.covers(&w));
    assert!(!w.covers(&x));
    assert!(r.covers(&access(7, false, false, false)));
}

#[test]
fn union_ors_the_permissions() {
    let r = access(9, true, false, false);
    let w = access(9, false, true, false);
    assert_eq!(r.union(&w), access(9, true, true, false));
    assert_eq!(r.union(&r), r);
    let x_elsewhere = access(10, false, false, true);
    assert_eq!(r.union(&x_elsewhere), access(9, true, false, true));
}

#[test]
fn union_covers_both_operands() {
    let a = access(2, true, false, false);
    let b = access(2, false, true, true);
    let u = a.union(&b);
    assert!(u.covers(&a));
    assert!(u.covers(&b));
    // An access covers its union with another one only if it covers the other.
    assert!(!a.covers(&u));
    let c = access(2, true, true, true);
    assert!(c.covers(&c.union(&a)));
}

#[test]
fn default_is_the_empty_slot() {
    assert_eq!(PageAccess::default(), access(0, false, false, false));
    assert_eq!(PageAccess::full(5), access(5, true, true, true));
}

#[test]
fn uses_tells_the_permissions_apart() {
    let rx = access(1, true, false, true);
    assert!(rx.uses(Permission::Read));
    assert!(!rx.uses(Permission::Write));
    assert!(rx.uses(Permission::Execute));
}
