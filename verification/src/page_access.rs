//! Page accesses and their permission algebra.

use vstd::prelude::*;

verus! {

/// A way to use a page.
#[derive(Debug, Clone, Copy, PartialEq, Eq, Structural)]
pub enum Permission {
    Read,
    Write,
    Execute,
}

/// An access to a page with certain permissions.
///
/// Two accesses are equal when page and all three permission bits agree.
#[derive(Debug, Clone, Copy, PartialEq, Eq, Hash, Structural)]
pub struct PageAccess {
    pub read: bool,
    pub write: bool,
    pub execute: bool,
    pub page: usize,
}

impl PageAccess {
    /// `self` covers `other` when both name the same page and every
    /// permission that `other` uses is also held by `self`.
    pub open spec fn spec_covers(self, other: Self) -> bool {
        &&& self.page == other.page
        &&& other.read ==> self.read
        &&& other.write ==> self.write
        &&& other.execute ==> self.execute
    }

    /// The access to the page of `self` that holds every permission of
    /// `self` and of `other`.
    pub open spec fn spec_union(self, other: Self) -> Self {
        PageAccess {
            read: self.read || other.read,
            write: self.write || other.write,
            execute: self.execute || other.execute,
            page: self.page,
        }
    }

    /// Whether the access uses the page in the given way.
    pub open spec fn spec_uses(self, permission: Permission) -> bool {
        match permission {
            Permission::Read => self.read,
            Permission::Write => self.write,
            Permission::Execute => self.execute,
        }
    }

    /// The access to page 0 without any permission: an empty slot.
    pub open spec fn spec_default() -> Self {
        PageAccess { read: false, write: false, execute: false, page: 0 }
    }

    /// Read, write and execute access to `page`.
    pub open spec fn spec_full(page: usize) -> Self {
        PageAccess { read: true, write: true, execute: true, page }
    }

    /// Whether this access covers `other`: the same page, with every
    /// permission that `other` uses.
    pub fn covers(&self, other: &Self) -> (result: bool)
        ensures
            result == self.spec_covers(*other),
    {
        if self.page == other.page {
            let mut result = true;
            if other.read && !self.read {
                result = false;
            }
            if other.write && !self.write {
                result = false;
            }
            if other.execute && !self.execute {
                result = false;
            }
            result
        } else {
            false
        }
    }

    /// The access to the page of this access with the permissions of both.
    pub fn union(&self, other: &Self) -> (result: Self)
        ensures
            result == self.spec_union(*other),
    {
        PageAccess {
            read: self.read || other.read,
            write: self.write || other.write,
            execute: self.execute || other.execute,
            page: self.page,
        }
    }

    /// Whether the access uses the page in the given way.
    pub fn uses(&self, permission: Permission) -> (result: bool)
        ensures
            result == self.spec_uses(permission),
    {
        match permission {
            Permission::Read => self.read,
            Permission::Write => self.write,
            Permission::Execute => self.execute,
        }
    }

    /// Read, write and execute access to `page`.
    pub fn full(page: usize) -> (result: Self)
        ensures
            result == Self::spec_full(page),
    {
        PageAccess { read: true, write: true, execute: true, page }
    }
}

impl Default for PageAccess {
    fn default() -> (result: Self)
        ensures
            result == PageAccess::spec_default(),
    {
        PageAccess { read: false, write: false, execute: false, page: 0 }
    }
}

/// Covering is reflexive.
pub proof fn lemma_covers_reflexive(a: PageAccess)
    ensures
        a.spec_covers(a),
{
}

/// Covering is transitive.
pub proof fn lemma_covers_transitive(a: PageAccess, b: PageAccess, c: PageAccess)
    requires
        a.spec_covers(b),
        b.spec_covers(c),
    ensures
        a.spec_covers(c),
{
}

/// Two accesses that cover each other are equal.
pub proof fn lemma_covers_antisymmetric(a: PageAccess, b: PageAccess)
    requires
        a.spec_covers(b),
        b.spec_covers(a),
    ensures
        a == b,
{
}

/// The union of two accesses to one page covers both of them, and it is the
/// least such access: whatever covers both covers the union.
pub proof fn lemma_union_is_least_upper_bound(a: PageAccess, b: PageAccess, c: PageAccess)
    requires
        a.page == b.page,
    ensures
        a.spec_union(b).spec_covers(a),
        a.spec_union(b).spec_covers(b),
        c.spec_covers(a) && c.spec_covers(b) <==> c.spec_covers(a.spec_union(b)),
{
}

/// An access covers its union with another access to the same page exactly
/// when it already covers that other access.
pub proof fn lemma_covers_union(a: PageAccess, b: PageAccess)
    requires
        a.page == b.page,
    ensures
        a.spec_covers(a.spec_union(b)) <==> a.spec_covers(b),
        a.spec_covers(b) ==> a.spec_union(b) == a,
{
}

/// Union is idempotent, and on one page commutative and associative.
pub proof fn lemma_union_algebra(a: PageAccess, b: PageAccess, c: PageAccess)
    ensures
        a.spec_union(a) == a,
        a.page == b.page ==> a.spec_union(b) == b.spec_union(a),
        a.spec_union(b).spec_union(c) == a.spec_union(b.spec_union(c)),
{
}

} // verus!
