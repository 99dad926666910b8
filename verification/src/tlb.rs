//! Simulation of the hardware TLB that hides page accesses from the
//! attacker: either a perfect one of unbounded size, or a set-associative
//! one that replaces the least recently used entry.

use vstd::prelude::*;
use std::collections::VecDeque;
use crate::page_access::PageAccess;

verus! {

/// An entry of a set of the TLB.
#[derive(Debug, Clone, Copy, PartialEq, Eq, Structural)]
pub struct TLBEntry {
    pub page: PageAccess,
    pub valid: bool,
}

impl TLBEntry {
    /// Whether the entry serves an access: it is valid and covers it.
    pub open spec fn serves(self, page: PageAccess) -> bool {
        self.page.spec_covers(page) && self.valid
    }
}

/// Whether some way of a set serves an access.
pub open spec fn set_hits(ways: Seq<TLBEntry>, page: PageAccess) -> bool {
    exists|i: int| 0 <= i < ways.len() && (#[trigger] ways[i]).serves(page)
}

/// The first way that serves an access, and the number of ways when none
/// does.
pub open spec fn first_hit(ways: Seq<TLBEntry>, page: PageAccess) -> int
    decreases ways.len(),
{
    if ways.len() == 0 {
        0
    } else if ways[0].serves(page) {
        0
    } else {
        1 + first_hit(ways.drop_first(), page)
    }
}

/// A set after an access was inserted.  The ways are ordered from the
/// least to the most recently used.  An entry that serves the access moves
/// to the end; without one, a new entry joins at the end, after the first
/// way has left if the set was full.
pub open spec fn set_insert(ways: Seq<TLBEntry>, capacity: nat, page: PageAccess) -> Seq<
    TLBEntry,
> {
    let hit = first_hit(ways, page);
    if hit < ways.len() {
        ways.remove(hit).push(ways[hit])
    } else if ways.len() == capacity && ways.len() > 0 {
        ways.drop_first().push(TLBEntry { page, valid: true })
    } else {
        ways.push(TLBEntry { page, valid: true })
    }
}

/// A set after the accesses of `pages` were inserted, in order.
pub open spec fn set_insert_all(ways: Seq<TLBEntry>, capacity: nat, pages: Seq<PageAccess>) -> Seq<
    TLBEntry,
>
    decreases pages.len(),
{
    if pages.len() == 0 {
        ways
    } else {
        set_insert(set_insert_all(ways, capacity, pages.drop_last()), capacity, pages.last())
    }
}

/// A set after every entry that covers an access was invalidated.
pub open spec fn set_invalidate(ways: Seq<TLBEntry>, page: PageAccess) -> Seq<TLBEntry> {
    Seq::new(
        ways.len(),
        |i: int|
            if ways[i].page.spec_covers(page) {
                TLBEntry { page: ways[i].page, valid: false }
            } else {
                ways[i]
            },
    )
}

/// No two valid ways hold the same access.
pub open spec fn valid_ways_distinct(ways: Seq<TLBEntry>) -> bool {
    forall|i: int, j: int|
        0 <= i < j < ways.len() && (#[trigger] ways[i]).valid && (#[trigger] ways[j]).valid
            ==> ways[i].page != ways[j].page
}

/// `first_hit` is the least index of a way that serves the access.
pub proof fn lemma_first_hit(ways: Seq<TLBEntry>, page: PageAccess)
    ensures
        0 <= first_hit(ways, page) <= ways.len(),
        first_hit(ways, page) < ways.len() ==> ways[first_hit(ways, page)].serves(page),
        forall|i: int| 0 <= i < first_hit(ways, page) ==> !(#[trigger] ways[i]).serves(page),
        first_hit(ways, page) < ways.len() <==> set_hits(ways, page),
    decreases ways.len(),
{
    if ways.len() > 0 && !ways[0].serves(page) {
        let rest = ways.drop_first();
        lemma_first_hit(rest, page);
        assert forall|i: int| 0 <= i < first_hit(ways, page) implies !(#[trigger] ways[i]).serves(
            page,
        ) by {
            if i > 0 {
                assert(rest[i - 1] == ways[i]);
            }
        }
        if first_hit(rest, page) < rest.len() {
            assert(ways[first_hit(ways, page)] == rest[first_hit(rest, page)]);
        }
        if set_hits(ways, page) {
            let i = choose|i: int| 0 <= i < ways.len() && (#[trigger] ways[i]).serves(page);
            assert(rest[i - 1] == ways[i]);
        }
    }
}

/// What a [`TlbSet`] holds.
#[verifier::ext_equal]
pub struct TlbSetView {
    /// The entries, from the least to the most recently used.
    pub ways: Seq<TLBEntry>,
    /// Number of entries at which the set is full.
    pub capacity: nat,
}

impl TlbSetView {
    /// A set with room for an entry never holds more than its capacity, and
    /// no two valid entries hold the same access.
    pub open spec fn wf(self) -> bool {
        &&& self.capacity > 0 ==> self.ways.len() <= self.capacity
        &&& valid_ways_distinct(self.ways)
    }
}

/// Inserting an access keeps a set well formed.
pub proof fn lemma_set_insert_wf(set: TlbSetView, page: PageAccess)
    requires
        set.wf(),
    ensures
        (TlbSetView {
            ways: set_insert(set.ways, set.capacity, page),
            capacity: set.capacity,
        }).wf(),
{
    lemma_first_hit(set.ways, page);
    let ways = set.ways;
    let after = set_insert(ways, set.capacity, page);
    let hit = first_hit(ways, page);
    if hit < ways.len() {
        assert forall|i: int, j: int|
            0 <= i < j < after.len() && (#[trigger] after[i]).valid && (
            #[trigger] after[j]).valid implies after[i].page != after[j].page by {
            let from_i = if i < hit {
                i
            } else {
                i + 1
            };
            let from_j = if j == after.len() - 1 {
                hit
            } else if j < hit {
                j
            } else {
                j + 1
            };
            assert(after[i] == ways[from_i]);
            assert(after[j] == ways[from_j]);
            if from_i < from_j {
                assert(ways[from_i].page != ways[from_j].page);
            } else {
                assert(ways[from_j].page != ways[from_i].page);
            }
        }
    } else {
        let kept = if ways.len() == set.capacity && ways.len() > 0 {
            ways.drop_first()
        } else {
            ways
        };
        let shift = ways.len() - kept.len();
        assert forall|i: int, j: int|
            0 <= i < j < after.len() && (#[trigger] after[i]).valid && (
            #[trigger] after[j]).valid implies after[i].page != after[j].page by {
            assert(after[i] == ways[i + shift]);
            if j < after.len() - 1 {
                assert(after[j] == ways[j + shift]);
            } else {
                assert(!ways[i + shift].serves(page));
            }
        }
    }
}

/// A set of the TLB: its ways in the order of their last use.
#[derive(Debug, Clone)]
pub struct TlbSet {
    ways: VecDeque<TLBEntry>,
    capacity: usize,
}

impl View for TlbSet {
    type V = TlbSetView;

    closed spec fn view(&self) -> TlbSetView {
        TlbSetView { ways: self.ways@, capacity: self.capacity as nat }
    }
}

impl TlbSet {
    /// A set with room for an entry never holds more than its capacity, and
    /// no two valid entries hold the same access.
    pub open spec fn wf(&self) -> bool {
        self@.wf()
    }

    /// An empty set that is full at `capacity` entries.
    pub fn new(capacity: usize) -> (result: Self)
        ensures
            result.wf(),
            result@.ways == Seq::<TLBEntry>::empty(),
            result@.capacity == capacity,
    {
        TlbSet { ways: VecDeque::with_capacity(capacity), capacity }
    }

    /// Number of entries at which the set is full.
    pub fn capacity(&self) -> (result: usize)
        ensures
            result == self@.capacity,
    {
        self.capacity
    }

    /// The entries, from the least to the most recently used.
    pub fn ways(&self) -> (result: Vec<TLBEntry>)
        ensures
            result@ == self@.ways,
    {
        let mut result: Vec<TLBEntry> = Vec::new();
        let mut i: usize = 0;
        while i < self.ways.len()
            invariant
                i <= self.ways@.len(),
                result@ == self.ways@.take(i as int),
            decreases self.ways@.len() - i,
        {
            result.push(self.ways[i]);
            assert(self.ways@.take(i + 1) =~= self.ways@.take(i as int).push(self.ways@[i as int]));
            i += 1;
        }
        assert(self.ways@.take(i as int) =~= self.ways@);
        result
    }

    /// Empties the set.
    pub fn clear(&mut self)
        ensures
            final(self).wf(),
            final(self)@.ways == Seq::<TLBEntry>::empty(),
            final(self)@.capacity == old(self)@.capacity,
    {
        self.ways.clear();
    }

    /// The first way that serves an access, if there is one.
    fn position(&self, page: &PageAccess) -> (result: Option<usize>)
        ensures
            match result {
                Some(hit) => hit < self@.ways.len() && hit == first_hit(self@.ways, *page),
                None => first_hit(self@.ways, *page) == self@.ways.len(),
            },
    {
        let mut i: usize = 0;
        proof {
            lemma_first_hit(self.ways@, *page);
        }
        while i < self.ways.len()
            invariant
                i <= self.ways@.len(),
                i <= first_hit(self.ways@, *page) <= self.ways@.len(),
                first_hit(self.ways@, *page) < self.ways@.len() ==> self.ways@[first_hit(
                    self.ways@,
                    *page,
                )].serves(*page),
            decreases self.ways@.len() - i,
        {
            let entry = self.ways[i];
            if entry.page.covers(page) && entry.valid {
                proof {
                    lemma_first_hit(self.ways@, *page);
                }
                return Some(i);
            }
            i += 1;
        }
        None
    }

    /// Whether some way serves an access.
    pub fn lookup(&self, page: &PageAccess) -> (result: bool)
        ensures
            result == set_hits(self@.ways, *page),
    {
        proof {
            lemma_first_hit(self.ways@, *page);
        }
        self.position(page).is_some()
    }

    /// Inserts an access.  If an entry serves it, that entry becomes the
    /// most recently used; else a new entry does, and the least recently
    /// used one makes room if the set is full.
    pub fn insert(&mut self, page: PageAccess)
        requires
            old(self).wf(),
        ensures
            final(self).wf(),
            final(self)@.capacity == old(self)@.capacity,
            final(self)@.ways == set_insert(old(self)@.ways, old(self)@.capacity, page),
    {
        proof {
            lemma_set_insert_wf(self@, page);
        }
        // Check if the page is already in the set.
        if let Some(pos) = self.position(&page) {
            // Move the found entry to the back (most recently used).
            let entry = self.ways.remove(pos).unwrap();
            self.ways.push_back(entry);
        } else {
            // Insert new entry, evicting the least recently used if
            // necessary.
            if self.ways.len() == self.capacity {
                self.ways.pop_front();
            }
            proof {
                if old(self)@.ways.len() > 0 {
                    assert(old(self)@.ways.subrange(1, old(self)@.ways.len() as int) =~= old(
                        self,
                    )@.ways.drop_first());
                }
            }
            self.ways.push_back(TLBEntry { page, valid: true });
        }
    }

    /// Invalidates every entry that covers an access.
    pub fn invalidate(&mut self, page: &PageAccess)
        requires
            old(self).wf(),
        ensures
            final(self).wf(),
            final(self)@.capacity == old(self)@.capacity,
            final(self)@.ways == set_invalidate(old(self)@.ways, *page),
    {
        let count = self.ways.len();
        let ghost target = set_invalidate(self.ways@, *page);
        let mut i: usize = 0;
        while i < count
            invariant
                i <= count,
                count == old(self).ways@.len(),
                self.capacity == old(self).capacity,
                target == set_invalidate(old(self).ways@, *page),
                self.ways@ == old(self).ways@.skip(i as int) + target.take(i as int),
            decreases count - i,
        {
            let ghost before = self.ways@;
            let entry = self.ways.pop_front().unwrap();
            assert(entry == old(self).ways@[i as int]);
            let changed = if entry.page.covers(page) {
                TLBEntry { page: entry.page, valid: false }
            } else {
                entry
            };
            self.ways.push_back(changed);
            assert(self.ways@ =~= old(self).ways@.skip(i + 1) + target.take(i + 1));
            i += 1;
        }
        assert(self.ways@ =~= target);
        assert(valid_ways_distinct(target)) by {
            assert forall|a: int, b: int|
                0 <= a < b < target.len() && (#[trigger] target[a]).valid && (
                #[trigger] target[b]).valid implies target[a].page != target[b].page by {
                assert(old(self)@.ways[a].valid && old(self)@.ways[b].valid);
            }
        }
    }
}

/// The kind of hardware TLB to simulate.
#[derive(Debug, Clone, Copy, PartialEq, Eq, Structural)]
pub enum HardwareTLBType {
    Perfect,
    SetAssociative,
}

/// Configuration of the simulated hardware TLB.
#[derive(Debug, Clone, Copy, PartialEq, Eq, Structural)]
pub enum HardwareTLBConfig {
    /// Fully associative and of unbounded size.
    Perfect,
    /// `num_sets` sets of `ways_per_set` entries each; a page belongs to
    /// the set of its number modulo `num_sets`.
    SetAssociative { num_sets: usize, ways_per_set: usize },
}

impl HardwareTLBConfig {
    /// The configuration of the given kind; the sizes matter to a
    /// set-associative TLB only.
    pub fn new(kind: HardwareTLBType, num_sets: usize, ways_per_set: usize) -> (result: Self)
        ensures
            result == (match kind {
                HardwareTLBType::Perfect => HardwareTLBConfig::Perfect,
                HardwareTLBType::SetAssociative => HardwareTLBConfig::SetAssociative {
                    num_sets,
                    ways_per_set,
                },
            }),
    {
        match kind {
            HardwareTLBType::Perfect => HardwareTLBConfig::Perfect,
            HardwareTLBType::SetAssociative => HardwareTLBConfig::SetAssociative {
                num_sets,
                ways_per_set,
            },
        }
    }
}

/// What a [`HardwareTLB`] holds.
#[verifier::ext_equal]
pub enum TlbView {
    /// The accesses that were inserted.
    Perfect(Set<PageAccess>),
    /// The ways of every set, and the number of entries at which a set is
    /// full.
    SetAssociative { sets: Seq<Seq<TLBEntry>>, ways_per_set: nat },
}

impl TlbView {
    /// The empty TLB of a configuration.
    pub open spec fn empty(config: HardwareTLBConfig) -> Self {
        match config {
            HardwareTLBConfig::Perfect => TlbView::Perfect(Set::empty()),
            HardwareTLBConfig::SetAssociative { num_sets, ways_per_set } => {
                TlbView::SetAssociative {
                    sets: Seq::new(num_sets as nat, |i: int| Seq::<TLBEntry>::empty()),
                    ways_per_set: ways_per_set as nat,
                }
            },
        }
    }

    /// Whether accesses can be inserted and tested: a set-associative TLB
    /// needs a set for that.
    pub open spec fn usable(self) -> bool {
        self matches TlbView::SetAssociative { sets, .. } ==> sets.len() > 0
    }

    /// The set that a page belongs to.
    pub open spec fn set_index(self, page: PageAccess) -> int {
        page.page as int % self->sets.len() as int
    }

    /// Whether the TLB serves an access: some entry that it holds covers
    /// it.
    pub open spec fn hits(self, page: PageAccess) -> bool {
        match self {
            TlbView::Perfect(pages) => exists|p: PageAccess|
                pages.contains(p) && #[trigger] p.spec_covers(page),
            TlbView::SetAssociative { sets, .. } => set_hits(sets[self.set_index(page)], page),
        }
    }

    /// The TLB after an access was inserted.
    pub open spec fn insert(self, page: PageAccess) -> Self {
        match self {
            TlbView::Perfect(pages) => TlbView::Perfect(pages.insert(page)),
            TlbView::SetAssociative { sets, ways_per_set } => TlbView::SetAssociative {
                sets: sets.update(
                    self.set_index(page),
                    set_insert(sets[self.set_index(page)], ways_per_set, page),
                ),
                ways_per_set,
            },
        }
    }

    /// The TLB after the accesses of `pages` were inserted, in order.
    pub open spec fn update(self, pages: Seq<PageAccess>) -> Self
        decreases pages.len(),
    {
        if pages.len() == 0 {
            self
        } else {
            self.update(pages.drop_last()).insert(pages.last())
        }
    }

    /// The TLB after a flush: of the same shape, without entries.
    pub open spec fn flush(self) -> Self {
        match self {
            TlbView::Perfect(_) => TlbView::Perfect(Set::empty()),
            TlbView::SetAssociative { sets, ways_per_set } => TlbView::SetAssociative {
                sets: Seq::new(sets.len(), |i: int| Seq::<TLBEntry>::empty()),
                ways_per_set,
            },
        }
    }
}

/// The valid entries that hold the accesses of `pages`, in order.
pub open spec fn fresh_entries(pages: Seq<PageAccess>) -> Seq<TLBEntry> {
    Seq::new(pages.len(), |i: int| TLBEntry { page: pages[i], valid: true })
}

/// No two accesses of `pages` name the same page.
pub open spec fn distinct_pages(pages: Seq<PageAccess>) -> bool {
    forall|i: int, j: int|
        0 <= i < j < pages.len() ==> (#[trigger] pages[i]).page != (#[trigger] pages[j]).page
}

/// An access to a page that a set does not hold joins it as the most
/// recently used entry, and the least recently used one leaves if the set
/// was full.
pub proof fn lemma_insert_absent(held: Seq<PageAccess>, capacity: nat, page: PageAccess)
    requires
        forall|i: int| 0 <= i < held.len() ==> (#[trigger] held[i]).page != page.page,
    ensures
        set_insert(fresh_entries(held), capacity, page) == if held.len() == capacity && held.len()
            > 0 {
            fresh_entries(held.drop_first().push(page))
        } else {
            fresh_entries(held.push(page))
        },
        !set_hits(fresh_entries(held), page),
{
    let ways = fresh_entries(held);
    lemma_first_hit(ways, page);
    if set_hits(ways, page) {
        let i = choose|i: int| 0 <= i < ways.len() && (#[trigger] ways[i]).serves(page);
        assert(held[i].page != page.page);
    }
    assert(first_hit(ways, page) == ways.len());
    if held.len() == capacity && held.len() > 0 {
        assert(ways.drop_first().push(TLBEntry { page, valid: true }) =~= fresh_entries(
            held.drop_first().push(page),
        ));
    } else {
        assert(ways.push(TLBEntry { page, valid: true }) =~= fresh_entries(held.push(page)));
    }
}

/// An access that a set holds becomes the most recently used entry, and
/// nothing leaves.
pub proof fn lemma_insert_held(held: Seq<PageAccess>, capacity: nat, at: int)
    requires
        distinct_pages(held),
        0 <= at < held.len(),
    ensures
        set_insert(fresh_entries(held), capacity, held[at]) == fresh_entries(
            held.remove(at).push(held[at]),
        ),
        set_hits(fresh_entries(held), held[at]),
{
    let ways = fresh_entries(held);
    lemma_first_hit(ways, held[at]);
    assert(ways[at].serves(held[at]));
    let hit = first_hit(ways, held[at]);
    if hit != at {
        assert(ways[hit].serves(held[at]));
        assert(held[hit].page == held[at].page);
        if hit < at {
            assert(held[hit].page != held[at].page);
        } else {
            assert(held[at].page != held[hit].page);
        }
    }
    assert(ways.remove(at).push(ways[at]) =~= fresh_entries(held.remove(at).push(held[at])));
}

/// A set that was empty holds, after accesses to different pages, the last
/// of them: as many as it has room for, the earliest first.
pub proof fn lemma_lru_keeps_latest(capacity: nat, pages: Seq<PageAccess>)
    requires
        capacity >= 1,
        distinct_pages(pages),
    ensures
        set_insert_all(Seq::empty(), capacity, pages) == fresh_entries(
            pages.skip(
                if pages.len() > capacity {
                    pages.len() - capacity
                } else {
                    0
                },
            ),
        ),
    decreases pages.len(),
{
    if pages.len() == 0 {
        assert(fresh_entries(pages.skip(0)) =~= Seq::<TLBEntry>::empty());
    } else {
        let earlier = pages.drop_last();
        lemma_lru_keeps_latest(capacity, earlier);
        let from = if earlier.len() > capacity {
            earlier.len() - capacity
        } else {
            0
        };
        let held = earlier.skip(from);
        assert forall|i: int| 0 <= i < held.len() implies (#[trigger] held[i]).page
            != pages.last().page by {
            assert(held[i] == pages[i + from]);
        }
        lemma_insert_absent(held, capacity, pages.last());
        let after = if pages.len() > capacity {
            pages.len() - capacity
        } else {
            0
        };
        if held.len() == capacity {
            assert(held.drop_first().push(pages.last()) =~= pages.skip(after));
        } else {
            assert(held.push(pages.last()) =~= pages.skip(after));
        }
    }
}

/// LRU law.  In a set with room for `pages.len() - 1` entries that was
/// empty, accesses to that many pages and one more evict the first of
/// them.  An access to one that is held, `pages[again]`, changes nothing
/// but the order.  One more access, to yet another page, then evicts the
/// earliest page that was not accessed again, and the page accessed again
/// stays.
pub proof fn lemma_lru_law(pages: Seq<PageAccess>, again: int, another: PageAccess)
    requires
        pages.len() >= 3,
        distinct_pages(pages),
        1 <= again < pages.len(),
        forall|i: int| 0 <= i < pages.len() ==> (#[trigger] pages[i]).page != another.page,
    ensures
        ({
            let capacity = (pages.len() - 1) as nat;
            let full = set_insert_all(Seq::empty(), capacity, pages);
            let promoted = set_insert(full, capacity, pages[again]);
            let last = set_insert(promoted, capacity, another);
            let next_oldest = if again == 1 {
                pages[2]
            } else {
                pages[1]
            };
            &&& full == fresh_entries(pages.skip(1))
            &&& !set_hits(full, pages[0])
            &&& forall|i: int| 1 <= i < pages.len() ==> set_hits(full, #[trigger] pages[i])
            &&& promoted == fresh_entries(pages.skip(1).remove(again - 1).push(pages[again]))
            &&& promoted.len() == capacity
            &&& promoted.last().page == pages[again]
            &&& promoted[0].page == next_oldest
            &&& last == fresh_entries(
                pages.skip(1).remove(again - 1).push(pages[again]).drop_first().push(another),
            )
            &&& !set_hits(last, next_oldest)
            &&& set_hits(last, pages[again])
            &&& set_hits(last, another)
        }),
{
    let capacity = (pages.len() - 1) as nat;
    let full = set_insert_all(Seq::empty(), capacity, pages);
    lemma_lru_keeps_latest(capacity, pages);
    let held = pages.skip(1);
    assert(full == fresh_entries(held));
    assert(distinct_pages(held)) by {
        assert forall|i: int, j: int| 0 <= i < j < held.len() implies (#[trigger] held[i]).page != (
        #[trigger] held[j]).page by {
            assert(held[i] == pages[i + 1] && held[j] == pages[j + 1]);
        }
    }
    // The first page has left, the others are held.
    assert(!set_hits(full, pages[0])) by {
        if set_hits(full, pages[0]) {
            let i = choose|i: int| 0 <= i < full.len() && (#[trigger] full[i]).serves(pages[0]);
            assert(held[i] == pages[i + 1]);
        }
    }
    assert forall|i: int| 1 <= i < pages.len() implies set_hits(full, #[trigger] pages[i]) by {
        assert(held[i - 1] == pages[i]);
        lemma_insert_held(held, capacity, i - 1);
    }
    // The page accessed again moves to the end.
    lemma_insert_held(held, capacity, again - 1);
    assert(held[again - 1] == pages[again]);
    let reordered = held.remove(again - 1).push(pages[again]);
    let promoted = set_insert(full, capacity, pages[again]);
    assert(promoted == fresh_entries(reordered));
    let next_oldest = if again == 1 {
        pages[2]
    } else {
        pages[1]
    };
    assert(reordered[0] == next_oldest) by {
        if again == 1 {
            assert(held.remove(0)[0] == held[1]);
            assert(held[1] == pages[2]);
        } else {
            assert(held.remove(again - 1)[0] == held[0]);
            assert(held[0] == pages[1]);
        }
    }
    // Another page evicts the first entry of the new order.
    assert forall|i: int| 0 <= i < reordered.len() implies (#[trigger] reordered[i]).page
        != another.page by {
        if i < reordered.len() - 1 {
            let from = if i < again - 1 {
                i + 1
            } else {
                i + 2
            };
            assert(reordered[i] == pages[from]);
        }
    }
    lemma_insert_absent(reordered, capacity, another);
    let kept = reordered.drop_first().push(another);
    let last = set_insert(promoted, capacity, another);
    assert(last == fresh_entries(kept));
    assert(distinct_pages(reordered)) by {
        assert forall|i: int, j: int| 0 <= i < j < reordered.len() implies (
        #[trigger] reordered[i]).page != (#[trigger] reordered[j]).page by {
            let from_i = if i < again - 1 {
                i
            } else {
                i + 1
            };
            let from_j = if j == reordered.len() - 1 {
                again - 1
            } else if j < again - 1 {
                j
            } else {
                j + 1
            };
            assert(reordered[i] == held[from_i]);
            assert(reordered[j] == held[from_j]);
            if from_i < from_j {
                assert(held[from_i].page != held[from_j].page);
            } else {
                assert(held[from_j].page != held[from_i].page);
            }
        }
    }
    assert(!set_hits(last, next_oldest)) by {
        if set_hits(last, next_oldest) {
            let i = choose|i: int| 0 <= i < last.len() && (#[trigger] last[i]).serves(next_oldest);
            if i < kept.len() - 1 {
                assert(kept[i] == reordered[i + 1]);
                assert(reordered[0].page != reordered[i + 1].page);
            }
        }
    }
    assert(set_hits(last, pages[again])) by {
        let at = kept.len() - 2;
        assert(kept[at] == reordered[at + 1]);
        assert(last[at].serves(pages[again]));
    }
    assert(set_hits(last, another)) by {
        assert(last[kept.len() - 1].serves(another));
    }
}

/// What was inserted last is served, and with it every access that it
/// covers: an entry cached for reading, writing and executing serves any
/// weaker access to its page.
pub proof fn lemma_insert_serves(tlb: TlbView, inserted: PageAccess, page: PageAccess)
    requires
        tlb.usable(),
        inserted.spec_covers(page),
    ensures
        tlb.insert(inserted).hits(page),
{
    match tlb {
        TlbView::Perfect(pages) => {
            assert(pages.insert(inserted).contains(inserted));
        },
        TlbView::SetAssociative { sets, ways_per_set } => {
            let index = tlb.set_index(inserted);
            assert(tlb.set_index(page) == index);
            assert(tlb.insert(inserted)->sets.len() == sets.len());
            assert(tlb.insert(inserted).set_index(page) == index);
            let ways = sets[index];
            let after = set_insert(ways, ways_per_set, inserted);
            assert(tlb.insert(inserted)->sets[index] == after);
            lemma_first_hit(ways, inserted);
            assert(after.last().serves(inserted));
            assert(after[after.len() - 1].serves(page));
        },
    }
}

/// Subsumption: once read, write and execute access to a page was
/// inserted, the TLB serves every access to that page, whatever the
/// permissions that it uses.
pub proof fn lemma_full_access_serves_all(tlb: TlbView, page: usize, access: PageAccess)
    requires
        tlb.usable(),
        access.page == page,
    ensures
        tlb.insert(PageAccess::spec_full(page)).hits(access),
{
    lemma_insert_serves(tlb, PageAccess::spec_full(page), access);
}

/// A perfect TLB never forgets: what it served before an update it serves
/// afterwards, and it serves every access of the update.
pub proof fn lemma_perfect_update(held: Set<PageAccess>, pages: Seq<PageAccess>)
    ensures
        TlbView::Perfect(held).update(pages) == TlbView::Perfect(held.union(pages.to_set())),
        forall|page: PageAccess|
            TlbView::Perfect(held).hits(page) ==> #[trigger] TlbView::Perfect(held).update(
                pages,
            ).hits(page),
        forall|i: int, page: PageAccess|
            0 <= i < pages.len() && (#[trigger] pages[i]).spec_covers(page)
                ==> #[trigger] TlbView::Perfect(held).update(pages).hits(page),
    decreases pages.len(),
{
    if pages.len() == 0 {
        assert(held.union(pages.to_set()) =~= held);
    } else {
        lemma_perfect_update(held, pages.drop_last());
        assert(pages.drop_last().push(pages.last()) =~= pages);
        pages.drop_last().lemma_push_to_set_commute(pages.last());
        assert(held.union(pages.drop_last().to_set()).insert(pages.last()) =~= held.union(
            pages.to_set(),
        ));
    }
    let after = held.union(pages.to_set());
    assert forall|page: PageAccess|
        TlbView::Perfect(held).hits(page) implies #[trigger] TlbView::Perfect(after).hits(
        page,
    ) by {
        let p = choose|p: PageAccess| held.contains(p) && #[trigger] p.spec_covers(page);
        assert(after.contains(p));
    }
    assert forall|i: int, page: PageAccess|
        0 <= i < pages.len() && (#[trigger] pages[i]).spec_covers(
            page,
        ) implies #[trigger] TlbView::Perfect(after).hits(page) by {
        assert(pages.contains(pages[i]));
        assert(after.contains(pages[i]));
    }
}

/// The simulated hardware TLB.
#[derive(Debug, Clone)]
pub enum HardwareTLB {
    /// Fully associative and of unbounded size: the accesses inserted since
    /// the last flush, each of them once.
    Perfect(Vec<PageAccess>),
    /// Set-associative with least-recently-used replacement.
    SetAssociative { sets: Vec<TlbSet>, num_sets: usize, ways_per_set: usize },
}

/// Whether `pages` holds `page`.
fn holds_access(pages: &Vec<PageAccess>, page: &PageAccess) -> (result: bool)
    ensures
        result == pages@.contains(*page),
{
    let mut i: usize = 0;
    while i < pages.len()
        invariant
            i <= pages@.len(),
            forall|j: int| 0 <= j < i ==> pages@[j] != *page,
        decreases pages@.len() - i,
    {
        if pages[i] == *page {
            return true;
        }
        i += 1;
    }
    false
}

impl View for HardwareTLB {
    type V = TlbView;

    open spec fn view(&self) -> TlbView {
        match self {
            HardwareTLB::Perfect(pages) => TlbView::Perfect(pages@.to_set()),
            HardwareTLB::SetAssociative { sets, ways_per_set, .. } => TlbView::SetAssociative {
                sets: Seq::new(sets@.len(), |i: int| sets@[i]@.ways),
                ways_per_set: *ways_per_set as nat,
            },
        }
    }
}

impl HardwareTLB {
    /// A perfect TLB holds no access twice; a set-associative one has
    /// `num_sets` well-formed sets that are full at `ways_per_set` entries.
    pub open spec fn wf(&self) -> bool {
        match self {
            HardwareTLB::Perfect(pages) => pages@.no_duplicates(),
            HardwareTLB::SetAssociative { sets, num_sets, ways_per_set } => {
                &&& sets@.len() == num_sets
                &&& forall|i: int|
                    0 <= i < sets@.len() ==> (#[trigger] sets@[i]).wf() && sets@[i]@.capacity
                        == ways_per_set
            },
        }
    }

    /// Removes every entry.
    pub fn flush(&mut self)
        requires
            old(self).wf(),
        ensures
            final(self).wf(),
            final(self)@ == old(self)@.flush(),
    {
        match self {
            HardwareTLB::Perfect(pages) => {
                pages.clear();
                assert(pages@.to_set() =~= Set::<PageAccess>::empty());
            },
            HardwareTLB::SetAssociative { sets, num_sets, ways_per_set } => {
                let mut i: usize = 0;
                while i < sets.len()
                    invariant
                        i <= sets@.len(),
                        sets@.len() == old(self)->sets@.len(),
                        forall|j: int|
                            0 <= j < sets@.len() ==> (#[trigger] sets@[j]).wf()
                                && sets@[j]@.capacity == *ways_per_set,
                        forall|j: int|
                            0 <= j < i ==> (#[trigger] sets@[j])@.ways == Seq::<TLBEntry>::empty(),
                    decreases sets@.len() - i,
                {
                    sets[i].clear();
                    i += 1;
                }
            },
        }
        assert(self@ =~~= old(self)@.flush());
    }

    /// Inserts one access.
    pub fn insert(&mut self, page: PageAccess)
        requires
            old(self).wf(),
            old(self)@.usable(),
        ensures
            final(self).wf(),
            final(self)@ == old(self)@.insert(page),
            final(self)@.usable(),
    {
        match self {
            HardwareTLB::Perfect(pages) => {
                // "perfect" fully-associative hardware TLB with infinite size
                if !holds_access(pages, &page) {
                    let ghost before = pages@;
                    pages.push(page);
                    proof {
                        before.lemma_push_to_set_commute(page);
                        assert forall|i: int, j: int|
                            0 <= i < pages@.len() && 0 <= j < pages@.len() && i
                                != j implies pages@[i] != pages@[j] by {
                            if i < before.len() && j < before.len() {
                                assert(before[i] != before[j]);
                            } else if i < before.len() {
                                assert(before.contains(before[i]));
                            } else {
                                assert(before.contains(before[j]));
                            }
                        }
                    }
                } else {
                    assert(pages@.to_set().insert(page) =~= pages@.to_set());
                }
            },
            HardwareTLB::SetAssociative { sets, num_sets, ways_per_set } => {
                let set_index = Self::get_set_index(&page, *num_sets);
                let ghost before = sets@;
                sets[set_index].insert(page);
                proof {
                    assert forall|j: int| 0 <= j < sets@.len() implies (#[trigger] sets@[j]).wf()
                        && sets@[j]@.capacity == *ways_per_set by {
                        if j != set_index {
                            assert(sets@[j] == before[j]);
                        }
                    }
                }
            },
        }
        assert(self@ =~~= old(self)@.insert(page));
    }

    /// Inserts the accesses of `pages`, in order.
    pub fn update(&mut self, pages: &[PageAccess])
        requires
            old(self).wf(),
            old(self)@.usable() || pages@.len() == 0,
        ensures
            final(self).wf(),
            final(self)@ == old(self)@.update(pages@),
    {
        let mut i: usize = 0;
        assert(pages@.take(0) =~= Seq::<PageAccess>::empty());
        while i < pages.len()
            invariant
                i <= pages@.len(),
                self.wf(),
                self@.usable() || pages@.len() == 0,
                self@ == old(self)@.update(pages@.take(i as int)),
            decreases pages@.len() - i,
        {
            proof {
                let next = pages@.take(i + 1);
                assert(next.drop_last() =~= pages@.take(i as int));
                assert(next.last() == pages@[i as int]);
            }
            self.insert(pages[i]);
            i += 1;
        }
        assert(pages@.take(i as int) =~= pages@);
    }

    /// Whether the TLB serves an access.
    pub fn test(&self, page: &PageAccess) -> (result: bool)
        requires
            self.wf(),
            self@.usable(),
        ensures
            result == self@.hits(*page),
    {
        match self {
            HardwareTLB::Perfect(pages) => {
                let mut found = false;
                let mut i: usize = 0;
                while i < pages.len() && !found
                    invariant
                        i <= pages@.len(),
                        forall|j: int|
                            0 <= j < i && !found ==> !(#[trigger] pages@[j]).spec_covers(*page),
                        found ==> 0 < i && pages@[i - 1].spec_covers(*page),
                    decreases pages@.len() - i,
                {
                    if pages[i].covers(page) {
                        found = true;
                    }
                    i += 1;
                }
                proof {
                    if found {
                        assert(pages@.contains(pages@[i - 1]));
                        assert(pages@.to_set().contains(pages@[i - 1]));
                    } else {
                        assert forall|p: PageAccess|
                            pages@.to_set().contains(p) implies !#[trigger] p.spec_covers(
                            *page,
                        ) by {
                            let j = choose|j: int| 0 <= j < pages@.len() && pages@[j] == p;
                            assert(!pages@[j].spec_covers(*page));
                        }
                    }
                }
                found
            },
            HardwareTLB::SetAssociative { sets, num_sets, .. } => {
                let set_index = Self::get_set_index(page, *num_sets);
                sets[set_index].lookup(page)
            },
        }
    }

    /// The accesses that a perfect TLB holds, each of them once.
    ///
    /// For debugging purposes only; a set-associative TLB cannot list its
    /// entries.
    pub fn iter(&self) -> (result: Vec<PageAccess>)
        requires
            self is Perfect,
        ensures
            result@ == self->Perfect_0@,
            self.wf() ==> result@.no_duplicates(),
            TlbView::Perfect(result@.to_set()) == self@,
    {
        match self {
            HardwareTLB::Perfect(pages) => pages.clone(),
            HardwareTLB::SetAssociative { .. } => Vec::new(),
        }
    }

    fn get_set_index(page: &PageAccess, num_sets: usize) -> (result: usize)
        requires
            num_sets > 0,
        ensures
            result == page.page % num_sets,
            result < num_sets,
    {
        page.page % num_sets
    }
}

impl HardwareTLB {
    /// The empty TLB of a configuration.
    pub fn new(config: HardwareTLBConfig) -> (result: Self)
        ensures
            result.wf(),
            result@ == TlbView::empty(config),
    {
        match config {
            HardwareTLBConfig::Perfect => {
                let pages: Vec<PageAccess> = Vec::new();
                assert(pages@.to_set() =~= Set::<PageAccess>::empty());
                HardwareTLB::Perfect(pages)
            },
            HardwareTLBConfig::SetAssociative { num_sets, ways_per_set } => {
                let mut sets: Vec<TlbSet> = Vec::new();
                let mut i: usize = 0;
                while i < num_sets
                    invariant
                        i <= num_sets,
                        sets@.len() == i,
                        forall|j: int|
                            0 <= j < i ==> (#[trigger] sets@[j]).wf() && sets@[j]@.capacity
                                == ways_per_set && sets@[j]@.ways == Seq::<TLBEntry>::empty(),
                    decreases num_sets - i,
                {
                    sets.push(TlbSet::new(ways_per_set));
                    i += 1;
                }
                let result = HardwareTLB::SetAssociative { sets, num_sets, ways_per_set };
                assert(result@ =~~= TlbView::empty(config));
                result
            },
        }
    }
}

impl From<HardwareTLBConfig> for HardwareTLB {
    fn from(value: HardwareTLBConfig) -> (result: Self)
        ensures
            result.wf(),
            result@ == TlbView::empty(value),
    {
        HardwareTLB::new(value)
    }
}

impl vstd::std_specs::convert::FromSpecImpl<HardwareTLBConfig> for HardwareTLB {
    /// The conversion yields vectors, of which only the contents are
    /// specified: see the contract of `from`.
    open spec fn obeys_from_spec() -> bool {
        false
    }

    open spec fn from_spec(value: HardwareTLBConfig) -> Self {
        arbitrary()
    }
}

} // verus!
