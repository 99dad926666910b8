//! Shadow of the enclave's page table: the accessed and dirty bits of its
//! entries, sampled and cleared at every step, tell which pages the last
//! instruction used.

use vstd::prelude::*;
use crate::page_access::PageAccess;

verus! {

/// Size of a page in bytes.
pub const PAGE_SIZE: usize = 4096;

/// The bits of a page-table entry that the shadow reads.
#[derive(Debug, Clone, Copy, PartialEq, Eq, Structural)]
pub struct PteBits {
    /// The page is mapped.
    pub present: bool,
    /// The page was used since the bit was last cleared.
    pub accessed: bool,
    /// The page was written since the bit was last cleared.
    pub dirty: bool,
}

impl PteBits {
    /// The entry with its accessed and dirty bits cleared.
    pub open spec fn spec_cleared(self) -> Self {
        PteBits { present: self.present, accessed: false, dirty: false }
    }

    /// Whether the entry shows that its page was used.
    pub open spec fn shows_access(self) -> bool {
        self.accessed && self.present
    }

    /// The entry with its accessed and dirty bits cleared.
    pub fn cleared(self) -> (result: Self)
        ensures
            result == self.spec_cleared(),
    {
        PteBits { present: self.present, accessed: false, dirty: false }
    }
}

/// The entries of `map` with the accessed and dirty bits cleared.
pub open spec fn cleared_entries(map: Seq<Option<PteBits>>) -> Seq<Option<PteBits>> {
    Seq::new(
        map.len(),
        |i: int|
            match map[i] {
                Some(bits) => Some(bits.spec_cleared()),
                None => None,
            },
    )
}

/// The access that the entry of page `page` shows, if it shows one: a
/// read, and a write if the page is dirty.  The bits cannot tell whether
/// the page was executed.
pub open spec fn shown_access(entry: Option<PteBits>, page: usize) -> Option<PageAccess> {
    match entry {
        Some(bits) => if bits.shows_access() {
            Some(PageAccess { read: true, write: bits.dirty, execute: false, page })
        } else {
            None
        },
        None => None,
    }
}

/// The accesses that the first `limit` entries of `map` show, by ascending
/// page.
pub open spec fn shown_accesses(map: Seq<Option<PteBits>>, limit: nat) -> Seq<PageAccess>
    decreases limit,
{
    if limit == 0 {
        Seq::empty()
    } else {
        let before = shown_accesses(map, (limit - 1) as nat);
        match shown_access(map[limit - 1], (limit - 1) as usize) {
            Some(access) => before.push(access),
            None => before,
        }
    }
}

/// The accesses of `pages` that `kept` marks, in order.
pub open spec fn selection(pages: Seq<PageAccess>, kept: Seq<bool>) -> Seq<PageAccess>
    decreases pages.len(),
{
    if pages.len() == 0 {
        Seq::empty()
    } else {
        let before = selection(pages.drop_last(), kept.drop_last());
        if kept.last() {
            before.push(pages.last())
        } else {
            before
        }
    }
}

/// A selection by marks that follow a predicate is the filter by that
/// predicate.
pub proof fn lemma_selection_is_filter(
    pages: Seq<PageAccess>,
    kept: Seq<bool>,
    pred: spec_fn(PageAccess) -> bool,
)
    requires
        kept.len() == pages.len(),
        forall|i: int| 0 <= i < pages.len() ==> kept[i] == pred(#[trigger] pages[i]),
    ensures
        selection(pages, kept) == pages.filter(pred),
    decreases pages.len(),
{
    reveal(Seq::filter);
    if pages.len() > 0 {
        let front = pages.drop_last();
        assert forall|i: int| 0 <= i < front.len() implies kept.drop_last()[i] == pred(
            #[trigger] front[i],
        ) by {
            assert(front[i] == pages[i]);
        }
        lemma_selection_is_filter(front, kept.drop_last(), pred);
        assert(kept.last() == pred(pages[pages.len() - 1]));
    }
}

/// Nothing shows in entries whose accessed bits are clear.
pub proof fn lemma_cleared_shows_nothing(map: Seq<Option<PteBits>>, limit: nat)
    requires
        limit <= map.len(),
    ensures
        shown_accesses(cleared_entries(map), limit) == Seq::<PageAccess>::empty(),
    decreases limit,
{
    if limit > 0 {
        lemma_cleared_shows_nothing(map, (limit - 1) as nat);
    }
}

/// The addresses of the pages from `base_adrs` up to and including the
/// page at `end_adrs`, one page apart.
pub open spec fn spec_page_addresses(base_adrs: usize, end_adrs: usize) -> Seq<usize> {
    Seq::new(
        ((end_adrs - base_adrs) / PAGE_SIZE as int + 1) as nat,
        |i: int| (base_adrs + i * PAGE_SIZE) as usize,
    )
}

/// The addresses at which to look up the page-table entries of an enclave
/// that spans `base_adrs` to `end_adrs`: one per page, the last one
/// included.
pub fn page_addresses(base_adrs: usize, end_adrs: usize) -> (result: Vec<usize>)
    requires
        base_adrs <= end_adrs,
    ensures
        result@ == spec_page_addresses(base_adrs, end_adrs),
        forall|i: int| 0 <= i < result@.len() ==> base_adrs <= #[trigger] result@[i] <= end_adrs,
{
    let span = end_adrs - base_adrs;
    let mut result: Vec<usize> = Vec::new();
    let mut offset: usize = 0;
    loop
        invariant_except_break
            offset <= span,
            offset == result@.len() * PAGE_SIZE,
            result@.len() <= span / PAGE_SIZE,
        invariant
            span == end_adrs - base_adrs,
            forall|i: int|
                0 <= i < result@.len() ==> #[trigger] result@[i] == base_adrs + i * PAGE_SIZE,
        ensures
            result@.len() == span / PAGE_SIZE + 1,
        decreases span - offset,
    {
        result.push(base_adrs + offset);
        if span - offset < PAGE_SIZE {
            break ;
        }
        offset += PAGE_SIZE;
    }
    assert(result@ =~= spec_page_addresses(base_adrs, end_adrs));
    result
}

/// Interface to the page table entries of the enclave.
#[derive(Debug)]
pub struct PageTable {
    /// One entry per page of the enclave; `None` where no entry was found.
    pub page_table_map: Vec<Option<PteBits>>,
    /// The accesses that the last sample showed, by ascending page.
    pub pages: Vec<PageAccess>,
    /// Every access that any sample showed, with its page.
    pub accessed_ptes: Vec<(PageAccess, usize)>,
}

impl PageTable {
    /// The accesses that the entries show, each filed with its page.
    pub open spec fn filed(pages: Seq<PageAccess>) -> Seq<(PageAccess, usize)> {
        Seq::new(pages.len(), |i: int| (pages[i], pages[i].page))
    }

    /// The shadow of the given entries, with their accessed and dirty bits
    /// cleared and no access sampled.
    pub fn new(entries: Vec<Option<PteBits>>) -> (result: Self)
        ensures
            result.page_table_map@ == cleared_entries(entries@),
            result.pages@ == Seq::<PageAccess>::empty(),
            result.accessed_ptes@ == Seq::<(PageAccess, usize)>::empty(),
    {
        let mut page_table = Self {
            page_table_map: entries,
            pages: Vec::new(),
            accessed_ptes: Vec::new(),
        };
        page_table.clear_all_ad_bits();
        page_table
    }

    /// Records what was read of the entry of `page`.
    pub fn set_entry(&mut self, page: usize, entry: Option<PteBits>)
        requires
            page < old(self).page_table_map@.len(),
        ensures
            final(self).page_table_map@ == old(self).page_table_map@.update(page as int, entry),
            final(self).pages == old(self).pages,
            final(self).accessed_ptes == old(self).accessed_ptes,
    {
        self.page_table_map.set(page, entry);
    }

    /// Clears the accessed and dirty bits of every entry.
    pub fn clear_all_ad_bits(&mut self)
        ensures
            final(self).page_table_map@ == cleared_entries(old(self).page_table_map@),
            final(self).pages == old(self).pages,
            final(self).accessed_ptes == old(self).accessed_ptes,
    {
        let mut i: usize = 0;
        while i < self.page_table_map.len()
            invariant
                i <= self.page_table_map@.len(),
                self.page_table_map@.len() == old(self).page_table_map@.len(),
                self.pages == old(self).pages,
                self.accessed_ptes == old(self).accessed_ptes,
                forall|j: int|
                    0 <= j < i ==> self.page_table_map@[j] == cleared_entries(
                        old(self).page_table_map@,
                    )[j],
                forall|j: int|
                    i <= j < self.page_table_map@.len() ==> self.page_table_map@[j] == old(
                        self,
                    ).page_table_map@[j],
            decreases self.page_table_map@.len() - i,
        {
            if let Some(pte) = self.page_table_map[i] {
                self.page_table_map.set(i, Some(pte.cleared()));
            }
            i += 1;
        }
        assert(self.page_table_map@ =~= cleared_entries(old(self).page_table_map@));
    }

    /// The accesses that the last sample showed.
    pub fn get_all_accessed_pages(&self) -> (result: &Vec<PageAccess>)
        ensures
            result == &self.pages,
    {
        &self.pages
    }

    /// The accesses of the last sample that `filter` lets through, in
    /// order.
    pub fn get_accessed_pages<F: Fn(&PageAccess) -> bool>(&self, filter: F) -> (result: Vec<
        PageAccess,
    >)
        requires
            forall|i: int|
                0 <= i < self.pages@.len() ==> call_requires(filter, (&#[trigger] self.pages@[i],)),
        ensures
            exists|kept: Seq<bool>|
                {
                    &&& kept.len() == self.pages@.len()
                    &&& forall|i: int|
                        0 <= i < kept.len() ==> call_ensures(
                            filter,
                            (&self.pages@[i],),
                            #[trigger] kept[i],
                        )
                    &&& result@ == selection(self.pages@, kept)
                },
    {
        let mut result: Vec<PageAccess> = Vec::new();
        let ghost mut kept: Seq<bool> = Seq::empty();
        let mut i: usize = 0;
        assert(self.pages@.take(0) =~= Seq::<PageAccess>::empty());
        while i < self.pages.len()
            invariant
                i <= self.pages@.len(),
                forall|i: int|
                    0 <= i < self.pages@.len() ==> call_requires(
                        filter,
                        (&#[trigger] self.pages@[i],),
                    ),
                kept.len() == i,
                forall|j: int|
                    0 <= j < i ==> call_ensures(filter, (&self.pages@[j],), #[trigger] kept[j]),
                result@ == selection(self.pages@.take(i as int), kept),
            decreases self.pages@.len() - i,
        {
            let keep = filter(&self.pages[i]);
            proof {
                let next = self.pages@.take(i + 1);
                assert(next.drop_last() =~= self.pages@.take(i as int));
                assert(kept.push(keep).drop_last() =~= kept);
                kept = kept.push(keep);
            }
            if keep {
                result.push(self.pages[i]);
            }
            i += 1;
        }
        assert(self.pages@.take(i as int) =~= self.pages@);
        result
    }

    /// Samples the entries: the accesses that they show become the current
    /// ones, and join the record of all accesses.
    pub fn update_page_accesses(&mut self)
        ensures
            final(self).page_table_map == old(self).page_table_map,
            final(self).pages@ == shown_accesses(
                old(self).page_table_map@,
                old(self).page_table_map@.len(),
            ),
            final(self).accessed_ptes@ == old(self).accessed_ptes@ + Self::filed(
                final(self).pages@,
            ),
    {
        self.pages.clear();
        let mut i: usize = 0;
        while i < self.page_table_map.len()
            invariant
                i <= self.page_table_map@.len(),
                self.page_table_map == old(self).page_table_map,
                self.pages@ == shown_accesses(self.page_table_map@, i as nat),
                self.accessed_ptes@ == old(self).accessed_ptes@ + Self::filed(self.pages@),
            decreases self.page_table_map@.len() - i,
        {
            if let Some(pte) = self.page_table_map[i] {
                if pte.accessed && pte.present {
                    let p = PageAccess { read: true, write: pte.dirty, execute: false, page: i };
                    let ghost before = self.pages@;
                    self.pages.push(p);
                    self.accessed_ptes.push((p, i));
                    assert(self.accessed_ptes@ =~= old(self).accessed_ptes@ + Self::filed(
                        self.pages@,
                    ));
                }
            }
            i += 1;
        }
    }
}

/// Shadow reset: right after the accessed and dirty bits were cleared, a
/// sample shows no access at all.
pub proof fn lemma_shadow_reset(map: Seq<Option<PteBits>>)
    ensures
        shown_accesses(cleared_entries(map), cleared_entries(map).len()) == Seq::<
            PageAccess,
        >::empty(),
{
    lemma_cleared_shows_nothing(map, map.len());
}

/// A sample shows the pages by ascending number, and of a page only what
/// its entry shows: a read, and a write exactly if the entry is dirty.
pub proof fn lemma_shown_accesses(map: Seq<Option<PteBits>>, limit: nat)
    requires
        limit <= map.len() <= usize::MAX,
    ensures
        forall|i: int, j: int|
            0 <= i < j < shown_accesses(map, limit).len() ==> (#[trigger] shown_accesses(
                map,
                limit,
            )[i]).page < (#[trigger] shown_accesses(map, limit)[j]).page,
        forall|i: int|
            0 <= i < shown_accesses(map, limit).len() ==> {
                let access = #[trigger] shown_accesses(map, limit)[i];
                &&& access.page < limit
                &&& shown_access(map[access.page as int], access.page) == Some(access)
            },
        forall|page: usize|
            page < limit && shown_access(#[trigger] map[page as int], page) is Some
                ==> shown_accesses(map, limit).contains(
                shown_access(map[page as int], page)->Some_0,
            ),
    decreases limit,
{
    if limit > 0 {
        lemma_shown_accesses(map, (limit - 1) as nat);
        let before = shown_accesses(map, (limit - 1) as nat);
        let after = shown_accesses(map, limit);
        let last = (limit - 1) as usize;
        assert forall|page: usize|
            page < limit && shown_access(
                #[trigger] map[page as int],
                page,
            ) is Some implies after.contains(shown_access(map[page as int], page)->Some_0) by {
            let access = shown_access(map[page as int], page)->Some_0;
            if page < last {
                assert(before.contains(access));
                let i = choose|i: int| 0 <= i < before.len() && before[i] == access;
                assert(after[i] == access);
            } else {
                assert(after[after.len() - 1] == access);
            }
        }
    }
}

} // verus!
