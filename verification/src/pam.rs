//! Mirror of the page-access map that an instrumented enclave keeps.
//!
//! The enclave stamps a counter into one slot per page whenever the page is
//! used, and bumps a global counter afterwards.  The mirror follows both and
//! keeps the pages that were used most recently: the working set that the
//! mitigation prefetches after every interruption.

use vstd::prelude::*;
use crate::page_access::PageAccess;

verus! {

/// What a [`PAM`] holds.
#[verifier::ext_equal]
pub struct PamView {
    /// One counter per page, as last read from the enclave.
    pub buffer: Seq<u64>,
    /// The working set; a slot with page 0 is empty.
    pub active: Seq<PageAccess>,
    /// The global counter as of the last update that found a recent page.
    pub counter: u64,
}

/// Whether a page counter was stamped at most one tick before `new_counter`.
pub open spec fn is_recent(value: u64, new_counter: u64) -> bool {
    value > 0 && value >= new_counter - 1
}

/// The counter by which a slot of the working set is ranked: that of its
/// page, and zero for an empty slot.
pub open spec fn slot_rank(slot: PageAccess, buffer: Seq<u64>) -> u64 {
    if slot.page == 0 {
        0
    } else {
        buffer[slot.page as int]
    }
}

/// Whether some slot of the working set names `page`.
pub open spec fn holds_page(active: Seq<PageAccess>, page: usize) -> bool {
    exists|i: int| 0 <= i < active.len() && (#[trigger] active[i]).page == page
}

/// Whether slot `v` is the one to evict: the first among the slots of least
/// rank.
pub open spec fn is_victim(active: Seq<PageAccess>, buffer: Seq<u64>, v: int) -> bool {
    &&& 0 <= v < active.len()
    &&& forall|j: int|
        0 <= j < active.len() ==> slot_rank(active[v], buffer) <= slot_rank(
            #[trigger] active[j],
            buffer,
        )
    &&& forall|j: int|
        0 <= j < v ==> slot_rank(active[v], buffer) < slot_rank(#[trigger] active[j], buffer)
}

/// The slot to evict from a working set that has one.
pub open spec fn victim_slot(active: Seq<PageAccess>, buffer: Seq<u64>) -> int
    decreases active.len(),
{
    if active.len() <= 1 {
        0
    } else {
        let before = victim_slot(active.drop_last(), buffer);
        if slot_rank(active.last(), buffer) < slot_rank(active[before], buffer) {
            active.len() - 1
        } else {
            before
        }
    }
}

/// The working set after one recently used page: unchanged when the page is
/// held already or there is no slot at all, else with the victim replaced
/// by full access to the page.
pub open spec fn promote_page(active: Seq<PageAccess>, buffer: Seq<u64>, page: usize) -> Seq<
    PageAccess,
> {
    if holds_page(active, page) || active.len() == 0 {
        active
    } else {
        active.update(victim_slot(active, buffer), PageAccess::spec_full(page))
    }
}

/// The working set after the recently used pages below `limit` were
/// promoted in ascending order.
pub open spec fn promote_recent(
    active: Seq<PageAccess>,
    buffer: Seq<u64>,
    new_counter: u64,
    limit: nat,
) -> Seq<PageAccess>
    decreases limit,
{
    if limit == 0 {
        active
    } else {
        let before = promote_recent(active, buffer, new_counter, (limit - 1) as nat);
        if is_recent(buffer[limit - 1], new_counter) {
            promote_page(before, buffer, (limit - 1) as usize)
        } else {
            before
        }
    }
}

/// Whether some page below `limit` was used recently.
pub open spec fn any_recent(buffer: Seq<u64>, new_counter: u64, limit: nat) -> bool {
    exists|page: int| 0 <= page < limit && is_recent(#[trigger] buffer[page], new_counter)
}

/// The buffer after `counters` were read over its front.
pub open spec fn overwrite_front(buffer: Seq<u64>, counters: Seq<u64>) -> Seq<u64> {
    counters + buffer.skip(counters.len() as int)
}

/// Every slot is empty or names one of the first `pages` pages.
pub open spec fn slots_in_range(active: Seq<PageAccess>, pages: nat) -> bool {
    forall|i: int|
        0 <= i < active.len() ==> (#[trigger] active[i]).page == 0 || active[i].page < pages
}

/// The mirror after the enclave's counter was read as `new_counter` and, if
/// that differs from the mirror's, its counters as `counters`.
pub open spec fn pam_update(view: PamView, new_counter: u64, counters: Seq<u64>) -> PamView {
    if new_counter == view.counter {
        view
    } else {
        let buffer = overwrite_front(view.buffer, counters);
        PamView {
            buffer,
            active: promote_recent(view.active, buffer, new_counter, buffer.len()),
            counter: if any_recent(buffer, new_counter, buffer.len()) {
                new_counter
            } else {
                view.counter
            },
        }
    }
}

/// Whether an update met a counter that ran ahead by more than one tick
/// while no page looks recently used: the instrumentation and the mirror
/// have drifted apart.
pub open spec fn pam_drifted(view: PamView, new_counter: u64, counters: Seq<u64>) -> bool {
    let buffer = overwrite_front(view.buffer, counters);
    &&& new_counter - view.counter > 1
    &&& !any_recent(buffer, new_counter, buffer.len())
}

/// `victim_slot` is the one slot that `is_victim` describes.
pub proof fn lemma_victim_slot(active: Seq<PageAccess>, buffer: Seq<u64>)
    requires
        active.len() > 0,
    ensures
        is_victim(active, buffer, victim_slot(active, buffer)),
        forall|v: int| is_victim(active, buffer, v) ==> v == victim_slot(active, buffer),
    decreases active.len(),
{
    if active.len() > 1 {
        let front = active.drop_last();
        lemma_victim_slot(front, buffer);
        let before = victim_slot(front, buffer);
        let v = victim_slot(active, buffer);
        assert forall|j: int| 0 <= j < active.len() implies slot_rank(active[v], buffer)
            <= slot_rank(#[trigger] active[j], buffer) by {
            if j < front.len() {
                assert(front[j] == active[j]);
            }
        }
        assert forall|j: int| 0 <= j < v implies slot_rank(active[v], buffer) < slot_rank(
            #[trigger] active[j],
            buffer,
        ) by {
            assert(front[j] == active[j]);
        }
    }
    assert forall|w: int| is_victim(active, buffer, w) implies w == victim_slot(
        active,
        buffer,
    ) by {
        let v = victim_slot(active, buffer);
        if w < v {
            assert(slot_rank(active[v], buffer) < slot_rank(active[w], buffer));
            assert(slot_rank(active[w], buffer) <= slot_rank(active[v], buffer));
        } else if v < w {
            assert(slot_rank(active[w], buffer) < slot_rank(active[v], buffer));
            assert(slot_rank(active[v], buffer) <= slot_rank(active[w], buffer));
        }
    }
}

/// Whether `active` is the working set of `buffer`: it holds counted pages
/// only, none of them twice, and a counted page is left out only when every
/// slot holds a page that was counted at least as late.
pub open spec fn is_working_set(active: Seq<PageAccess>, buffer: Seq<u64>) -> bool {
    &&& slots_in_range(active, buffer.len())
    &&& forall|i: int, j: int|
        0 <= i < j < active.len() && (#[trigger] active[i]).page != 0 ==> active[i].page != (
        #[trigger] active[j]).page
    &&& forall|i: int|
        0 <= i < active.len() && (#[trigger] active[i]).page != 0 ==> buffer[active[i].page as int]
            > 0
    &&& forall|q: usize, i: int|
        0 < q < buffer.len() && buffer[q as int] > 0 && !(#[trigger] holds_page(active, q)) && 0
            <= i < active.len() ==> (#[trigger] active[i]).page != 0
            && buffer[active[i].page as int] >= buffer[q as int]
}

/// Whether the enclave, between two readings of its page counters, stamped
/// page `page` and no other: the stamp looks recent to `new_counter`, no
/// other counter has changed, and page 0, which stands for an empty slot,
/// does not look recent.
pub open spec fn one_page_stamped(
    old_buffer: Seq<u64>,
    new_buffer: Seq<u64>,
    new_counter: u64,
    page: usize,
) -> bool {
    &&& new_buffer.len() == old_buffer.len()
    &&& 0 < page < new_buffer.len()
    &&& is_recent(new_buffer[page as int], new_counter)
    &&& !is_recent(new_buffer[0], new_counter)
    &&& forall|q: int|
        0 <= q < new_buffer.len() && q != page ==> #[trigger] new_buffer[q] == old_buffer[q]
}

/// Whether the working set can take in the stamped page `page` without
/// losing a page that looks recent: whatever else looks recent is held
/// already, and unless the stamped page is held too, some slot holds no
/// page that looks recent.
pub open spec fn recent_pages_fit(
    active: Seq<PageAccess>,
    buffer: Seq<u64>,
    new_counter: u64,
    page: usize,
) -> bool {
    &&& forall|q: usize|
        q < buffer.len() && q != page && is_recent(buffer[q as int], new_counter)
            ==> #[trigger] holds_page(active, q)
    &&& holds_page(active, page) || active.len() == 0 || exists|i: int|
        0 <= i < active.len() && !is_recent(slot_rank(#[trigger] active[i], buffer), new_counter)
}

/// One reading of the enclave: its global counter, then all its page
/// counters.
pub struct PamReading {
    pub counter: u64,
    pub buffer: Seq<u64>,
}

/// The mirror after a series of readings, the earliest first.
pub open spec fn pam_run(view: PamView, readings: Seq<PamReading>) -> PamView
    decreases readings.len(),
{
    if readings.len() == 0 {
        view
    } else {
        pam_update(
            pam_run(view, readings.drop_last()),
            readings.last().counter,
            readings.last().buffer,
        )
    }
}

/// What the mirror has read when reading `t` arrives: the reading before
/// it, and for the first reading what `view` holds.
pub open spec fn reading_before(view: PamView, readings: Seq<PamReading>, t: int) -> PamReading {
    if t == 0 {
        PamReading { counter: view.counter, buffer: view.buffer }
    } else {
        readings[t - 1]
    }
}

/// Whether reading `t` differs from what was read before it by a new
/// counter and a stamp on page `pages[t]`, while nothing else looks recent
/// but, at most, the page stamped just before, for which the working set
/// then has a second slot.
pub open spec fn stamped_since(
    view: PamView,
    readings: Seq<PamReading>,
    pages: Seq<usize>,
    t: int,
) -> bool {
    let before = reading_before(view, readings, t);
    &&& readings[t].counter != before.counter
    &&& one_page_stamped(before.buffer, readings[t].buffer, readings[t].counter, pages[t])
    &&& forall|q: usize|
        q < readings[t].buffer.len() && q != pages[t] && is_recent(
            #[trigger] readings[t].buffer[q as int],
            readings[t].counter,
        ) ==> t > 0 && q == pages[t - 1] && view.active.len() >= 2
}

/// Whether every reading differs from the one before it by a new counter
/// and one stamp, on the pages of `pages` in turn, while nothing but the
/// last two stamps looks recent.
pub open spec fn one_stamp_per_reading(
    view: PamView,
    readings: Seq<PamReading>,
    pages: Seq<usize>,
) -> bool {
    &&& pages.len() == readings.len()
    &&& forall|t: int|
        0 <= t < readings.len() ==> #[trigger] stamped_since(view, readings, pages, t)
}

/// A new mirror holds the working set of its buffer: nothing was counted
/// and nothing is held.
pub proof fn lemma_new_is_working_set(pam_size: nat, pws_size: nat)
    ensures
        is_working_set(
            Seq::new(pws_size, |i: int| PageAccess::spec_default()),
            Seq::new(pam_size, |i: int| 0u64),
        ),
{
}

/// Promoting a page changes the slot of the victim at most, and the page
/// is held afterwards if there is a slot at all.
pub proof fn lemma_promote_page(active: Seq<PageAccess>, buffer: Seq<u64>, page: usize)
    ensures
        promote_page(active, buffer, page).len() == active.len(),
        active.len() > 0 ==> holds_page(promote_page(active, buffer, page), page),
        forall|i: int|
            0 <= i < active.len() && (holds_page(active, page) || i != victim_slot(
                active,
                buffer,
            )) ==> #[trigger] promote_page(active, buffer, page)[i] == active[i],
{
    if active.len() > 0 {
        lemma_victim_slot(active, buffer);
        if !holds_page(active, page) {
            let after = promote_page(active, buffer, page);
            assert(after[victim_slot(active, buffer)].page == page);
        }
    }
}

/// When every recently used page but one is held before that one is
/// promoted and after it, an update promotes that page and nothing else.
pub proof fn lemma_promote_recent_one_page(
    active: Seq<PageAccess>,
    buffer: Seq<u64>,
    new_counter: u64,
    page: usize,
    limit: nat,
)
    requires
        page < buffer.len(),
        limit <= buffer.len() <= usize::MAX,
        is_recent(buffer[page as int], new_counter),
        forall|q: usize|
            q < buffer.len() && q != page && is_recent(buffer[q as int], new_counter) ==> (
            #[trigger] holds_page(active, q)) && holds_page(
                promote_page(active, buffer, page),
                q,
            ),
    ensures
        promote_recent(active, buffer, new_counter, limit) == if limit <= page {
            active
        } else {
            promote_page(active, buffer, page)
        },
    decreases limit,
{
    if limit > 0 {
        lemma_promote_recent_one_page(active, buffer, new_counter, page, (limit - 1) as nat);
        let q = (limit - 1) as usize;
        if q != page && is_recent(buffer[q as int], new_counter) {
            assert(holds_page(active, q));
            assert(holds_page(promote_page(active, buffer, page), q));
        }
    }
}

/// Two slots are room enough when at most one page besides the stamped one
/// looks recent and is held: the other slot holds no recent page.
pub proof fn lemma_second_slot_fits(
    active: Seq<PageAccess>,
    old_buffer: Seq<u64>,
    new_buffer: Seq<u64>,
    new_counter: u64,
    page: usize,
    other: usize,
)
    requires
        is_working_set(active, old_buffer),
        one_page_stamped(old_buffer, new_buffer, new_counter, page),
        forall|q: usize|
            q < new_buffer.len() && q != page && is_recent(
                #[trigger] new_buffer[q as int],
                new_counter,
            ) ==> q == other && holds_page(active, other) && active.len() >= 2,
    ensures
        recent_pages_fit(active, new_buffer, new_counter, page),
{
    assert forall|q: usize|
        q < new_buffer.len() && q != page && is_recent(
            new_buffer[q as int],
            new_counter,
        ) implies #[trigger] holds_page(active, q) by {}
    if !holds_page(active, page) && active.len() > 0 {
        // A slot that does not hold the other recent page holds no recent
        // page at all.
        let spare = if other < new_buffer.len() && other != page && is_recent(
            new_buffer[other as int],
            new_counter,
        ) {
            let k = choose|k: int| 0 <= k < active.len() && (#[trigger] active[k]).page == other;
            let j = if k == 0 {
                1int
            } else {
                0int
            };
            if k == 0 {
                assert(active[k].page != active[j].page);
            } else {
                assert(active[j].page != 0 ==> active[j].page != active[k].page);
            }
            j
        } else {
            0int
        };
        let held = active[spare].page;
        assert(held != page);
        if held != 0 {
            assert(held < new_buffer.len());
            assert(!is_recent(new_buffer[held as int], new_counter));
        }
        assert(!is_recent(slot_rank(active[spare], new_buffer), new_counter));
    }
}

/// Promoting the page that was stamped since the last reading turns the
/// working set of the old counters into that of the new ones, provided
/// that the pages that look recent fit: the page is held afterwards, and
/// nothing else is promoted.
pub proof fn lemma_update_keeps_working_set(
    active: Seq<PageAccess>,
    old_buffer: Seq<u64>,
    new_buffer: Seq<u64>,
    new_counter: u64,
    page: usize,
)
    requires
        is_working_set(active, old_buffer),
        new_buffer.len() <= usize::MAX,
        one_page_stamped(old_buffer, new_buffer, new_counter, page),
        recent_pages_fit(active, new_buffer, new_counter, page),
    ensures
        promote_recent(active, new_buffer, new_counter, new_buffer.len()) == promote_page(
            active,
            new_buffer,
            page,
        ),
        is_working_set(promote_page(active, new_buffer, page), new_buffer),
        promote_page(active, new_buffer, page).len() == active.len(),
        active.len() > 0 ==> holds_page(promote_page(active, new_buffer, page), page),
{
    lemma_promote_page(active, new_buffer, page);
    let after = promote_page(active, new_buffer, page);
    // A counted page that is not held does not look recent, so the stamped
    // page outranks it.
    assert forall|q: usize|
        0 < q < new_buffer.len() && q != page && new_buffer[q as int] > 0 && !holds_page(
            active,
            q,
        ) implies #[trigger] new_buffer[q as int] <= new_buffer[page as int] && old_buffer[q as int]
        == new_buffer[q as int] by {
        assert(!is_recent(new_buffer[q as int], new_counter));
    }
    if holds_page(active, page) || active.len() == 0 {
        assert(after == active);
        assert forall|q: usize|
            q < new_buffer.len() && q != page && is_recent(
                new_buffer[q as int],
                new_counter,
            ) implies (#[trigger] holds_page(active, q)) && holds_page(after, q) by {}
        assert forall|q: usize, i: int|
            0 < q < new_buffer.len() && new_buffer[q as int] > 0 && !(#[trigger] holds_page(
                after,
                q,
            )) && 0 <= i < after.len() implies (#[trigger] after[i]).page != 0
            && new_buffer[after[i].page as int] >= new_buffer[q as int] by {
            assert(q != page);
            assert(old_buffer[q as int] > 0);
            assert(active[i].page != 0);
            assert(old_buffer[active[i].page as int] >= old_buffer[q as int]);
        }
        assert forall|i: int|
            0 <= i < after.len() && (#[trigger] after[i]).page != 0 implies new_buffer[after[
                i
            ].page as int] > 0 by {
            assert(old_buffer[active[i].page as int] > 0);
        }
    } else {
        lemma_victim_slot(active, new_buffer);
        let v = victim_slot(active, new_buffer);
        let evicted = active[v].page;
        assert(after == active.update(v, PageAccess::spec_full(page)));
        assert(after[v].page == page);
        // The victim ranks no higher than the slot without a recent page,
        // so it holds no recent page itself.
        let spare = choose|i: int|
            0 <= i < active.len() && !is_recent(
                slot_rank(#[trigger] active[i], new_buffer),
                new_counter,
            );
        assert(slot_rank(active[v], new_buffer) <= slot_rank(active[spare], new_buffer));
        assert(!is_recent(slot_rank(active[v], new_buffer), new_counter));
        assert(slot_rank(active[v], new_buffer) < new_buffer[page as int]);
        assert forall|q: usize|
            q < new_buffer.len() && q != page && is_recent(
                new_buffer[q as int],
                new_counter,
            ) implies (#[trigger] holds_page(active, q)) && holds_page(after, q) by {
            assert(holds_page(active, q));
            let k = choose|k: int| 0 <= k < active.len() && (#[trigger] active[k]).page == q;
            assert(q != 0);
            assert(slot_rank(active[k], new_buffer) == new_buffer[q as int]);
            assert(k != v);
            assert(after[k].page == q);
        }
        assert forall|i: int, j: int|
            0 <= i < j < after.len() && (#[trigger] after[i]).page != 0 implies after[i].page != (
            #[trigger] after[j]).page by {
            if i != v && j != v {
                assert(active[i].page != active[j].page);
            } else if i == v {
                assert(active[j].page != page);
            } else {
                assert(active[i].page != page);
            }
        }
        assert forall|i: int|
            0 <= i < after.len() && (#[trigger] after[i]).page != 0 implies new_buffer[after[
                i
            ].page as int] > 0 by {
            if i != v {
                assert(active[i].page != 0);
                assert(old_buffer[active[i].page as int] > 0);
            }
        }
        assert forall|q: usize, i: int|
            0 < q < new_buffer.len() && new_buffer[q as int] > 0 && !(#[trigger] holds_page(
                after,
                q,
            )) && 0 <= i < after.len() implies (#[trigger] after[i]).page != 0
            && new_buffer[after[i].page as int] >= new_buffer[q as int] by {
            assert(q != page);
            if q == evicted {
                // The evicted page had the least rank of all slots, and it
                // was not an empty one.
                assert(slot_rank(active[v], new_buffer) == new_buffer[q as int]);
                if i != v {
                    assert(slot_rank(active[v], new_buffer) <= slot_rank(active[i], new_buffer));
                }
            } else {
                // The page was left out before, for the same reason.
                if holds_page(active, q) {
                    let k = choose|k: int|
                        0 <= k < active.len() && (#[trigger] active[k]).page == q;
                    assert(k != v);
                    assert(after[k].page == q);
                    assert(false);
                }
                assert(old_buffer[q as int] > 0);
                assert(active[i].page != 0);
                assert(old_buffer[active[i].page as int] >= old_buffer[q as int]);
            }
        }
    }
    lemma_promote_recent_one_page(active, new_buffer, new_counter, page, new_buffer.len());
}

/// After any number of readings, each of which shows a new counter and one
/// stamp while nothing but the last two stamps looks recent, the mirror
/// holds the last reading and its working set, with the page that was
/// stamped last.
pub proof fn lemma_run_keeps_working_set(
    view: PamView,
    readings: Seq<PamReading>,
    pages: Seq<usize>,
)
    requires
        is_working_set(view.active, view.buffer),
        view.buffer.len() <= usize::MAX,
        one_stamp_per_reading(view, readings, pages),
    ensures
        is_working_set(pam_run(view, readings).active, pam_run(view, readings).buffer),
        pam_run(view, readings).active.len() == view.active.len(),
        pam_run(view, readings).buffer.len() == view.buffer.len(),
        readings.len() > 0 ==> pam_run(view, readings).buffer == readings.last().buffer
            && pam_run(view, readings).counter == readings.last().counter,
        readings.len() > 0 && view.active.len() > 0 ==> holds_page(
            pam_run(view, readings).active,
            pages.last(),
        ),
    decreases readings.len(),
{
    if readings.len() > 0 {
        let earlier = readings.drop_last();
        let earlier_pages = pages.drop_last();
        assert forall|t: int| 0 <= t < earlier.len() implies #[trigger] stamped_since(
            view,
            earlier,
            earlier_pages,
            t,
        ) by {
            assert(stamped_since(view, readings, pages, t));
            assert(earlier[t] == readings[t]);
            assert(earlier_pages[t] == pages[t]);
            if t > 0 {
                assert(earlier[t - 1] == readings[t - 1]);
                assert(earlier_pages[t - 1] == pages[t - 1]);
            }
            assert(reading_before(view, earlier, t) == reading_before(view, readings, t));
        }
        lemma_run_keeps_working_set(view, earlier, earlier_pages);
        let mid = pam_run(view, earlier);
        let t = readings.len() - 1;
        let last = readings[t];
        let page = pages[t];
        let before = reading_before(view, readings, t);
        assert(stamped_since(view, readings, pages, t));
        assert(mid.buffer == before.buffer && mid.counter == before.counter) by {
            if t > 0 {
                assert(earlier.last() == readings[t - 1]);
            }
        }
        let other = if t > 0 {
            pages[t - 1]
        } else {
            page
        };
        if t > 0 {
            assert(earlier_pages.last() == pages[t - 1]);
        }
        lemma_second_slot_fits(mid.active, mid.buffer, last.buffer, last.counter, page, other);
        assert(overwrite_front(mid.buffer, last.buffer) =~= last.buffer);
        lemma_update_keeps_working_set(mid.active, mid.buffer, last.buffer, last.counter, page);
        assert(any_recent(last.buffer, last.counter, last.buffer.len())) by {
            assert(is_recent(last.buffer[page as int], last.counter));
        }
        assert(last == readings.last());
        assert(page == pages.last());
    }
}

/// The page counters of an enclave that started with all of them zero and
/// then used the pages of `pages` in turn: at every use the global counter
/// goes up by one, and the page is stamped with the new counter.
pub open spec fn stamped_buffer(pam_size: nat, pages: Seq<usize>) -> Seq<u64>
    decreases pages.len(),
{
    if pages.len() == 0 {
        Seq::new(pam_size, |i: int| 0u64)
    } else {
        stamped_buffer(pam_size, pages.drop_last()).update(
            pages.last() as int,
            pages.len() as u64,
        )
    }
}

/// What a mirror reads of such an enclave when it reads after every use of
/// a page.
pub open spec fn stamped_readings(pam_size: nat, pages: Seq<usize>) -> Seq<PamReading> {
    Seq::new(
        pages.len(),
        |t: int|
            PamReading {
                counter: (t + 1) as u64,
                buffer: stamped_buffer(pam_size, pages.take(t + 1)),
            },
    )
}

/// The stamps of such an enclave: no counter is above the global one, and
/// only the page used last carries it.
pub proof fn lemma_stamped_buffer(pam_size: nat, pages: Seq<usize>)
    requires
        pages.len() <= u64::MAX,
        forall|t: int| 0 <= t < pages.len() ==> 0 < #[trigger] pages[t] < pam_size,
    ensures
        stamped_buffer(pam_size, pages).len() == pam_size,
        pam_size > 0 ==> stamped_buffer(pam_size, pages)[0] == 0,
        forall|q: int|
            0 <= q < pam_size ==> #[trigger] stamped_buffer(pam_size, pages)[q] <= pages.len(),
        forall|q: int|
            0 <= q < pam_size && #[trigger] stamped_buffer(pam_size, pages)[q] == pages.len()
                && pages.len() > 0 ==> q == pages.last(),
        pages.len() > 0 ==> stamped_buffer(pam_size, pages)[pages.last() as int] == pages.len(),
        pages.len() > 0 ==> forall|q: int|
            0 <= q < pam_size && q != pages.last() ==> #[trigger] stamped_buffer(pam_size, pages)[q]
                == stamped_buffer(pam_size, pages.drop_last())[q],
    decreases pages.len(),
{
    if pages.len() > 0 {
        let earlier = pages.drop_last();
        assert forall|t: int| 0 <= t < earlier.len() implies 0 < #[trigger] earlier[t]
            < pam_size by {
            assert(earlier[t] == pages[t]);
        }
        lemma_stamped_buffer(pam_size, earlier);
        assert(0 < pages[pages.len() - 1] < pam_size);
    }
}

/// Convergence.  A mirror with at least two slots that reads an enclave
/// after every use of a page holds the working set of the enclave's
/// counters: the pages that were used last, as many as there are slots.
pub proof fn lemma_mirror_converges(pam_size: nat, pws_size: nat, pages: Seq<usize>)
    requires
        pws_size >= 2,
        pam_size <= usize::MAX,
        pages.len() <= u64::MAX,
        forall|t: int| 0 <= t < pages.len() ==> 0 < #[trigger] pages[t] < pam_size,
    ensures
        ({
            let start = PamView {
                buffer: Seq::new(pam_size, |i: int| 0u64),
                active: Seq::new(pws_size, |i: int| PageAccess::spec_default()),
                counter: 0,
            };
            let mirror = pam_run(start, stamped_readings(pam_size, pages));
            &&& mirror.buffer == stamped_buffer(pam_size, pages)
            &&& mirror.counter == pages.len()
            &&& mirror.active.len() == pws_size
            &&& is_working_set(mirror.active, mirror.buffer)
            &&& pages.len() > 0 ==> holds_page(mirror.active, pages.last())
        }),
{
    let start = PamView {
        buffer: Seq::new(pam_size, |i: int| 0u64),
        active: Seq::new(pws_size, |i: int| PageAccess::spec_default()),
        counter: 0,
    };
    let readings = stamped_readings(pam_size, pages);
    lemma_new_is_working_set(pam_size, pws_size);
    assert forall|t: int| 0 <= t < readings.len() implies #[trigger] stamped_since(
        start,
        readings,
        pages,
        t,
    ) by {
        let used = pages.take(t + 1);
        assert forall|u: int| 0 <= u < used.len() implies 0 < #[trigger] used[u] < pam_size by {
            assert(used[u] == pages[u]);
        }
        lemma_stamped_buffer(pam_size, used);
        assert(used.last() == pages[t]);
        assert(used.drop_last() =~= pages.take(t));
        let before = reading_before(start, readings, t);
        assert(before.buffer == stamped_buffer(pam_size, pages.take(t))) by {
            if t == 0 {
                assert(pages.take(0) =~= Seq::<usize>::empty());
            }
        }
        let earlier = pages.take(t);
        assert forall|u: int| 0 <= u < earlier.len() implies 0 < #[trigger] earlier[u]
            < pam_size by {
            assert(earlier[u] == pages[u]);
        }
        lemma_stamped_buffer(pam_size, earlier);
        let now = readings[t].buffer;
        assert(now == stamped_buffer(pam_size, used));
        assert(now.len() == before.buffer.len());
        assert(0 < pages[t] < now.len());
        assert(readings[t].counter == t + 1);
        assert(before.counter == t);
        assert(now[pages[t] as int] == t + 1);
        assert(is_recent(now[pages[t] as int], readings[t].counter));
        assert(now[0] == 0);
        assert forall|q: int| 0 <= q < now.len() && q != pages[t] implies #[trigger] now[q]
            == before.buffer[q] by {
            assert(stamped_buffer(pam_size, used)[q] == stamped_buffer(
                pam_size,
                used.drop_last(),
            )[q]);
        }
        assert(one_page_stamped(before.buffer, now, readings[t].counter, pages[t]));
        assert forall|q: usize|
            q < now.len() && q != pages[t] && is_recent(
                #[trigger] now[q as int],
                readings[t].counter,
            ) implies t > 0 && q == pages[t - 1] && start.active.len() >= 2 by {
            // What else looks recent carries the counter of the use
            // before, which only the page of that use does.
            assert(now[q as int] == stamped_buffer(pam_size, earlier)[q as int]);
            assert(stamped_buffer(pam_size, earlier)[q as int] == t);
            assert(earlier.last() == pages[t - 1]);
        }
    }
    lemma_run_keeps_working_set(start, readings, pages);
    if pages.len() > 0 {
        assert(pages.take(pages.len() as int) =~= pages);
    }
}

/// Mirror of the enclave's page-access map, with the working set of the
/// `pws_size` most recently used pages.
pub struct PAM {
    pam_buffer: Vec<u64>,
    pam_active: Vec<PageAccess>,
    pam_counter: u64,
}

impl View for PAM {
    type V = PamView;

    closed spec fn view(&self) -> PamView {
        PamView { buffer: self.pam_buffer@, active: self.pam_active@, counter: self.pam_counter }
    }
}

impl PAM {
    /// Every slot of the working set is empty or names a page of the buffer.
    pub open spec fn wf(&self) -> bool {
        slots_in_range(self@.active, self@.buffer.len())
    }

    /// A mirror of `pam_size` page counters, all zero, with `pws_size` empty
    /// slots in its working set.
    pub fn new(pam_size: usize, pws_size: usize) -> (result: Self)
        ensures
            result.wf(),
            result@.counter == 0,
            result@.buffer == Seq::new(pam_size as nat, |i: int| 0u64),
            result@.active == Seq::new(pws_size as nat, |i: int| PageAccess::spec_default()),
    {
        let mut pam_buffer: Vec<u64> = Vec::new();
        let mut i: usize = 0;
        while i < pam_size
            invariant
                i <= pam_size,
                pam_buffer@ == Seq::new(i as nat, |i: int| 0u64),
            decreases pam_size - i,
        {
            pam_buffer.push(0);
            i += 1;
            assert(pam_buffer@ =~= Seq::new(i as nat, |i: int| 0u64));
        }
        let mut pam_active: Vec<PageAccess> = Vec::new();
        let mut j: usize = 0;
        while j < pws_size
            invariant
                j <= pws_size,
                pam_active@ == Seq::new(j as nat, |i: int| PageAccess::spec_default()),
            decreases pws_size - j,
        {
            pam_active.push(PageAccess::default());
            j += 1;
            assert(pam_active@ =~= Seq::new(j as nat, |i: int| PageAccess::spec_default()));
        }
        PAM { pam_buffer, pam_active, pam_counter: 0 }
    }

    /// The working set, one entry per slot.
    pub fn get_pam(&self) -> (result: &Vec<PageAccess>)
        ensures
            result@ == self@.active,
    {
        &self.pam_active
    }

    /// The page counters as last read.
    pub fn buffer(&self) -> (result: &Vec<u64>)
        ensures
            result@ == self@.buffer,
    {
        &self.pam_buffer
    }

    /// The global counter as of the last update that found a recent page.
    pub fn counter(&self) -> (result: u64)
        ensures
            result == self@.counter,
    {
        self.pam_counter
    }

    /// Whether a counter read from the enclave differs from the mirror's, so
    /// that the page counters have to be read as well.
    pub fn counter_changed(&self, new_counter: u64) -> (result: bool)
        ensures
            result == (new_counter != self@.counter),
    {
        self.pam_counter != new_counter
    }

    fn holds(&self, page: usize) -> (result: bool)
        ensures
            result == holds_page(self@.active, page),
    {
        let mut i: usize = 0;
        while i < self.pam_active.len()
            invariant
                i <= self.pam_active@.len(),
                forall|j: int| 0 <= j < i ==> (#[trigger] self.pam_active@[j]).page != page,
            decreases self.pam_active@.len() - i,
        {
            if self.pam_active[i].page == page {
                return true;
            }
            i += 1;
        }
        false
    }

    fn rank(&self, slot: usize) -> (result: u64)
        requires
            self.wf(),
            slot < self@.active.len(),
        ensures
            result == slot_rank(self@.active[slot as int], self@.buffer),
    {
        let page = self.pam_active[slot].page;
        if page == 0 {
            0
        } else {
            self.pam_buffer[page]
        }
    }

    /// The least recently used slot according to the page counters.
    fn victim(&self) -> (result: Option<usize>)
        requires
            self.wf(),
        ensures
            self@.active.len() == 0 ==> result is None,
            self@.active.len() > 0 ==> (result matches Some(slot) && slot == victim_slot(
                self@.active,
                self@.buffer,
            )),
    {
        if self.pam_active.len() == 0 {
            return None;
        }
        let mut best: usize = 0;
        let mut best_rank = self.rank(0);
        let mut i: usize = 1;
        assert(self.pam_active@.take(1).len() == 1);
        while i < self.pam_active.len()
            invariant
                self.wf(),
                1 <= i <= self.pam_active@.len(),
                best < i,
                best == victim_slot(self.pam_active@.take(i as int), self.pam_buffer@),
                best_rank == slot_rank(self.pam_active@[best as int], self.pam_buffer@),
            decreases self.pam_active@.len() - i,
        {
            let rank = self.rank(i);
            proof {
                let next = self.pam_active@.take(i + 1);
                assert(next.drop_last() == self.pam_active@.take(i as int));
                assert(next.last() == self.pam_active@[i as int]);
                assert(next[best as int] == self.pam_active@[best as int]);
            }
            if rank < best_rank {
                best = i;
                best_rank = rank;
            }
            i += 1;
        }
        assert(self.pam_active@.take(i as int) == self.pam_active@);
        Some(best)
    }

    /// Brings the mirror up to date with what was read from the enclave:
    /// its global counter and, over the front of the buffer, its page
    /// counters.
    ///
    /// Nothing changes when the counter is the one the mirror has.
    /// Otherwise every recently used page that the working set does not
    /// hold replaces the least recently used slot, in ascending order of
    /// pages.  The result tells whether the counter ran ahead by more than
    /// one tick without any page looking recent.
    pub fn update_pam(&mut self, new_counter: u64, counters: &[u64]) -> (drifted: bool)
        requires
            old(self).wf(),
            counters@.len() <= old(self)@.buffer.len(),
        ensures
            final(self).wf(),
            final(self)@ == pam_update(old(self)@, new_counter, counters@),
            drifted == (new_counter != old(self)@.counter && pam_drifted(
                old(self)@,
                new_counter,
                counters@,
            )),
    {
        let old_counter = self.pam_counter;
        if old_counter == new_counter {
            return false;
        }
        let ghost target = overwrite_front(self.pam_buffer@, counters@);
        let mut i: usize = 0;
        while i < counters.len()
            invariant
                i <= counters@.len() <= self.pam_buffer@.len(),
                self.pam_buffer@.len() == old(self).pam_buffer@.len(),
                self.pam_active == old(self).pam_active,
                self.pam_counter == old(self).pam_counter,
                target == overwrite_front(old(self).pam_buffer@, counters@),
                forall|j: int| 0 <= j < i ==> self.pam_buffer@[j] == counters@[j],
                forall|j: int|
                    i <= j < self.pam_buffer@.len() ==> self.pam_buffer@[j] == old(
                        self,
                    ).pam_buffer@[j],
            decreases counters@.len() - i,
        {
            self.pam_buffer.set(i, counters[i]);
            i += 1;
        }
        assert(self.pam_buffer@ =~= target);

        let mut found = false;
        let mut page: usize = 0;
        while page < self.pam_buffer.len()
            invariant
                self.wf(),
                page <= self.pam_buffer@.len(),
                self.pam_buffer@ == target,
                old_counter == old(self).pam_counter,
                old_counter != new_counter,
                self.pam_active@ == promote_recent(
                    old(self).pam_active@,
                    target,
                    new_counter,
                    page as nat,
                ),
                found == any_recent(target, new_counter, page as nat),
                self.pam_counter == if found {
                    new_counter
                } else {
                    old_counter
                },
            decreases self.pam_buffer@.len() - page,
        {
            let value = self.pam_buffer[page];
            let ghost before = self.pam_active@;
            assert(promote_recent(old(self).pam_active@, target, new_counter, (page + 1) as nat)
                == if is_recent(target[page as int], new_counter) {
                promote_page(before, target, page)
            } else {
                before
            });
            // Only promote this page if it was used recently.
            let recent = (new_counter == 0 || value >= new_counter - 1) && value > 0;
            assert(recent == is_recent(target[page as int], new_counter));
            if recent {
                self.pam_counter = new_counter;
                found = true;
                // Only promote it if the working set does not hold it already.
                if !self.holds(page) {
                    // The slot that was used least recently makes room.
                    if let Some(index) = self.victim() {
                        proof {
                            lemma_victim_slot(before, target);
                        }
                        // The page counters do not tell how a page was
                        // used, so the slot gets every permission.
                        self.pam_active.set(index, PageAccess::full(page));
                        assert(self.pam_active@ == before.update(
                            victim_slot(before, target),
                            PageAccess::spec_full(page),
                        ));
                    }
                }
                assert(self.pam_active@ == promote_page(before, target, page));
            }
            proof {
                if !found {
                    assert forall|p: int| 0 <= p < page + 1 implies !is_recent(
                        #[trigger] target[p],
                        new_counter,
                    ) by {
                        if p < page {
                            assert(!any_recent(target, new_counter, page as nat));
                        }
                    }
                }
            }
            page += 1;
        }
        !found && new_counter > old_counter && new_counter - old_counter > 1
    }
}

} // verus!
