//! Replay of a recorded page-access trace through the JPEG state machine,
//! and the laws that every replay obeys.

use vstd::prelude::*;
use crate::jpeg_state::JpegState;
use crate::reconstruct::{JpegReconstruct, ReconstructView};

verus! {

/// Number of pages for which a trace may hold a wire.
pub const TRACE_PAGES: usize = 9999;

/// The value that a wire of a trace changes to.
#[derive(Debug, Clone, Copy, PartialEq, Eq, Structural)]
pub enum ScalarValue {
    /// The wire is low.
    V0,
    /// The wire is high.
    V1,
    /// The level of the wire is not known.
    X,
    /// The wire is not driven.
    Z,
}

/// One command of a recorded trace, as far as the attack reads it.
#[derive(Debug, Clone, Copy, PartialEq, Eq, Structural)]
pub enum TraceCommand {
    /// A one-bit wire changed to `value`; `page` is the page that the wire
    /// stands for, if it stands for one.
    ChangeScalar { page: Option<usize>, value: ScalarValue },
    /// Any other command.
    Other,
}

impl TraceCommand {
    /// The page that the command reports an access to: the page of a wire
    /// that goes high.
    pub open spec fn spec_accessed_page(self) -> Option<usize> {
        match self {
            TraceCommand::ChangeScalar { page: Some(page), value: ScalarValue::V1 } => Some(page),
            _ => None,
        }
    }

    /// The page that the command reports an access to, if any.
    pub fn accessed_page(self) -> (result: Option<usize>)
        ensures
            result == self.spec_accessed_page(),
    {
        match self {
            TraceCommand::ChangeScalar { page, value } => {
                if value == ScalarValue::V1 {
                    page
                } else {
                    None
                }
            },
            TraceCommand::Other => None,
        }
    }
}

/// The pages that a series of commands reports accesses to, in order.
pub open spec fn accessed_pages(commands: Seq<TraceCommand>) -> Seq<usize>
    decreases commands.len(),
{
    if commands.len() == 0 {
        Seq::empty()
    } else {
        let before = accessed_pages(commands.drop_last());
        match commands.last().spec_accessed_page() {
            Some(page) => before.push(page),
            None => before,
        }
    }
}

/// State of a replay: where the state machine stands and what has been
/// reconstructed.
#[verifier::ext_equal]
pub struct ReplayView {
    pub state: JpegState,
    pub image: ReconstructView,
}

impl ReplayView {
    /// The replay before the first fault.
    pub open spec fn start(num_colors: nat) -> Self {
        ReplayView { state: JpegState::PreStart, image: ReconstructView::empty(num_colors) }
    }

    /// The replay after a fault on `page`.
    pub open spec fn step(self, page: usize, has_aexnotify: bool) -> Self {
        let next = self.state.spec_next(page, has_aexnotify);
        ReplayView { state: next, image: self.image.reconstruct(self.state, next) }
    }

    /// The replay after faults on `pages`, in order.
    pub open spec fn run(self, pages: Seq<usize>, has_aexnotify: bool) -> Self
        decreases pages.len(),
    {
        if pages.len() == 0 {
            self
        } else {
            self.run(pages.drop_last(), has_aexnotify).step(pages.last(), has_aexnotify)
        }
    }
}

/// Number of data pages among `pages`.
pub open spec fn data_faults(pages: Seq<usize>, has_aexnotify: bool) -> nat
    decreases pages.len(),
{
    if pages.len() == 0 {
        0
    } else {
        data_faults(pages.drop_last(), has_aexnotify) + if JpegState::DataCount(0).entered_by(
            pages.last(),
            has_aexnotify,
        ) {
            1nat
        } else {
            0nat
        }
    }
}

/// A transition keeps the reconstruction well formed.
pub proof fn lemma_reconstruct_wf(image: ReconstructView, prev: JpegState, next: JpegState)
    requires
        image.wf(),
    ensures
        image.reconstruct(prev, next).wf(),
{
    let committed = if ReconstructView::commits(prev, next) {
        image.reconstruct_block(prev->DataCount_0)
    } else {
        image
    };
    assert(committed.wf()) by {
        if ReconstructView::commits(prev, next) {
            assert forall|c: int| 0 <= c < committed.buffer.len() implies (
            #[trigger] committed.buffer[c]).len() == committed.current_row + 1 by {
                assert(image.buffer[c].len() == image.current_row + 1);
            }
        }
    }
    if prev == JpegState::NextRow && next == JpegState::StartRow {
        assert forall|c: int| 0 <= c < committed.next_row().buffer.len() implies (
        #[trigger] committed.next_row().buffer[c]).len() == committed.next_row().current_row
            + 1 by {
            assert(committed.buffer[c].len() == committed.current_row + 1);
        }
    }
}

/// Row law: whatever the faults, every channel of the reconstruction has
/// one row more than rows are complete, and the transition from `NextRow`
/// to `StartRow` completes exactly one row.
pub proof fn lemma_row_law(start: ReplayView, pages: Seq<usize>, has_aexnotify: bool)
    requires
        start.image.wf(),
    ensures
        start.run(pages, has_aexnotify).image.wf(),
        forall|c: int|
            0 <= c < start.image.num_colors ==> (#[trigger] start.run(
                pages,
                has_aexnotify,
            ).image.buffer[c]).len() == start.run(pages, has_aexnotify).image.current_row + 1,
        pages.len() > 0 ==> ({
            let before = start.run(pages.drop_last(), has_aexnotify);
            let after = start.run(pages, has_aexnotify);
            after.image.current_row == before.image.current_row + if before.state
                == JpegState::NextRow && after.state == JpegState::StartRow {
                1nat
            } else {
                0nat
            }
        }),
        start.run(pages, has_aexnotify).image.num_colors == start.image.num_colors,
    decreases pages.len(),
{
    if pages.len() > 0 {
        lemma_row_law(start, pages.drop_last(), has_aexnotify);
        let before = start.run(pages.drop_last(), has_aexnotify);
        let after = start.run(pages, has_aexnotify);
        lemma_reconstruct_wf(before.image, before.state, after.state);
    }
}

/// Counting law: while the state machine has been counting ever since the
/// fault that followed `settled`, its count is the number of data pages
/// among the faults since then.
pub proof fn lemma_count_law(
    start: ReplayView,
    settled: Seq<usize>,
    counted: Seq<usize>,
    has_aexnotify: bool,
)
    requires
        !(start.run(settled, has_aexnotify).state is DataCount),
        forall|n: int|
            0 < n <= counted.len() ==> #[trigger] start.run(
                settled + counted.take(n),
                has_aexnotify,
            ).state is DataCount,
        0 < counted.len() <= usize::MAX,
    ensures
        start.run(settled + counted, has_aexnotify).state == JpegState::DataCount(
            data_faults(counted, has_aexnotify) as usize,
        ),
        0 < data_faults(counted, has_aexnotify) <= counted.len(),
    decreases counted.len(),
{
    let all = settled + counted;
    let front = counted.drop_last();
    assert(all.drop_last() =~= settled + front);
    assert(all.last() == counted.last());
    assert(counted.take(counted.len() as int) =~= counted);
    let before = start.run(settled + front, has_aexnotify);
    let after = start.run(all, has_aexnotify);
    assert(after.state == before.state.spec_next(counted.last(), has_aexnotify));
    assert(after.state is DataCount);
    if front.len() == 0 {
        assert(settled + front =~= settled);
        crate::jpeg_state::lemma_next_table(before.state, counted.last(), has_aexnotify);
        assert(data_faults(front, has_aexnotify) == 0);
    } else {
        assert forall|n: int| 0 < n <= front.len() implies #[trigger] start.run(
            settled + front.take(n),
            has_aexnotify,
        ).state is DataCount by {
            assert(front.take(n) =~= counted.take(n));
        }
        lemma_count_law(start, settled, front, has_aexnotify);
        crate::jpeg_state::lemma_next_table(before.state, counted.last(), has_aexnotify);
    }
}

/// Block commit law: when the state machine stops counting, the block that
/// joins the current row of the current channel holds the number of data
/// pages among the faults since it started counting.
pub proof fn lemma_block_commit_law(
    start: ReplayView,
    settled: Seq<usize>,
    counted: Seq<usize>,
    page: usize,
    has_aexnotify: bool,
)
    requires
        start.image.wf(),
        !(start.run(settled, has_aexnotify).state is DataCount),
        forall|n: int|
            0 < n <= counted.len() ==> #[trigger] start.run(
                settled + counted.take(n),
                has_aexnotify,
            ).state is DataCount,
        0 < counted.len() <= usize::MAX,
        !(start.run((settled + counted).push(page), has_aexnotify).state is DataCount),
    ensures
        ({
            let before = start.run(settled + counted, has_aexnotify).image;
            let after = start.run((settled + counted).push(page), has_aexnotify).image;
            let blocks = after.buffer[before.current_color as int][before.current_row as int];
            &&& after == before.reconstruct_block(data_faults(counted, has_aexnotify) as usize)
            &&& blocks == before.buffer[before.current_color as int][before.current_row
                as int].push(data_faults(counted, has_aexnotify) as usize)
        }),
{
    lemma_count_law(start, settled, counted, has_aexnotify);
    lemma_row_law(start, settled + counted, has_aexnotify);
    let all = (settled + counted).push(page);
    assert(all.drop_last() =~= settled + counted);
    assert(all.last() == page);
    let before = start.run(settled + counted, has_aexnotify);
    assert(before.image.buffer[before.image.current_color as int].len()
        == before.image.current_row + 1);
}

/// A replay that started before the first fault counts no further than the
/// number of faults.
proof fn lemma_count_bound(num_colors: nat, pages: Seq<usize>, has_aexnotify: bool)
    requires
        pages.len() <= usize::MAX,
    ensures
        ReplayView::start(num_colors).run(pages, has_aexnotify).state matches JpegState::DataCount(
            count,
        ) ==> count <= pages.len(),
    decreases pages.len(),
{
    if pages.len() > 0 {
        lemma_count_bound(num_colors, pages.drop_last(), has_aexnotify);
        let before = ReplayView::start(num_colors).run(pages.drop_last(), has_aexnotify);
        crate::jpeg_state::lemma_next_table(before.state, pages.last(), has_aexnotify);
    }
}

/// What the number of colour channels is for a colour or a greyscale image.
pub open spec fn channels(color: bool) -> nat {
    if color {
        3
    } else {
        1
    }
}

/// A replay in progress.
pub struct TraceAttack {
    state: JpegState,
    reconstruct: JpegReconstruct,
    has_aexnotify: bool,
}

impl View for TraceAttack {
    type V = ReplayView;

    closed spec fn view(&self) -> ReplayView {
        ReplayView { state: self.state, image: self.reconstruct@ }
    }
}

impl TraceAttack {
    /// Whether the enclave of the trace used AEX-Notify.
    pub closed spec fn has_aexnotify(&self) -> bool {
        self.has_aexnotify
    }

    /// The reconstruction is well formed.
    pub open spec fn wf(&self) -> bool {
        self@.image.wf()
    }

    /// A replay before the first fault, for a colour image of three
    /// channels or a greyscale image of one.
    pub fn new(color: bool, has_aexnotify: bool) -> (result: Self)
        ensures
            result.wf(),
            result@ == ReplayView::start(channels(color)),
            result.has_aexnotify() == has_aexnotify,
    {
        TraceAttack {
            state: JpegState::PreStart,
            reconstruct: JpegReconstruct::new(
                if color {
                    3
                } else {
                    1
                },
            ),
            has_aexnotify,
        }
    }

    /// Where the state machine stands.
    pub fn state(&self) -> (result: JpegState)
        ensures
            result == self@.state,
    {
        self.state
    }

    /// The next command of the trace: an access to a page advances the
    /// state machine and the reconstruction, anything else is passed over.
    pub fn command(&mut self, command: TraceCommand)
        requires
            old(self).wf(),
            old(self)@.state.can_advance(),
        ensures
            final(self).wf(),
            final(self).has_aexnotify() == old(self).has_aexnotify(),
            final(self)@ == (match command.spec_accessed_page() {
                Some(page) => old(self)@.step(page, old(self).has_aexnotify()),
                None => old(self)@,
            }),
    {
        if let Some(page) = command.accessed_page() {
            let prev_state = self.state;
            let new_state = self.state.next(page, self.has_aexnotify);
            self.reconstruct.reconstruct(prev_state, new_state);
            self.state = new_state;
        }
    }

    /// Ends the replay and hands out the reconstruction.
    pub fn finish(self) -> (result: JpegReconstruct)
        ensures
            result@ == self@.image,
    {
        self.reconstruct
    }
}

/// Simulates the attack on a recorded trace: every access to a page that
/// the trace reports is a fault for the state machine.
pub fn attack_vcd(commands: &[TraceCommand], color: bool, has_aexnotify: bool) -> (result:
    JpegReconstruct)
    ensures
        result.wf(),
        result@ == ReplayView::start(channels(color)).run(
            accessed_pages(commands@),
            has_aexnotify,
        ).image,
{
    let mut attack = TraceAttack::new(color, has_aexnotify);
    let mut i: usize = 0;
    assert(commands@.take(0) =~= Seq::<TraceCommand>::empty());
    while i < commands.len()
        invariant
            i <= commands@.len(),
            attack.wf(),
            attack.has_aexnotify() == has_aexnotify,
            attack@ == ReplayView::start(channels(color)).run(
                accessed_pages(commands@.take(i as int)),
                has_aexnotify,
            ),
            accessed_pages(commands@.take(i as int)).len() <= i,
        decreases commands@.len() - i,
    {
        proof {
            lemma_count_bound(
                channels(color),
                accessed_pages(commands@.take(i as int)),
                has_aexnotify,
            );
            let next = commands@.take(i + 1);
            assert(next.drop_last() =~= commands@.take(i as int));
            assert(next.last() == commands@[i as int]);
            let pages = accessed_pages(next);
            if commands@[i as int].spec_accessed_page() is Some {
                assert(pages.drop_last() =~= accessed_pages(commands@.take(i as int)));
            }
        }
        attack.command(commands[i]);
        i += 1;
    }
    assert(commands@.take(i as int) =~= commands@);
    attack.finish()
}

} // verus!
