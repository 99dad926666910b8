//! The state machine that follows libjpeg's decompression loop through the
//! pages it faults on.

use vstd::prelude::*;
use std::ops::Range;

verus! {

/// First page of the code that starts decompression.
pub const START_PAGES_FIRST: usize = 54;
/// One past the last page of the code that starts decompression.
pub const START_PAGES_END: usize = 55;
/// First page of the code that moves on to the next row of blocks.
pub const NEXT_ROW_PAGES_FIRST: usize = 44;
/// One past the last page of the code that moves on to the next row.
pub const NEXT_ROW_PAGES_END: usize = 46;
/// First page of the code that starts a row of blocks.
pub const START_ROW_PAGES_FIRST: usize = 58;
/// One past the last page of the code that starts a row of blocks.
pub const START_ROW_PAGES_END: usize = 59;
/// First page of the code that runs just before the inverse DCT.
pub const PRE_IDCT_PAGES_FIRST: usize = 59;
/// One past the last page of the code that runs just before the inverse DCT.
pub const PRE_IDCT_PAGES_END: usize = 60;
/// First page of the inverse DCT itself.
pub const IDCT_PAGES_FIRST: usize = 63;
/// One past the last page of the inverse DCT itself.
pub const IDCT_PAGES_END: usize = 65;
/// First page of the data that the inverse DCT reads.
pub const DATA_PAGES_FIRST: usize = 150;
/// One past the last data page.
pub const DATA_PAGES_END: usize = 4340;
/// One past the last data page when the enclave uses AEX-Notify.
pub const DATA_PAGES_END_AEXNOTIFY: usize = 4335;

/// State machine used for the libjpeg attack.
///
/// Every state corresponds to a range of pages that when encountered
/// can trigger a state transition to this state, if the transition is allowed.
#[derive(Debug, Clone, Copy, PartialEq, Eq, Structural)]
pub enum JpegState {
    PreStart,
    Start,
    NextRow,
    StartRow,
    PreIdctSlow,
    StartIdctSlow,
    IdctSlow,
    /// Counting data accesses of the current block; the payload is the
    /// number of accesses seen so far.
    DataCount(usize),
}

impl Default for JpegState {
    fn default() -> (result: Self)
        ensures
            result == JpegState::PreStart,
    {
        JpegState::PreStart
    }
}

/// The first state of `states` that `page` leads into.
pub open spec fn first_entered(states: Seq<JpegState>, page: usize, has_aexnotify: bool) -> Option<
    JpegState,
>
    decreases states.len(),
{
    if states.len() == 0 {
        None
    } else if states[0].entered_by(page, has_aexnotify) {
        Some(states[0])
    } else {
        first_entered(states.drop_first(), page, has_aexnotify)
    }
}

impl JpegState {
    /// The pages that lead into this state: `start` is the first of them and
    /// `end` is one past the last.
    pub open spec fn spec_pages(self, has_aexnotify: bool) -> Range<usize> {
        match self {
            Self::Start => Range { start: START_PAGES_FIRST, end: START_PAGES_END },
            Self::NextRow => Range { start: NEXT_ROW_PAGES_FIRST, end: NEXT_ROW_PAGES_END },
            Self::StartRow => Range { start: START_ROW_PAGES_FIRST, end: START_ROW_PAGES_END },
            Self::PreIdctSlow => Range { start: PRE_IDCT_PAGES_FIRST, end: PRE_IDCT_PAGES_END },
            Self::IdctSlow => Range { start: IDCT_PAGES_FIRST, end: IDCT_PAGES_END },
            Self::DataCount(_) => Range {
                start: DATA_PAGES_FIRST,
                end: if has_aexnotify {
                    DATA_PAGES_END_AEXNOTIFY
                } else {
                    DATA_PAGES_END
                },
            },
            Self::PreStart | Self::StartIdctSlow => Range { start: 0, end: 0 },
        }
    }

    /// Whether a fault on `page` can lead into this state.
    pub open spec fn entered_by(self, page: usize, has_aexnotify: bool) -> bool {
        self.spec_pages(has_aexnotify).start <= page < self.spec_pages(has_aexnotify).end
    }

    /// The states that may follow this one, in order of preference.
    pub open spec fn spec_next_states(self) -> Seq<Self> {
        match self {
            Self::PreStart => seq![Self::Start],
            Self::Start => seq![Self::StartRow],
            Self::NextRow => seq![Self::StartRow],
            Self::StartRow => seq![Self::IdctSlow],
            Self::PreIdctSlow => seq![Self::IdctSlow, Self::NextRow],
            Self::IdctSlow => seq![Self::DataCount(1)],
            Self::DataCount(x) => seq![
                Self::DataCount((x + 1) as usize),
                Self::PreIdctSlow,
                Self::NextRow,
            ],
            Self::StartIdctSlow => seq![],
        }
    }

    /// The state after a fault on `page`: the first successor that `page`
    /// leads into, and this state when there is none.
    pub open spec fn spec_next(self, page: usize, has_aexnotify: bool) -> Self {
        match first_entered(self.spec_next_states(), page, has_aexnotify) {
            Some(state) => state,
            None => self,
        }
    }

    /// The page ranges of the successors, in the order of `spec_next_states`.
    pub open spec fn spec_next_pages(self, has_aexnotify: bool) -> Seq<Range<usize>> {
        Seq::new(
            self.spec_next_states().len(),
            |i: int| self.spec_next_states()[i].spec_pages(has_aexnotify),
        )
    }

    /// A data counter that has room for one more access.
    pub open spec fn spec_can_advance(self) -> bool {
        self matches Self::DataCount(x) ==> x < usize::MAX
    }

    /// Whether the state can take a fault: a data counter needs room for
    /// one more access.
    #[verifier::when_used_as_spec(spec_can_advance)]
    pub fn can_advance(self) -> (result: bool)
        ensures
            result == self.spec_can_advance(),
    {
        match self {
            Self::DataCount(x) => x < usize::MAX,
            _ => true,
        }
    }

    /// Whether this is a data counting state.
    pub open spec fn is_data_count(self) -> bool {
        self is DataCount
    }

    /// Defines the ranges of pages for each state.
    pub fn pages(self, has_aexnotify: bool) -> (result: Range<usize>)
        ensures
            result == self.spec_pages(has_aexnotify),
    {
        match self {
            Self::PreStart => 0..0,
            Self::Start => START_PAGES_FIRST..START_PAGES_END,
            Self::NextRow => NEXT_ROW_PAGES_FIRST..NEXT_ROW_PAGES_END,
            Self::StartRow => START_ROW_PAGES_FIRST..START_ROW_PAGES_END,
            Self::PreIdctSlow => PRE_IDCT_PAGES_FIRST..PRE_IDCT_PAGES_END,
            Self::IdctSlow => IDCT_PAGES_FIRST..IDCT_PAGES_END,
            Self::DataCount(_) => {
                if has_aexnotify {
                    DATA_PAGES_FIRST..DATA_PAGES_END_AEXNOTIFY
                } else {
                    DATA_PAGES_FIRST..DATA_PAGES_END
                }
            },
            // No transition leads into the remaining states.
            _ => 0..0,
        }
    }

    /// Defines the transitions between states.
    pub fn next_states(self) -> (result: Vec<Self>)
        requires
            self.can_advance(),
        ensures
            result@ == self.spec_next_states(),
    {
        match self {
            Self::PreStart => vec![Self::Start],
            Self::Start => vec![Self::StartRow],
            Self::NextRow => vec![Self::StartRow],
            Self::StartRow => vec![Self::IdctSlow],
            Self::PreIdctSlow => vec![Self::IdctSlow, Self::NextRow],
            Self::IdctSlow => vec![Self::DataCount(1)],
            Self::DataCount(x) => vec![Self::DataCount(x + 1), Self::PreIdctSlow, Self::NextRow],
            _ => vec![],
        }
    }

    /// Advance to the next state if we fault on the given page.
    pub fn next(self, page: usize, has_aexnotify: bool) -> (result: Self)
        requires
            self.can_advance(),
        ensures
            result == self.spec_next(page, has_aexnotify),
    {
        let states = self.next_states();
        let mut i: usize = 0;
        assert(states@.skip(0) == states@);
        while i < states.len()
            invariant
                i <= states.len(),
                states@ == self.spec_next_states(),
                first_entered(states@, page, has_aexnotify) == first_entered(
                    states@.skip(i as int),
                    page,
                    has_aexnotify,
                ),
            decreases states.len() - i,
        {
            let range = states[i].pages(has_aexnotify);
            assert(states@.skip(i as int)[0] == states@[i as int]);
            if range.start <= page && page < range.end {
                return states[i];
            }
            assert(states@.skip(i as int).drop_first() == states@.skip(i + 1));
            i += 1;
        }
        self
    }

    /// Returns the list of pages that may trigger a state transition.
    ///
    /// In other words, the ranges of pages of all potential next states
    /// reachable from the current state.  These are the pages to revoke
    /// access to while waiting for the next transition.
    pub fn next_pages(self, has_aexnotify: bool) -> (result: Vec<Range<usize>>)
        requires
            self.can_advance(),
        ensures
            result@ == self.spec_next_pages(has_aexnotify),
    {
        let states = self.next_states();
        let mut result: Vec<Range<usize>> = Vec::new();
        let mut i: usize = 0;
        while i < states.len()
            invariant
                i <= states.len(),
                states@ == self.spec_next_states(),
                result@.len() == i,
                forall|j: int|
                    0 <= j < i ==> result@[j] == (#[trigger] states@[j]).spec_pages(has_aexnotify),
            decreases states.len() - i,
        {
            result.push(states[i].pages(has_aexnotify));
            i += 1;
        }
        assert(result@ =~= self.spec_next_pages(has_aexnotify));
        result
    }
}

/// The transition table: where a fault on `page` leads from each state.
pub proof fn lemma_next_table(state: JpegState, page: usize, has_aexnotify: bool)
    requires
        state.can_advance(),
    ensures
        state.spec_next(page, has_aexnotify) == (match state {
            JpegState::PreStart => if JpegState::Start.entered_by(page, has_aexnotify) {
                JpegState::Start
            } else {
                state
            },
            JpegState::Start | JpegState::NextRow => if JpegState::StartRow.entered_by(
                page,
                has_aexnotify,
            ) {
                JpegState::StartRow
            } else {
                state
            },
            JpegState::StartRow => if JpegState::IdctSlow.entered_by(page, has_aexnotify) {
                JpegState::IdctSlow
            } else {
                state
            },
            JpegState::PreIdctSlow => if JpegState::IdctSlow.entered_by(page, has_aexnotify) {
                JpegState::IdctSlow
            } else if JpegState::NextRow.entered_by(page, has_aexnotify) {
                JpegState::NextRow
            } else {
                state
            },
            JpegState::IdctSlow => if JpegState::DataCount(1).entered_by(page, has_aexnotify) {
                JpegState::DataCount(1)
            } else {
                state
            },
            JpegState::DataCount(x) => if state.entered_by(page, has_aexnotify) {
                JpegState::DataCount((x + 1) as usize)
            } else if JpegState::PreIdctSlow.entered_by(page, has_aexnotify) {
                JpegState::PreIdctSlow
            } else if JpegState::NextRow.entered_by(page, has_aexnotify) {
                JpegState::NextRow
            } else {
                state
            },
            JpegState::StartIdctSlow => state,
        }),
{
    reveal_with_fuel(first_entered, 4);
    let successors = state.spec_next_states();
    if successors.len() >= 2 {
        assert(successors.drop_first()[0] == successors[1]);
    }
    if successors.len() >= 3 {
        assert(successors.drop_first().drop_first()[0] == successors[2]);
    }
}

/// A state is left only for one of its successors, and only by a page of
/// that successor's range.
pub proof fn lemma_next_is_successor(state: JpegState, page: usize, has_aexnotify: bool)
    requires
        state.can_advance(),
    ensures
        state.spec_next(page, has_aexnotify) != state ==> {
            &&& state.spec_next_states().contains(state.spec_next(page, has_aexnotify))
            &&& state.spec_next(page, has_aexnotify).entered_by(page, has_aexnotify)
        },
{
    lemma_next_table(state, page, has_aexnotify);
    let successors = state.spec_next_states();
    let next = state.spec_next(page, has_aexnotify);
    if next != state {
        if successors.len() >= 1 && next == successors[0] {
        } else if successors.len() >= 2 && next == successors[1] {
        } else if successors.len() >= 3 && next == successors[2] {
        }
    }
}

} // verus!
