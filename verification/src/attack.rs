//! The page-fault attack on libjpeg: what to do on every fault of the
//! enclave, which pages to take away from it and which to hand back.

use vstd::prelude::*;
use std::collections::VecDeque;
use std::ops::Range;
use crate::jpeg_state::JpegState;
use crate::reconstruct::{JpegReconstruct, ReconstructView};
use crate::replay::channels;

verus! {

/// Number of pages that an enclave with AEX-Notify keeps accessible: the
/// pages of the last faults, without which it could not make progress.
pub const WORKING_SET_PAGES: usize = 2;

/// Why the attack failed.
#[derive(Debug, Clone, Copy, PartialEq, Eq, Structural)]
pub enum AttackError {
    Unknown,
    /// Access to pages could not be revoked or restored.
    Mprotect,
}

impl AttackError {
    /// The error in words.
    pub fn to_string(&self) -> (result: String)
        ensures
            result@ == (match self {
                AttackError::Unknown => "unknown error"@,
                AttackError::Mprotect => "failed to protect memory"@,
            }),
    {
        match self {
            AttackError::Unknown => "unknown error".to_owned(),
            AttackError::Mprotect => "failed to protect memory".to_owned(),
        }
    }

    /// What the status of a request to revoke or restore pages means:
    /// zero is success, anything else a failure to protect memory.
    pub fn from_status(status: i32) -> (result: Result<(), AttackError>)
        ensures
            status == 0 <==> result is Ok,
            status != 0 <==> result == Err::<(), AttackError>(AttackError::Mprotect),
    {
        if status != 0 {
            Err(AttackError::Mprotect)
        } else {
            Ok(())
        }
    }
}

/// Size in bytes of the buffer that the enclave needs for the decompressed
/// image: three bytes per pixel and some room to spare.  `None` when the
/// size does not fit 32 bits.
pub fn output_size(width: u32, height: u32) -> (result: Option<u64>)
    ensures
        width * height * 3 + 100 <= u32::MAX ==> result == Some(
            (width * height * 3 + 100) as u64,
        ),
        width * height * 3 + 100 > u32::MAX ==> result is None,
{
    assert(width * height <= 0xffff_ffff * 0xffff_ffff) by (nonlinear_arith)
        requires
            width <= 0xffff_ffff,
            height <= 0xffff_ffff,
    ;
    let pixels = width as u64 * height as u64;
    if pixels <= (u32::MAX as u64 - 100) / 3 {
        Some(pixels * 3 + 100)
    } else {
        None
    }
}

/// Number of blocks that the reconstruction of an image will take at most:
/// one per eight pixels and one to spare in both directions, for every
/// channel of the image.  `None` when the number does not fit 32 bits.
pub fn num_blocks(width: u32, height: u32, color: bool) -> (result: Option<u32>)
    ensures
        (width / 8 + 1) * (height / 8 + 1) * channels(color) <= u32::MAX ==> result == Some(
            ((width / 8 + 1) * (height / 8 + 1) * channels(color)) as u32,
        ),
        (width / 8 + 1) * (height / 8 + 1) * channels(color) > u32::MAX ==> result is None,
{
    let across = width as u64 / 8 + 1;
    let down = height as u64 / 8 + 1;
    assert(across * down <= 0x2000_0000 * 0x2000_0000) by (nonlinear_arith)
        requires
            0 <= across <= 0x2000_0000,
            0 <= down <= 0x2000_0000,
    ;
    let gray = across * down;
    let blocks = if color {
        gray * 3
    } else {
        gray
    };
    if blocks <= u32::MAX as u64 {
        Some(blocks as u32)
    } else {
        None
    }
}

/// What a [`GlobalState`] holds.
#[verifier::ext_equal]
pub struct GlobalView {
    /// Where the state machine stands.
    pub state: JpegState,
    /// What has been reconstructed.
    pub image: ReconstructView,
    /// The pages of the last faults, the earliest first.
    pub working_set: Seq<usize>,
    /// The page of the last fault.
    pub prev_page: usize,
    /// Whether the enclave reports its progress itself.
    pub use_ocalls: bool,
    /// Whether the enclave uses AEX-Notify.
    pub has_aexnotify: bool,
    /// Number of all-zero parts reported since the last block.
    pub zero_count: usize,
    /// Whether the first row has been reported.
    pub skip_first: bool,
}

impl GlobalView {
    /// The state before the enclave runs.
    pub open spec fn start(color: bool) -> Self {
        GlobalView {
            state: JpegState::PreStart,
            image: ReconstructView::empty(channels(color)),
            working_set: Seq::empty(),
            prev_page: 0,
            use_ocalls: false,
            has_aexnotify: false,
            zero_count: 0,
            skip_first: false,
        }
    }

    /// The reconstruction is well formed and the working set within its
    /// size.
    pub open spec fn wf(self) -> bool {
        &&& self.image.wf()
        &&& self.working_set.len() <= WORKING_SET_PAGES
    }

    /// The data counter has room for the fault at hand and for the one
    /// after it.
    pub open spec fn can_fault(self) -> bool {
        self.state matches JpegState::DataCount(count) ==> count + 2 <= usize::MAX
    }

    /// The working set after a fault on `page`: the page joins it, and the
    /// earliest page leaves when that makes more than fit.
    pub open spec fn working_set_after(self, page: usize) -> Seq<usize> {
        let joined = self.working_set.push(page);
        if joined.len() > WORKING_SET_PAGES {
            joined.drop_first()
        } else {
            joined
        }
    }

    /// The state after a fault on `page`.
    pub open spec fn fault(self, page: usize) -> Self {
        let next = self.state.spec_next(page, self.has_aexnotify);
        GlobalView {
            state: next,
            image: self.image.reconstruct(self.state, next),
            working_set: if self.has_aexnotify {
                self.working_set_after(page)
            } else {
                self.working_set
            },
            prev_page: page,
            ..self
        }
    }

    /// The pages to hand back to the enclave after a fault on `page`: the
    /// page itself, and with AEX-Notify the whole working set.
    pub open spec fn restored(self, page: usize) -> Seq<usize> {
        if self.has_aexnotify {
            self.working_set_after(page)
        } else {
            seq![page]
        }
    }

    /// The state after the enclave reported the start of a row: the first
    /// report is passed over, every other one starts a row if reports are
    /// in use.
    pub open spec fn row_reported(self) -> Self {
        if !self.skip_first {
            GlobalView { skip_first: true, ..self }
        } else if self.use_ocalls {
            GlobalView { image: self.image.next_row(), ..self }
        } else {
            self
        }
    }

    /// The state after the enclave reported the end of a block: if reports
    /// are in use, the block holds the number of all-zero parts reported
    /// since the last one.
    pub open spec fn block_reported(self) -> Self {
        if self.use_ocalls {
            GlobalView {
                image: self.image.reconstruct_block(self.zero_count),
                zero_count: 0,
                ..self
            }
        } else {
            self
        }
    }

    /// The state after the enclave reported an all-zero part of a block.
    /// The count wraps around at the greatest number.
    pub open spec fn zero_reported(self) -> Self {
        GlobalView {
            zero_count: if self.zero_count == usize::MAX {
                0
            } else {
                (self.zero_count + 1) as usize
            },
            ..self
        }
    }
}

/// What the attacker does to the enclave's pages in answer to a fault.
pub struct FaultResponse {
    /// Ranges of pages to revoke access to, in this order.
    pub revoke: Vec<Range<usize>>,
    /// Pages to restore access to afterwards, in this order.
    pub restore: Vec<usize>,
}

/// Global state used when attacking an enclave.
///
/// Page faults come in asynchronously, so one record holds all that the
/// handlers share.
#[derive(Debug)]
pub struct GlobalState {
    state: JpegState,
    reconstruct: JpegReconstruct,
    working_set: VecDeque<usize>,
    prev_page: usize,
    use_ocalls: bool,
    has_aexnotify: bool,
    zero_count: usize,
    skip_first: bool,
}

impl View for GlobalState {
    type V = GlobalView;

    closed spec fn view(&self) -> GlobalView {
        GlobalView {
            state: self.state,
            image: self.reconstruct@,
            working_set: self.working_set@,
            prev_page: self.prev_page,
            use_ocalls: self.use_ocalls,
            has_aexnotify: self.has_aexnotify,
            zero_count: self.zero_count,
            skip_first: self.skip_first,
        }
    }
}

impl GlobalState {
    /// The reconstruction is well formed and the working set within its
    /// size.
    pub open spec fn wf(&self) -> bool {
        self@.wf()
    }

    /// The state before the enclave runs, for a colour or a greyscale
    /// image.
    pub fn new(color: bool) -> (result: Self)
        ensures
            result.wf(),
            result@ == GlobalView::start(color),
    {
        Self {
            state: JpegState::PreStart,
            reconstruct: JpegReconstruct::new(
                if color {
                    3
                } else {
                    1
                },
            ),
            working_set: VecDeque::new(),
            prev_page: 0,
            use_ocalls: false,
            has_aexnotify: false,
            zero_count: 0,
            skip_first: false,
        }
    }

    /// Chooses how the attack follows the enclave: by its page faults, or
    /// by the reports that an instrumented enclave makes itself.
    pub fn set_mode(&mut self, use_fault_handler: bool, has_aexnotify: bool)
        ensures
            final(self)@ == (GlobalView {
                use_ocalls: if use_fault_handler {
                    old(self)@.use_ocalls
                } else {
                    true
                },
                has_aexnotify,
                ..old(self)@
            }),
    {
        if !use_fault_handler {
            self.use_ocalls = true;
        }
        self.has_aexnotify = has_aexnotify;
    }

    /// Where the state machine stands.
    pub fn state(&self) -> (result: JpegState)
        ensures
            result == self@.state,
    {
        self.state
    }

    /// What has been reconstructed.
    pub fn reconstruct(&self) -> (result: &JpegReconstruct)
        ensures
            result@ == self@.image,
    {
        &self.reconstruct
    }

    /// Whether the enclave reports its progress itself.
    pub fn use_ocalls(&self) -> (result: bool)
        ensures
            result == self@.use_ocalls,
    {
        self.use_ocalls
    }

    /// Whether the enclave uses AEX-Notify.
    pub fn has_aexnotify(&self) -> (result: bool)
        ensures
            result == self@.has_aexnotify,
    {
        self.has_aexnotify
    }

    /// The page of the last fault.
    pub fn prev_page(&self) -> (result: usize)
        ensures
            result == self@.prev_page,
    {
        self.prev_page
    }

    /// Whether the data counter has room for the fault at hand and for the
    /// one after it.
    pub fn can_fault(&self) -> (result: bool)
        ensures
            result == self@.can_fault(),
    {
        match self.state {
            JpegState::DataCount(count) => count <= usize::MAX - 2,
            _ => true,
        }
    }

    /// The ranges of pages to revoke access to, so that the enclave faults
    /// when it moves on to any state that may follow the current one.
    pub fn protect_next_pages(&self) -> (result: Vec<Range<usize>>)
        requires
            self@.state.can_advance(),
        ensures
            result@ == self@.state.spec_next_pages(self@.has_aexnotify),
    {
        self.state.next_pages(self.has_aexnotify)
    }

    /// Page fault handler.
    ///
    /// Moves the state machine on, tells the reconstruction, and answers
    /// with the pages to revoke, those that lead out of the new state, and
    /// the pages to restore, without which the enclave could not go on.
    pub fn fault_handler(&mut self, page: usize) -> (response: FaultResponse)
        requires
            old(self).wf(),
            old(self)@.can_fault(),
        ensures
            final(self).wf(),
            final(self)@ == old(self)@.fault(page),
            final(self)@.state.can_advance(),
            response.revoke@ == final(self)@.state.spec_next_pages(old(self)@.has_aexnotify),
            response.restore@ == old(self)@.restored(page),
    {
        proof {
            crate::jpeg_state::lemma_next_table(self.state, page, self.has_aexnotify);
        }
        // Transition to the next state.
        let prev_state = self.state;
        let new_state = self.state.next(page, self.has_aexnotify);

        // Notify the reconstruction of the state transition.
        self.reconstruct.reconstruct(prev_state, new_state);
        self.state = new_state;

        // Revoke access to next pages to set up state transition triggers.
        let revoke = self.protect_next_pages();

        let mut restore: Vec<usize> = Vec::new();
        if self.has_aexnotify {
            self.working_set.push_back(page);
            if self.working_set.len() > WORKING_SET_PAGES {
                self.working_set.pop_front();
            }
            assert(self.working_set@ =~= old(self)@.working_set_after(page));
            let mut i: usize = 0;
            while i < self.working_set.len()
                invariant
                    i <= self.working_set@.len(),
                    restore@ == self.working_set@.take(i as int),
                decreases self.working_set@.len() - i,
            {
                restore.push(self.working_set[i]);
                assert(self.working_set@.take(i + 1) =~= self.working_set@.take(i as int).push(
                    self.working_set@[i as int],
                ));
                i += 1;
            }
            assert(self.working_set@.take(i as int) =~= self.working_set@);
        } else {
            // Restore access to the current page.
            restore.push(page);
            assert(restore@ =~= seq![page]);
        }
        self.prev_page = page;
        FaultResponse { revoke, restore }
    }
}

/// The enclave reports that it starts a row of blocks.
pub fn ocall_next_row(global: &mut GlobalState)
    requires
        old(global).wf(),
    ensures
        final(global).wf(),
        final(global)@ == old(global)@.row_reported(),
{
    if !global.skip_first {
        global.skip_first = true;
        return ;
    }
    if global.use_ocalls {
        global.reconstruct.next_row();
    }
}

/// The enclave reports that it has transformed a block.
pub fn ocall_idct_islow(global: &mut GlobalState)
    requires
        old(global).wf(),
    ensures
        final(global).wf(),
        final(global)@ == old(global)@.block_reported(),
{
    if global.use_ocalls {
        global.reconstruct.reconstruct_block(global.zero_count);
        global.zero_count = 0;
    }
}

/// The enclave reports an all-zero part of the block at hand.
pub fn ocall_all_zero(global: &mut GlobalState)
    ensures
        final(global)@ == old(global)@.zero_reported(),
{
    global.zero_count = global.zero_count.wrapping_add(1);
}

} // verus!
