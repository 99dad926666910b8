//! Reconstruction of a JPEG image from the transitions of [`JpegState`].
//!
//! The number of data accesses counted during one inverse DCT tells how
//! many coefficients of that block are not zero, which is enough to see the
//! outline of the image.

use vstd::prelude::*;
use crate::jpeg_state::JpegState;

verus! {

/// A colour channel of the reconstruction, by its index.
pub struct JpegColor(pub usize);

impl JpegColor {
    /// The only channel of a greyscale image.
    pub fn gray() -> (result: Self)
        ensures
            result.0 == 0,
    {
        JpegColor(0)
    }

    /// The first channel of a colour image.
    pub fn red() -> (result: Self)
        ensures
            result.0 == 0,
    {
        JpegColor(0)
    }

    /// The second channel of a colour image.
    pub fn green() -> (result: Self)
        ensures
            result.0 == 1,
    {
        JpegColor(1)
    }

    /// The third channel of a colour image.
    pub fn blue() -> (result: Self)
        ensures
            result.0 == 2,
    {
        JpegColor(2)
    }
}

/// What a [`JpegReconstruct`] holds.
#[verifier::ext_equal]
pub struct ReconstructView {
    /// Number of colour channels.
    pub num_colors: nat,
    /// The block values, by channel, row and column.
    pub buffer: Seq<Seq<Seq<usize>>>,
    /// The channel that the next block belongs to.
    pub current_color: nat,
    /// The row that the next block belongs to.
    pub current_row: nat,
    /// The least block value so far.
    pub min_data: usize,
    /// The greatest block value so far, and at least 1.
    pub max_data: usize,
}

impl ReconstructView {
    /// A reconstruction without blocks: one empty row in every channel.
    pub open spec fn empty(num_colors: nat) -> Self {
        ReconstructView {
            num_colors,
            buffer: Seq::new(num_colors, |c: int| seq![Seq::<usize>::empty()]),
            current_color: 0,
            current_row: 0,
            min_data: usize::MAX,
            max_data: 1,
        }
    }

    /// There is a channel, the current channel is one of them, and every
    /// channel has the rows up to the current one.
    pub open spec fn wf(self) -> bool {
        &&& self.num_colors >= 1
        &&& self.buffer.len() == self.num_colors
        &&& self.current_color < self.num_colors
        &&& forall|c: int|
            0 <= c < self.buffer.len() ==> (#[trigger] self.buffer[c]).len() == self.current_row
                + 1
    }

    /// The reconstruction after an empty row was added to every channel.
    pub open spec fn next_row(self) -> Self {
        ReconstructView {
            buffer: Seq::new(
                self.buffer.len(),
                |c: int| self.buffer[c].push(Seq::<usize>::empty()),
            ),
            current_row: self.current_row + 1,
            ..self
        }
    }

    /// The reconstruction after a block of `num_data` accesses was added to
    /// the current row of the current channel, and the next channel took
    /// its turn.
    pub open spec fn reconstruct_block(self, num_data: usize) -> Self {
        let color = self.current_color as int;
        let row = self.current_row as int;
        ReconstructView {
            buffer: self.buffer.update(
                color,
                self.buffer[color].update(row, self.buffer[color][row].push(num_data)),
            ),
            current_color: (self.current_color + 1) % self.num_colors,
            min_data: if num_data < self.min_data {
                num_data
            } else {
                self.min_data
            },
            max_data: if num_data > self.max_data {
                num_data
            } else {
                self.max_data
            },
            ..self
        }
    }

    /// Whether the transition from `prev_state` to `new_state` ends a block.
    pub open spec fn commits(prev_state: JpegState, new_state: JpegState) -> bool {
        prev_state is DataCount && !(new_state is DataCount)
    }

    /// The reconstruction after the transition from `prev_state` to
    /// `new_state`: leaving the data counter ends a block with the count
    /// reached, and entering a row from `NextRow` starts a new row.
    pub open spec fn reconstruct(self, prev_state: JpegState, new_state: JpegState) -> Self {
        let committed = if Self::commits(prev_state, new_state) {
            self.reconstruct_block(prev_state->DataCount_0)
        } else {
            self
        };
        if prev_state == JpegState::NextRow && new_state == JpegState::StartRow {
            committed.next_row()
        } else {
            committed
        }
    }

    /// The value shown at column `x` of row `y`: that of the block there,
    /// and zero where the row has no such block.
    pub open spec fn pixel(self, color: int, x: int, y: int) -> usize {
        if 0 <= x < self.buffer[color][y].len() {
            self.buffer[color][y][x]
        } else {
            0
        }
    }
}

/// The length of the longest of `rows`, and zero when there is none.
pub open spec fn max_row_len(rows: Seq<Seq<usize>>) -> nat
    decreases rows.len(),
{
    if rows.len() == 0 {
        0
    } else {
        let before = max_row_len(rows.drop_last());
        if rows.last().len() > before {
            rows.last().len()
        } else {
            before
        }
    }
}

/// `max_row_len` bounds every row, and some row reaches it.
pub proof fn lemma_max_row_len(rows: Seq<Seq<usize>>)
    ensures
        forall|r: int| 0 <= r < rows.len() ==> (#[trigger] rows[r]).len() <= max_row_len(rows),
        rows.len() > 0 ==> exists|r: int|
            0 <= r < rows.len() && (#[trigger] rows[r]).len() == max_row_len(rows),
    decreases rows.len(),
{
    if rows.len() > 0 {
        let front = rows.drop_last();
        lemma_max_row_len(front);
        assert forall|r: int| 0 <= r < rows.len() implies (#[trigger] rows[r]).len() <= max_row_len(
            rows,
        ) by {
            if r < front.len() {
                assert(front[r] == rows[r]);
            }
        }
        if rows.last().len() > max_row_len(front) || front.len() == 0 {
            assert(rows[rows.len() - 1].len() == max_row_len(rows));
        } else {
            let r = choose|r: int|
                0 <= r < front.len() && (#[trigger] front[r]).len() == max_row_len(front);
            assert(rows[r] == front[r]);
        }
    }
}

/// The values of a buffer of vectors, by channel, row and column.
pub open spec fn nested_view(buffer: Vec<Vec<Vec<usize>>>) -> Seq<Seq<Seq<usize>>> {
    Seq::new(
        buffer@.len(),
        |c: int| Seq::new(buffer@[c]@.len(), |r: int| buffer@[c]@[r]@),
    )
}

/// Struct used for JPEG image reconstruction from page fault traces.
///
/// Reconstruction happens when repeatedly calling the reconstruct
/// function on each `JpegState` transition.
#[derive(Clone, Debug)]
pub struct JpegReconstruct {
    current_color: usize,
    num_colors: usize,
    reconstructed_buffer: Vec<Vec<Vec<usize>>>,
    max_data: usize,
    min_data: usize,
    current_row: usize,
}

impl View for JpegReconstruct {
    type V = ReconstructView;

    closed spec fn view(&self) -> ReconstructView {
        ReconstructView {
            num_colors: self.num_colors as nat,
            buffer: nested_view(self.reconstructed_buffer),
            current_color: self.current_color as nat,
            current_row: self.current_row as nat,
            min_data: self.min_data,
            max_data: self.max_data,
        }
    }
}

impl JpegReconstruct {
    /// There is a channel, the current channel is one of them, and every
    /// channel has the rows up to the current one.
    pub open spec fn wf(&self) -> bool {
        self@.wf()
    }

    /// A reconstruction without blocks, for an image of `num_colors`
    /// channels.
    pub fn new(num_colors: usize) -> (result: Self)
        requires
            num_colors >= 1,
        ensures
            result.wf(),
            result@ == ReconstructView::empty(num_colors as nat),
    {
        let mut buffer: Vec<Vec<Vec<usize>>> = Vec::new();
        let mut c: usize = 0;
        while c < num_colors
            invariant
                c <= num_colors,
                buffer@.len() == c,
                forall|k: int|
                    0 <= k < c ==> (#[trigger] buffer@[k])@.len() == 1 && buffer@[k]@[0]@
                        == Seq::<usize>::empty(),
            decreases num_colors - c,
        {
            let mut channel: Vec<Vec<usize>> = Vec::with_capacity(1000);
            channel.push(Vec::new());
            buffer.push(channel);
            c += 1;
        }
        let result = Self {
            max_data: 1,
            min_data: usize::MAX,
            current_color: 0,
            num_colors,
            current_row: 0,
            reconstructed_buffer: buffer,
        };
        assert(result@.buffer =~~= ReconstructView::empty(num_colors as nat).buffer);
        result
    }

    /// Number of colour channels.
    pub fn num_colors(&self) -> (result: usize)
        ensures
            result == self@.num_colors,
    {
        self.num_colors
    }

    /// The row that the next block belongs to, which is also the number of
    /// rows that are complete.
    pub fn current_row(&self) -> (result: usize)
        ensures
            result == self@.current_row,
    {
        self.current_row
    }

    /// The channel that the next block belongs to.
    pub fn current_color(&self) -> (result: usize)
        ensures
            result == self@.current_color,
    {
        self.current_color
    }

    /// The least block value so far; `usize::MAX` before the first block.
    pub fn min_data(&self) -> (result: usize)
        ensures
            result == self@.min_data,
    {
        self.min_data
    }

    /// The greatest block value so far, and at least 1.
    pub fn max_data(&self) -> (result: usize)
        ensures
            result == self@.max_data,
    {
        self.max_data
    }

    /// The value shown at column `x` of row `y` in channel
    /// `color % num_colors`.
    pub fn reconstructed_pixel(&self, color: usize, x: usize, y: usize) -> (result: isize)
        requires
            self.wf(),
            y <= self@.current_row,
        ensures
            result == self@.pixel(color as int % self@.num_colors as int, x as int, y as int)
                as isize,
    {
        let channel = color % self.num_colors;
        assert(self@.buffer[channel as int].len() == self@.current_row + 1);
        let row = &self.reconstructed_buffer[channel][y];
        if x < row.len() {
            row[x] as isize
        } else {
            0
        }
    }

    /// Width and height of the reconstruction in blocks: the length of the
    /// longest row of the first channel, and the number of complete rows.
    pub fn reconstructed_size(&self) -> (result: [usize; 2])
        requires
            self.wf(),
        ensures
            result[0] == max_row_len(self@.buffer[0]),
            result[1] == self@.current_row,
    {
        let rows = &self.reconstructed_buffer[0];
        let ghost all = self@.buffer[0];
        assert(all.len() == self@.current_row + 1);
        assert(all.take(0) =~= Seq::<Seq<usize>>::empty());
        let mut width: usize = 0;
        let mut r: usize = 0;
        while r < rows.len()
            invariant
                r <= rows@.len(),
                all.len() == rows@.len(),
                forall|k: int| 0 <= k < rows@.len() ==> all[k] == (#[trigger] rows@[k])@,
                width == max_row_len(all.take(r as int)),
            decreases rows@.len() - r,
        {
            proof {
                let next = all.take(r + 1);
                assert(next.drop_last() =~= all.take(r as int));
                assert(next.last() == rows@[r as int]@);
            }
            if rows[r].len() > width {
                width = rows[r].len();
            }
            r += 1;
        }
        assert(all.take(r as int) =~= all);
        [width, rows.len() - 1]
    }

    /// Returns the block values of one channel, row after row.
    pub fn reconstruction(&self, color: JpegColor) -> (result: Vec<usize>)
        requires
            self.wf(),
            color.0 < self@.num_colors,
        ensures
            result@ == self@.buffer[color.0 as int].flatten(),
    {
        let rows = &self.reconstructed_buffer[color.0];
        let ghost all = self@.buffer[color.0 as int];
        let mut result: Vec<usize> = Vec::new();
        let mut r: usize = 0;
        assert(all.take(0) =~= Seq::<Seq<usize>>::empty());
        while r < rows.len()
            invariant
                r <= rows@.len(),
                all.len() == rows@.len(),
                forall|k: int| 0 <= k < rows@.len() ==> all[k] == (#[trigger] rows@[k])@,
                result@ == all.take(r as int).flatten(),
            decreases rows@.len() - r,
        {
            let row = &rows[r];
            let ghost before = result@;
            let mut x: usize = 0;
            while x < row.len()
                invariant
                    x <= row@.len(),
                    result@ == before + row@.take(x as int),
                decreases row@.len() - x,
            {
                result.push(row[x]);
                assert(row@.take(x + 1) =~= row@.take(x as int).push(row@[x as int]));
                x += 1;
            }
            proof {
                assert(row@.take(x as int) == row@);
                assert(all[r as int] == row@);
                assert(all.take(r + 1) =~= all.take(r as int).push(row@));
                all.take(r as int).lemma_flatten_push(row@);
            }
            r += 1;
        }
        assert(all.take(r as int) == all);
        result
    }

    /// Returns the reconstruction buffer, by channel, row and column.
    pub fn raw_reconstruction(&self) -> (result: &Vec<Vec<Vec<usize>>>)
        ensures
            nested_view(*result) == self@.buffer,
    {
        &self.reconstructed_buffer
    }

    /// Advance to the next row in the reconstruction.
    pub fn next_row(&mut self)
        requires
            old(self).wf(),
        ensures
            final(self).wf(),
            final(self)@ == old(self)@.next_row(),
    {
        let mut i: usize = 0;
        while i < self.num_colors
            invariant
                i <= self.num_colors,
                self.num_colors == old(self).num_colors,
                self.current_color == old(self).current_color,
                self.current_row == old(self).current_row,
                self.min_data == old(self).min_data,
                self.max_data == old(self).max_data,
                old(self).wf(),
                self.reconstructed_buffer@.len() == self.num_colors,
                forall|c: int|
                    0 <= c < i ==> (#[trigger] self@.buffer[c]) == old(self)@.buffer[c].push(
                        Seq::<usize>::empty(),
                    ),
                forall|c: int|
                    i <= c < self.num_colors ==> (#[trigger] self@.buffer[c]) == old(
                        self,
                    )@.buffer[c],
            decreases self.num_colors - i,
        {
            let ghost before = self@;
            self.reconstructed_buffer[i].push(Vec::with_capacity(300));
            proof {
                assert(self@.buffer[i as int] =~~= before.buffer[i as int].push(
                    Seq::<usize>::empty(),
                ));
                assert forall|c: int|
                    0 <= c < self.num_colors && c != i implies #[trigger] self@.buffer[c]
                    == before.buffer[c] by {
                    assert(self@.buffer[c] =~~= before.buffer[c]);
                }
            }
            i += 1;
        }
        // The current row is the last one, which every channel has now.
        assert(self@.buffer[0].len() == old(self)@.current_row + 2);
        self.current_row = self.reconstructed_buffer[0].len() - 1;
        assert(self@.buffer =~~= old(self)@.next_row().buffer);
    }

    /// Reconstruct a JPEG block based on the given number of data accesses
    /// that were counted during reconstruction of this block.
    ///
    /// Also updates the least and greatest counts encountered, by which
    /// the reconstructed image is normalized.
    pub fn reconstruct_block(&mut self, num_data: usize)
        requires
            old(self).wf(),
        ensures
            final(self).wf(),
            final(self)@ == old(self)@.reconstruct_block(num_data),
    {
        if num_data > self.max_data {
            self.max_data = num_data;
        }
        if num_data < self.min_data {
            self.min_data = num_data;
        }
        let color = self.current_color;
        let row = self.current_row;
        assert(old(self)@.buffer[color as int].len() == row + 1);
        let ghost before = self@;
        self.reconstructed_buffer[color][row].push(num_data);
        self.current_color = (self.current_color + 1) % self.num_colors;
        proof {
            let expected = old(self)@.reconstruct_block(num_data);
            assert(self@.buffer.len() == expected.buffer.len());
            assert forall|c: int| 0 <= c < self@.buffer.len() implies #[trigger] self@.buffer[c]
                =~~= expected.buffer[c] by {
                if c == color {
                    assert forall|r: int|
                        0 <= r < self@.buffer[c].len() implies #[trigger] self@.buffer[c][r]
                        =~= expected.buffer[c][r] by {}
                }
            }
            assert(self@.buffer =~~= expected.buffer);
        }
    }

    /// Whether the transition from `prev_state` to `new_state` ends a block.
    pub fn commits(prev_state: JpegState, new_state: JpegState) -> (result: bool)
        ensures
            result == ReconstructView::commits(prev_state, new_state),
    {
        match prev_state {
            JpegState::DataCount(_) => match new_state {
                JpegState::DataCount(_) => false,
                _ => true,
            },
            _ => false,
        }
    }

    /// Called to notify `JpegReconstruct` of a state transition.
    pub fn reconstruct(&mut self, prev_state: JpegState, new_state: JpegState)
        requires
            old(self).wf(),
        ensures
            final(self).wf(),
            final(self)@ == old(self)@.reconstruct(prev_state, new_state),
    {
        // If we were previously in a data counting state, but we no longer
        // are, reconstruct another block based on the number of data
        // accesses counted.
        if let JpegState::DataCount(data_count) = prev_state {
            if Self::commits(prev_state, new_state) {
                self.reconstruct_block(data_count);
            }
        }
        // If we transition from `JpegState::NextRow` to
        // `JpegState::StartRow`, notify the reconstruction that we moved to
        // the next row.
        if prev_state == JpegState::NextRow && new_state == JpegState::StartRow {
            self.next_row();
        }
    }
}

} // verus!
