use tlblur::jpeg_state::JpegState;
use tlblur::reconstruct::{JpegColor, JpegReconstruct};

#[test]
fn new_reconstruction_has_one_empty_row_per_channel() {
    let gray = JpegReconstruct::new(1);
    assert_eq!(gray.raw_reconstruction(), &vec![vec![Vec::<usize>::new()]]);
    assert_eq!(gray.num_colors(), 1);
    assert_eq!(gray.current_row(), 0);
    assert_eq!(gray.current_color(), 0);
    assert_eq!(gray.min_data(), usize::MAX);
    assert_eq!(gray.max_data(), 1);
    let color = JpegReconstruct::new(3);
    assert_eq!(
        color.raw_reconstruction(),
        &vec![vec![Vec::<usize>::new()], vec![vec![]], vec![vec![]]]
    );
}

#[test]
fn blocks_take_turns_over_the_channels() {
    let mut r = JpegReconstruct::new(3);
    r.reconstruct_block(5);
    assert_eq!(r.current_color(), 1);
    r.reconstruct_block(6);
    assert_eq!(r.current_color(), 2);
    r.reconstruct_block(7);
    assert_eq!(r.current_color(), 0);
    r.reconstruct_block(8);
    assert_eq!(
        r.raw_reconstruction(),
        &vec![vec![vec![5, 8]], vec![vec![6]], vec![vec![7]]]
    );
    assert_eq!(r.min_data(), 5);
    assert_eq!(r.max_data(), 8);
}

#[test]
fn extremes_follow_the_blocks() {
    let mut r = JpegReconstruct::new(1);
    r.reconstruct_block(0);
    assert_eq!(r.min_data(), 0);
    assert_eq!(r.max_data(), 1);
    r.reconstruct_block(64);
    assert_eq!(r.min_data(), 0);
    assert_eq!(r.max_data(), 64);
    r.reconstruct_block(3);
    assert_eq!(r.min_data(), 0);
    assert_eq!(r.max_data(), 64);
}

#[test]
fn next_row_adds_a_row_to_every_channel() {
    let mut r = JpegReconstruct::new(3);
    r.reconstruct_block(1);
    r.next_row();
    assert_eq!(r.current_row(), 1);
    for channel in r.raw_reconstruction() {
        assert_eq!(channel.len(), r.current_row() + 1);
    }
    r.reconstruct_block(2);
    assert_eq!(
        r.raw_reconstruction(),
        &vec![vec![vec![1], vec![]], vec![vec![], vec![2]], vec![vec![], vec![]]]
    );
}

#[test]
fn reconstruct_commits_when_counting_ends() {
    let mut r = JpegReconstruct::new(1);
    r.reconstruct(JpegState::IdctSlow, JpegState::DataCount(1));
    r.reconstruct(JpegState::DataCount(1), JpegState::DataCount(2));
    assert_eq!(r.raw_reconstruction(), &vec![vec![Vec::<usize>::new()]]);
    r.reconstruct(JpegState::DataCount(2), JpegState::PreIdctSlow);
    assert_eq!(r.raw_reconstruction(), &vec![vec![vec![2]]]);
    r.reconstruct(JpegState::DataCount(9), JpegState::NextRow);
    assert_eq!(r.raw_reconstruction(), &vec![vec![vec![2, 9]]]);
    // Staying in the counter commits nothing.
    r.reconstruct(JpegState::DataCount(4), JpegState::DataCount(4));
    assert_eq!(r.raw_reconstruction(), &vec![vec![vec![2, 9]]]);
}

#[test]
fn reconstruct_starts_a_row_after_next_row_only() {
    let mut r = JpegReconstruct::new(1);
    r.reconstruct(JpegState::Start, JpegState::StartRow);
    assert_eq!(r.current_row(), 0);
    r.reconstruct(JpegState::NextRow, JpegState::NextRow);
    assert_eq!(r.current_row(), 0);
    r.reconstruct(JpegState::NextRow, JpegState::StartRow);
    assert_eq!(r.current_row(), 1);
    assert_eq!(r.raw_reconstruction(), &vec![vec![Vec::<usize>::new(), vec![]]]);
}

#[test]
fn commits_tells_the_end_of_a_block() {
    assert!(JpegReconstruct::commits(JpegState::DataCount(3), JpegState::NextRow));
    assert!(JpegReconstruct::commits(JpegState::DataCount(3), JpegState::PreIdctSlow));
    assert!(!JpegReconstruct::commits(JpegState::DataCount(3), JpegState::DataCount(4)));
    assert!(!JpegReconstruct::commits(JpegState::IdctSlow, JpegState::DataCount(1)));
    assert!(!JpegReconstruct::commits(JpegState::NextRow, JpegState::StartRow));
}

fn sample() -> JpegReconstruct {
    let mut r = JpegReconstruct::new(1);
    for n in [4, 9, 2] {
        r.reconstruct_block(n);
    }
    r.next_row();
    for n in [7, 1, 3, 8] {
        r.reconstruct_block(n);
    }
    r.next_row();
    r
}

#[test]
fn size_is_longest_row_by_complete_rows() {
    let r = sample();
    assert_eq!(r.reconstructed_size(), [4, 2]);
    assert_eq!(JpegReconstruct::new(3).reconstructed_size(), [0, 0]);
}

#[test]
fn pixels_default_to_zero_beyond_the_row() {
    let r = sample();
    assert_eq!(r.reconstructed_pixel(0, 0, 0), 4);
    assert_eq!(r.reconstructed_pixel(0, 2, 0), 2);
    assert_eq!(r.reconstructed_pixel(0, 3, 0), 0);
    assert_eq!(r.reconstructed_pixel(0, 3, 1), 8);
    assert_eq!(r.reconstructed_pixel(0, 0, 2), 0);
    // With one channel every colour falls onto it.
    assert_eq!(r.reconstructed_pixel(1, 1, 1), 1);
    assert_eq!(r.reconstructed_pixel(2, 1, 0), 9);
}

#[test]
fn reconstruction_flattens_the_rows() {
    let r = sample();
    assert_eq!(r.reconstruction(JpegColor::gray()), vec![4, 9, 2, 7, 1, 3, 8]);
    let mut c = JpegReconstruct::new(3);
    for n in 1..=7 {
        c.reconstruct_block(n);
    }
    assert_eq!(c.reconstruction(JpegColor::red()), vec![1, 4, 7]);
    assert_eq!(c.reconstruction(JpegColor::green()), vec![2, 5]);
    assert_eq!(c.reconstruction(JpegColor::blue()), vec![3, 6]);
}

#[test]
fn colours_name_their_channels() {
    assert_eq!(JpegColor::gray().0, 0);
    assert_eq!(JpegColor::red().0, 0);
    assert_eq!(JpegColor::green().0, 1);
    assert_eq!(JpegColor::blue().0, 2);
}
