use tlblur::jpeg_state::JpegState;

#[test]
fn default_state_is_pre_start() {
    assert_eq!(JpegState::default(), JpegState::PreStart);
}

#[test]
fn page_ranges_of_the_default_profile() {
    assert_eq!(JpegState::PreStart.pages(false), 0..0);
    assert_eq!(JpegState::Start.pages(false), 54..55);
    assert_eq!(JpegState::NextRow.pages(false), 44..46);
    assert_eq!(JpegState::StartRow.pages(false), 58..59);
    assert_eq!(JpegState::PreIdctSlow.pages(false), 59..60);
    assert_eq!(JpegState::IdctSlow.pages(false), 63..65);
    assert_eq!(JpegState::DataCount(7).pages(false), 150..4340);
    assert_eq!(JpegState::StartIdctSlow.pages(false), 0..0);
}

#[test]
fn aexnotify_shortens_the_data_range_only() {
    assert_eq!(JpegState::DataCount(1).pages(true), 150..4335);
    assert_eq!(JpegState::Start.pages(true), 54..55);
    assert_eq!(JpegState::NextRow.pages(true), 44..46);
    assert_eq!(JpegState::StartRow.pages(true), 58..59);
    assert_eq!(JpegState::PreIdctSlow.pages(true), 59..60);
    assert_eq!(JpegState::IdctSlow.pages(true), 63..65);
}

#[test]
fn successors_of_every_state() {
    assert_eq!(JpegState::PreStart.next_states(), vec![JpegState::Start]);
    assert_eq!(JpegState::Start.next_states(), vec![JpegState::StartRow]);
    assert_eq!(JpegState::NextRow.next_states(), vec![JpegState::StartRow]);
    assert_eq!(JpegState::StartRow.next_states(), vec![JpegState::IdctSlow]);
    assert_eq!(
        JpegState::PreIdctSlow.next_states(),
        vec![JpegState::IdctSlow, JpegState::NextRow]
    );
    assert_eq!(JpegState::IdctSlow.next_states(), vec![JpegState::DataCount(1)]);
    assert_eq!(
        JpegState::DataCount(4).next_states(),
        vec![JpegState::DataCount(5), JpegState::PreIdctSlow, JpegState::NextRow]
    );
    assert_eq!(JpegState::StartIdctSlow.next_states(), vec![]);
}

#[test]
fn state_stickiness() {
    // No successor of PreStart is entered by page 100.
    assert_eq!(JpegState::PreStart.next(100, false), JpegState::PreStart);
    assert_eq!(JpegState::Start.next(58, false), JpegState::StartRow);
}

#[test]
fn transitions_follow_the_pages() {
    assert_eq!(JpegState::PreStart.next(54, false), JpegState::Start);
    assert_eq!(JpegState::PreStart.next(55, false), JpegState::PreStart);
    assert_eq!(JpegState::NextRow.next(58, false), JpegState::StartRow);
    assert_eq!(JpegState::StartRow.next(63, false), JpegState::IdctSlow);
    assert_eq!(JpegState::StartRow.next(64, false), JpegState::IdctSlow);
    assert_eq!(JpegState::StartRow.next(65, false), JpegState::StartRow);
    assert_eq!(JpegState::PreIdctSlow.next(63, false), JpegState::IdctSlow);
    assert_eq!(JpegState::PreIdctSlow.next(44, false), JpegState::NextRow);
    assert_eq!(JpegState::PreIdctSlow.next(45, false), JpegState::NextRow);
    assert_eq!(JpegState::PreIdctSlow.next(46, false), JpegState::PreIdctSlow);
    assert_eq!(JpegState::IdctSlow.next(150, false), JpegState::DataCount(1));
    assert_eq!(JpegState::IdctSlow.next(149, false), JpegState::IdctSlow);
    assert_eq!(JpegState::DataCount(1).next(150, false), JpegState::DataCount(2));
    assert_eq!(JpegState::DataCount(9).next(59, false), JpegState::PreIdctSlow);
    assert_eq!(JpegState::DataCount(9).next(44, false), JpegState::NextRow);
    assert_eq!(JpegState::DataCount(9).next(58, false), JpegState::DataCount(9));
    assert_eq!(JpegState::StartIdctSlow.next(63, false), JpegState::StartIdctSlow);
}

#[test]
fn aexnotify_profile() {
    assert_eq!(JpegState::DataCount(3).next(4338, false), JpegState::DataCount(4));
    assert_eq!(JpegState::DataCount(3).next(4336, false), JpegState::DataCount(4));
    // With AEX-Notify the data range ends at page 4335, so that pages 4336
    // and 4338 enter no successor and the state stays as it is.
    assert_eq!(JpegState::DataCount(3).next(4336, true), JpegState::DataCount(3));
    assert_eq!(JpegState::DataCount(3).next(4338, true), JpegState::DataCount(3));
    assert_eq!(JpegState::DataCount(3).next(4334, true), JpegState::DataCount(4));
    assert_eq!(JpegState::DataCount(3).next(4335, true), JpegState::DataCount(3));
    assert_eq!(JpegState::DataCount(3).next(4339, false), JpegState::DataCount(4));
    assert_eq!(JpegState::DataCount(3).next(4340, false), JpegState::DataCount(3));
}

#[test]
fn next_pages_are_the_ranges_of_the_successors() {
    assert_eq!(JpegState::PreStart.next_pages(false), vec![54..55]);
    assert_eq!(JpegState::PreIdctSlow.next_pages(false), vec![63..65, 44..46]);
    assert_eq!(
        JpegState::DataCount(2).next_pages(false),
        vec![150..4340, 59..60, 44..46]
    );
    assert_eq!(
        JpegState::DataCount(2).next_pages(true),
        vec![150..4335, 59..60, 44..46]
    );
    assert_eq!(JpegState::StartIdctSlow.next_pages(false), vec![]);
}
