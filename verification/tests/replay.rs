use tlblur::jpeg_state::JpegState;
use tlblur::replay::{attack_vcd, ScalarValue, TraceAttack, TraceCommand, TRACE_PAGES};

fn high(page: usize) -> TraceCommand {
    TraceCommand::ChangeScalar { page: Some(page), value: ScalarValue::V1 }
}

fn faults(pages: &[usize]) -> Vec<TraceCommand> {
    pages.iter().map(|&p| high(p)).collect()
}

#[test]
fn jpeg_trace_replay() {
    // The first block counts the three data accesses 150, 151, 150 and the
    // second one a single access.  The trace ends while the third block is
    // still being counted, so that nothing is committed to the second row.
    let commands = faults(&[54, 58, 63, 150, 151, 150, 59, 63, 150, 44, 58, 63, 150]);
    let r = attack_vcd(&commands, false, false);
    assert_eq!(r.raw_reconstruction(), &vec![vec![vec![3, 1], vec![]]]);
    assert_eq!(r.min_data(), 1);
    assert_eq!(r.max_data(), 3);
    assert_eq!(r.current_row(), 1);
}

#[test]
fn replay_commits_when_the_block_is_left() {
    let commands = faults(&[
        54, 58, 63, 150, 151, 59, 63, 150, 44, 58, 63, 150, 59,
    ]);
    let r = attack_vcd(&commands, false, false);
    assert_eq!(r.raw_reconstruction(), &vec![vec![vec![2, 1], vec![1]]]);
    assert_eq!(r.min_data(), 1);
    assert_eq!(r.max_data(), 2);
}

#[test]
fn replay_in_colour_spreads_blocks_over_channels() {
    let commands = faults(&[
        54, 58, 63, 150, 59, 63, 150, 150, 59, 63, 150, 150, 150, 59, 63, 150, 150, 150, 150, 44,
    ]);
    let r = attack_vcd(&commands, true, false);
    assert_eq!(
        r.raw_reconstruction(),
        &vec![vec![vec![1, 4]], vec![vec![2]], vec![vec![3]]]
    );
}

#[test]
fn only_rising_wires_of_known_pages_count() {
    let commands = vec![
        high(54),
        TraceCommand::Other,
        TraceCommand::ChangeScalar { page: Some(58), value: ScalarValue::V0 },
        TraceCommand::ChangeScalar { page: Some(58), value: ScalarValue::X },
        TraceCommand::ChangeScalar { page: Some(58), value: ScalarValue::Z },
        TraceCommand::ChangeScalar { page: None, value: ScalarValue::V1 },
    ];
    let mut attack = TraceAttack::new(false, false);
    for command in &commands {
        attack.command(*command);
    }
    assert_eq!(attack.state(), JpegState::Start);
    attack.command(high(58));
    assert_eq!(attack.state(), JpegState::StartRow);
}

#[test]
fn accessed_page_of_a_command() {
    assert_eq!(high(3).accessed_page(), Some(3));
    assert_eq!(TraceCommand::Other.accessed_page(), None);
    assert_eq!(
        TraceCommand::ChangeScalar { page: Some(3), value: ScalarValue::V0 }.accessed_page(),
        None
    );
    assert_eq!(
        TraceCommand::ChangeScalar { page: None, value: ScalarValue::V1 }.accessed_page(),
        None
    );
}

#[test]
fn row_law_holds_along_a_replay() {
    let pages = [
        54, 58, 63, 150, 44, 58, 63, 150, 150, 59, 44, 58, 58, 63, 200, 300, 44, 58,
    ];
    let mut attack = TraceAttack::new(true, false);
    let mut rows = 0;
    for page in pages {
        let before = attack.state();
        attack.command(high(page));
        if before == JpegState::NextRow && attack.state() == JpegState::StartRow {
            rows += 1;
        }
    }
    let r = attack.finish();
    assert_eq!(r.current_row(), rows);
    assert_eq!(rows, 3);
    for channel in r.raw_reconstruction() {
        assert_eq!(channel.len(), r.current_row() + 1);
    }
}

#[test]
fn commit_law_counts_the_data_faults() {
    // Five data pages are hit while counting; pages that enter no successor
    // in between do not count.
    let pages = [54, 58, 63, 150, 4000, 70, 151, 10, 152, 4339, 59];
    let r = attack_vcd(&faults(&pages), false, false);
    assert_eq!(r.raw_reconstruction(), &vec![vec![vec![5]]]);
    // With AEX-Notify page 4339 is no data page.
    let r = attack_vcd(&faults(&pages), false, true);
    assert_eq!(r.raw_reconstruction(), &vec![vec![vec![4]]]);
}

#[test]
fn trace_pages_bound() {
    assert_eq!(TRACE_PAGES, 9999);
}
