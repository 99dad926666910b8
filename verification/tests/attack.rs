use tlblur::attack::{
    num_blocks, ocall_all_zero, ocall_idct_islow, ocall_next_row, output_size, AttackError,
    GlobalState,
};
use tlblur::jpeg_state::JpegState;

#[test]
fn errors_in_words() {
    assert_eq!(AttackError::Unknown.to_string(), "unknown error");
    assert_eq!(AttackError::Mprotect.to_string(), "failed to protect memory");
}

#[test]
fn status_zero_is_success() {
    assert_eq!(AttackError::from_status(0), Ok(()));
    assert_eq!(AttackError::from_status(-1), Err(AttackError::Mprotect));
    assert_eq!(AttackError::from_status(1), Err(AttackError::Mprotect));
}

#[test]
fn output_size_formula() {
    assert_eq!(output_size(0, 0), Some(100));
    assert_eq!(output_size(640, 480), Some(921_700));
    assert_eq!(output_size(1, 1), Some(103));
    assert_eq!(output_size(37837, 37837), Some(4_294_915_807));
    // 37838 * 37838 * 3 + 100 is just over 32 bits.
    assert_eq!(output_size(37838, 37838), None);
    assert_eq!(output_size(u32::MAX, u32::MAX), None);
    assert_eq!(output_size(65535, 21845), Some(65535 * 21845 * 3 + 100));
}

#[test]
fn num_blocks_formula() {
    assert_eq!(num_blocks(0, 0, false), Some(1));
    assert_eq!(num_blocks(640, 480, false), Some(81 * 61));
    assert_eq!(num_blocks(640, 480, true), Some(81 * 61 * 3));
    assert_eq!(num_blocks(7, 8, false), Some(2));
    assert_eq!(num_blocks(u32::MAX, u32::MAX, false), None);
    assert_eq!(num_blocks(u32::MAX, 0, true), Some(536_870_912 * 3));
    assert_eq!(num_blocks(u32::MAX, 16, true), None);
}

#[test]
fn new_state_is_before_the_start() {
    let global = GlobalState::new(true);
    assert_eq!(global.state(), JpegState::PreStart);
    assert_eq!(global.prev_page(), 0);
    assert_eq!(global.reconstruct().num_colors(), 3);
    assert_eq!(GlobalState::new(false).reconstruct().num_colors(), 1);
    assert!(global.can_fault());
    assert_eq!(global.protect_next_pages(), vec![54..55]);
}

#[test]
fn fault_moves_on_and_answers_with_pages() {
    let mut global = GlobalState::new(false);
    global.set_mode(true, false);
    let response = global.fault_handler(54);
    assert_eq!(global.state(), JpegState::Start);
    assert_eq!(global.prev_page(), 54);
    assert_eq!(response.revoke, vec![58..59]);
    assert_eq!(response.restore, vec![54]);
    let response = global.fault_handler(58);
    assert_eq!(response.revoke, vec![63..65]);
    assert_eq!(response.restore, vec![58]);
    let response = global.fault_handler(63);
    assert_eq!(response.revoke, vec![150..4340]);
    let response = global.fault_handler(150);
    assert_eq!(global.state(), JpegState::DataCount(1));
    assert_eq!(response.revoke, vec![150..4340, 59..60, 44..46]);
    assert_eq!(response.restore, vec![150]);
    // A fault that enters no successor changes nothing but the last page.
    let response = global.fault_handler(7);
    assert_eq!(global.state(), JpegState::DataCount(1));
    assert_eq!(global.prev_page(), 7);
    assert_eq!(response.restore, vec![7]);
    let _ = global.fault_handler(59);
    assert_eq!(global.reconstruct().raw_reconstruction(), &vec![vec![vec![1]]]);
}

#[test]
fn aexnotify_restores_the_working_set() {
    let mut global = GlobalState::new(false);
    global.set_mode(true, true);
    assert_eq!(global.fault_handler(54).restore, vec![54]);
    assert_eq!(global.fault_handler(58).restore, vec![54, 58]);
    assert_eq!(global.fault_handler(63).restore, vec![58, 63]);
    let response = global.fault_handler(150);
    assert_eq!(response.restore, vec![63, 150]);
    assert_eq!(response.revoke, vec![150..4335, 59..60, 44..46]);
    assert_eq!(global.fault_handler(150).restore, vec![150, 150]);
}

#[test]
fn counter_needs_room_for_two_more() {
    let mut global = GlobalState::new(false);
    for page in [54, 58, 63, 150] {
        let _ = global.fault_handler(page);
    }
    assert!(global.can_fault());
}

#[test]
fn reports_are_ignored_by_the_fault_handler_mode() {
    let mut global = GlobalState::new(false);
    global.set_mode(true, false);
    ocall_next_row(&mut global);
    ocall_next_row(&mut global);
    ocall_all_zero(&mut global);
    ocall_idct_islow(&mut global);
    assert_eq!(global.reconstruct().raw_reconstruction(), &vec![vec![Vec::<usize>::new()]]);
}

#[test]
fn reports_drive_the_reconstruction() {
    let mut global = GlobalState::new(false);
    global.set_mode(false, false);
    // The first report of a row is passed over.
    ocall_next_row(&mut global);
    assert_eq!(global.reconstruct().current_row(), 0);
    for _ in 0..3 {
        ocall_all_zero(&mut global);
    }
    ocall_idct_islow(&mut global);
    ocall_idct_islow(&mut global);
    ocall_next_row(&mut global);
    ocall_all_zero(&mut global);
    ocall_idct_islow(&mut global);
    assert_eq!(
        global.reconstruct().raw_reconstruction(),
        &vec![vec![vec![3, 0], vec![1]]]
    );
}
