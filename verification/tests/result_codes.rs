use tapejit::execution::native::state::State;
use tapejit::execution::native::RuntimeResultCode;

#[test]
fn zero_is_success_and_one_is_io_error() {
    assert_eq!(RuntimeResultCode::try_from(0), Ok(RuntimeResultCode::Success));
    assert_eq!(RuntimeResultCode::try_from(1), Ok(RuntimeResultCode::IoError));
}

#[test]
fn other_numbers_are_no_codes() {
    assert_eq!(RuntimeResultCode::try_from(2), Err("Invalid result code"));
    assert_eq!(RuntimeResultCode::try_from(255), Err("Invalid result code"));
}

#[test]
fn only_success_is_no_error() {
    assert!(!RuntimeResultCode::Success.is_error());
    assert!(RuntimeResultCode::IoError.is_error());
}

#[test]
fn new_state_has_a_zeroed_tape() {
    let state = State::new(vec![1, 2], vec![9], 5);
    assert_eq!(state.tape, vec![0, 0, 0, 0, 0]);
    assert_eq!(state.input, vec![1, 2]);
    assert_eq!(state.output, vec![9]);
    assert_eq!(state.consumed, 0);
    assert_eq!(State::new(vec![], vec![], 0).tape.len(), 0);
}

#[test]
fn getchar_reads_one_byte_into_the_cell() {
    let mut state = State::new(vec![0x48, 0x69], vec![], 4);
    assert_eq!(state.getchar(2), 0);
    assert_eq!(state.tape, vec![0, 0, 0x48, 0]);
    assert_eq!(state.consumed, 1);
    assert_eq!(state.getchar(0), 0);
    assert_eq!(state.tape, vec![0x69, 0, 0x48, 0]);
    assert_eq!(state.consumed, 2);
}

#[test]
fn getchar_at_the_end_of_input_fails_and_changes_nothing() {
    let mut state = State::new(vec![7], vec![], 2);
    assert_eq!(state.getchar(1), 0);
    assert_eq!(state.getchar(0), 1);
    assert_eq!(state.tape, vec![0, 7]);
    assert_eq!(state.consumed, 1);
    assert_eq!(state.output, vec![]);
}

#[test]
fn putchar_writes_the_cell() {
    let mut state = State::new(vec![], vec![1], 3);
    state.tape[1] = 0x41;
    assert_eq!(state.putchar(1), 0);
    assert_eq!(state.putchar(0), 0);
    assert_eq!(state.output, vec![1, 0x41, 0]);
    assert_eq!(state.tape, vec![0, 0x41, 0]);
}
