use copy_double_buffered::step::{next_step, resolve_joined, Step};

#[test]
fn pipelined_step_targets_opposite_buffer() {
    assert_eq!(
        next_step(5, 0),
        Step::Pipelined { write_a: true, read_into_a: false }
    );
    assert_eq!(
        next_step(0, 5),
        Step::Pipelined { write_a: false, read_into_a: true }
    );
}

#[test]
fn empty_fills_finish_and_full_fills_drain() {
    assert_eq!(next_step(0, 0), Step::Done);
    assert_eq!(next_step(3, 4), Step::Drain);
}

#[test]
fn joined_outcomes_resolve_with_read_priority() {
    assert_eq!(resolve_joined::<u8>(Ok(5), Ok(())), Ok(5));
    assert_eq!(resolve_joined::<u8>(Err(1), Ok(())), Err(1));
    assert_eq!(resolve_joined::<u8>(Ok(5), Err(2)), Err(2));
    assert_eq!(resolve_joined::<u8>(Err(1), Err(2)), Err(1));
}
