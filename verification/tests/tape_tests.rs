use busy_beaver_rs::tape::Tape;

#[test]
fn tape_reads_unallocated_cells_as_zero() {
    let tape = Tape::new();

    assert_eq!(tape.read(0), 0);
    assert_eq!(tape.read(10), 0);
    assert_eq!(tape.read(-10), 0);
}

#[test]
fn tape_supports_positive_and_negative_positions() {
    let mut tape = Tape::new();

    tape.write(0, 1);
    tape.write(3, 1);
    tape.write(-1, 1);
    tape.write(-4, 1);

    assert_eq!(tape.read(0), 1);
    assert_eq!(tape.read(3), 1);
    assert_eq!(tape.read(-1), 1);
    assert_eq!(tape.read(-4), 1);
    assert_eq!(tape.count_ones(), 4);
}

#[test]
fn tape_write_pads_with_zeros_and_allocates_on_demand() {
    let mut tape = Tape::new();
    assert_eq!(tape.allocated_cells(), 0);

    tape.write(3, 1);
    assert_eq!(tape.allocated_cells(), 4);
    assert_eq!(tape.read(0), 0);
    assert_eq!(tape.read(2), 0);

    tape.write(-2, 1);
    assert_eq!(tape.allocated_cells(), 6);
    assert_eq!(tape.read(-1), 0);
    assert_eq!(tape.read(-2), 1);

    tape.write(1, 0);
    assert_eq!(tape.allocated_cells(), 6);
}

#[test]
fn tape_overwrite_changes_only_that_cell_and_the_count() {
    let mut tape = Tape::new();
    tape.write(0, 1);
    tape.write(1, 1);
    assert_eq!(tape.count_ones(), 2);

    tape.write(0, 0);
    assert_eq!(tape.read(0), 0);
    assert_eq!(tape.read(1), 1);
    assert_eq!(tape.count_ones(), 1);

    tape.write(1, 7);
    assert_eq!(tape.read(1), 7);
    assert_eq!(tape.count_ones(), 0);
}
