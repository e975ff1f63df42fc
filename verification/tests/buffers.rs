use substrate_lite::buffers::{Buffers, Region};

#[test]
fn buffers_start_with_nothing_read_or_written() {
    let buffers = Buffers::new(10, 4, 6).unwrap();
    assert_eq!(buffers.read_bytes(), 0);
    assert_eq!(buffers.written_bytes(), 0);
    assert_eq!(buffers.incoming_left(), 10);
    assert_eq!(buffers.outgoing_left(), 10);
    assert_eq!(
        buffers.regions(),
        (
            Region { in_second: false, start: 0, end: 4 },
            Region { in_second: true, start: 0, end: 6 }
        )
    );
}

#[test]
fn regions_too_large_together_are_refused() {
    assert!(Buffers::new(0, usize::MAX, 1).is_none());
    assert!(Buffers::new(0, usize::MAX, 0).is_some());
}

#[test]
fn reading_advances_within_what_was_received() {
    let mut buffers = Buffers::new(10, 0, 0).unwrap();
    assert!(buffers.advance_read(4));
    assert!(buffers.advance_read(0));
    assert_eq!(buffers.read_bytes(), 4);
    assert_eq!(buffers.incoming_left(), 6);
    assert!(!buffers.advance_read(7));
    assert_eq!(buffers.read_bytes(), 4);
    assert!(buffers.advance_read(6));
    assert_eq!(buffers.read_bytes(), 10);
    assert!(!buffers.advance_read(1));
}

#[test]
fn writing_fills_the_first_region_first() {
    let mut buffers = Buffers::new(0, 4, 6).unwrap();
    assert!(buffers.advance_written(3));
    assert_eq!(
        buffers.regions(),
        (
            Region { in_second: false, start: 3, end: 4 },
            Region { in_second: true, start: 0, end: 6 }
        )
    );
    assert_eq!(buffers.written_bytes(), 3);
    assert_eq!(buffers.outgoing_left(), 7);
}

#[test]
fn writing_spills_into_the_second_region_which_becomes_the_target() {
    let mut buffers = Buffers::new(0, 4, 6).unwrap();
    assert!(buffers.advance_written(6));
    assert_eq!(
        buffers.regions(),
        (
            Region { in_second: true, start: 2, end: 6 },
            Region { in_second: false, start: 4, end: 4 }
        )
    );
    assert_eq!(buffers.written_bytes(), 6);
    assert!(buffers.advance_written(4));
    assert_eq!(buffers.written_bytes(), 10);
    assert_eq!(buffers.outgoing_left(), 0);
    assert!(!buffers.advance_written(1));
    assert_eq!(buffers.written_bytes(), 10);
}

#[test]
fn filling_the_first_region_exactly_makes_the_second_the_target() {
    let mut buffers = Buffers::new(0, 4, 6).unwrap();
    assert!(buffers.advance_written(4));
    assert_eq!(
        buffers.regions(),
        (
            Region { in_second: true, start: 0, end: 6 },
            Region { in_second: false, start: 4, end: 4 }
        )
    );
}

#[test]
fn writing_more_than_there_is_room_for_is_refused() {
    let mut buffers = Buffers::new(0, 4, 6).unwrap();
    assert!(!buffers.advance_written(11));
    assert_eq!(buffers.written_bytes(), 0);
    assert_eq!(buffers.outgoing_left(), 10);
}

#[test]
fn counts_stay_within_the_buffers() {
    let mut buffers = Buffers::new(5, 3, 2).unwrap();
    for step in 0..10usize {
        buffers.advance_read(step % 3);
        buffers.advance_written(step % 4);
        assert!(buffers.read_bytes() <= 5);
        assert!(buffers.written_bytes() <= 5);
        assert_eq!(buffers.read_bytes() + buffers.incoming_left(), 5);
        assert_eq!(buffers.written_bytes() + buffers.outgoing_left(), 5);
    }
}
