use substrate_lite::leb128::{encode_usize, Framed, FramedError, MAX_LENGTH_DIGITS};

#[test]
fn encode_usize_small_values_take_one_byte() {
    assert_eq!(encode_usize(0), vec![0x00]);
    assert_eq!(encode_usize(1), vec![0x01]);
    assert_eq!(encode_usize(127), vec![0x7f]);
}

#[test]
fn encode_usize_larger_values_chain_bytes() {
    assert_eq!(encode_usize(128), vec![0x80, 0x01]);
    assert_eq!(encode_usize(300), vec![0xac, 0x02]);
    assert_eq!(encode_usize(16384), vec![0x80, 0x80, 0x01]);
    assert_eq!(encode_usize(624485), vec![0xe5, 0x8e, 0x26]);
}

#[test]
fn encode_usize_of_the_largest_value_fits_the_digit_limit() {
    let encoded = encode_usize(usize::MAX);
    assert!(encoded.len() <= MAX_LENGTH_DIGITS as usize);
    assert!(encoded[..encoded.len() - 1].iter().all(|byte| *byte >= 0x80));
    assert!(encoded[encoded.len() - 1] < 0x80);
}

#[test]
fn framed_reassembles_a_frame_fed_in_pieces() {
    let mut reader = Framed::new(16);
    assert_eq!(reader.inject_data(&[0x03, 0xaa]), Ok(2));
    assert!(!reader.is_complete());
    assert_eq!(reader.take_frame(), None);
    assert_eq!(reader.inject_data(&[0xbb, 0xcc, 0xdd]), Ok(2));
    assert!(reader.is_complete());
    assert_eq!(reader.take_frame(), Some(vec![0xaa, 0xbb, 0xcc]));
    assert_eq!(reader.inject_data(&[0x00]), Ok(1));
    assert_eq!(reader.take_frame(), Some(vec![]));
}

#[test]
fn framed_takes_nothing_while_it_holds_a_frame() {
    let mut reader = Framed::new(16);
    assert_eq!(reader.inject_data(&[0x01, 0x42, 0x01, 0x43]), Ok(2));
    assert_eq!(reader.inject_data(&[0x01, 0x43]), Ok(0));
    assert_eq!(reader.take_frame(), Some(vec![0x42]));
    assert_eq!(reader.inject_data(&[0x01, 0x43]), Ok(2));
    assert_eq!(reader.take_frame(), Some(vec![0x43]));
}

#[test]
fn framed_takes_nothing_from_no_data() {
    let mut reader = Framed::new(16);
    assert_eq!(reader.inject_data(&[]), Ok(0));
    assert_eq!(reader.take_frame(), None);
}

#[test]
fn framed_reads_a_length_prefix_of_several_bytes() {
    let payload: Vec<u8> = (0..300u32).map(|i| (i % 251) as u8).collect();
    let mut wire = encode_usize(payload.len());
    wire.extend_from_slice(&payload);
    wire.extend_from_slice(&[0xff, 0xff]);
    let mut reader = Framed::new(1024);
    assert_eq!(reader.inject_data(&wire), Ok(302));
    assert_eq!(reader.take_frame(), Some(payload));
}

#[test]
fn framed_reads_back_what_encode_usize_wrote_byte_by_byte() {
    let payload = vec![7u8; 200];
    let mut wire = encode_usize(payload.len());
    wire.extend_from_slice(&payload);
    let mut reader = Framed::new(200);
    for byte in &wire {
        assert_eq!(reader.take_frame(), None);
        assert_eq!(reader.inject_data(&[*byte]), Ok(1));
    }
    assert_eq!(reader.take_frame(), Some(payload));
}

#[test]
fn framed_accepts_a_frame_at_its_limit() {
    let mut reader = Framed::new(2);
    assert_eq!(reader.inject_data(&[0x02, 0x01, 0x02]), Ok(3));
    assert_eq!(reader.take_frame(), Some(vec![0x01, 0x02]));
}

#[test]
fn framed_rejects_a_frame_above_its_limit() {
    let mut reader = Framed::new(16);
    assert_eq!(reader.inject_data(&[0x11]), Err(FramedError::FrameTooLarge));
    let mut reader = Framed::new(16);
    assert_eq!(reader.inject_data(&[0x80, 0x01]), Err(FramedError::FrameTooLarge));
}

#[test]
fn framed_rejects_a_length_prefix_that_never_ends() {
    let mut reader = Framed::new(16);
    assert_eq!(
        reader.inject_data(&[0x80, 0x80, 0x80, 0x80, 0x80, 0x80, 0x80, 0x80, 0x80, 0x80, 0x00]),
        Err(FramedError::LengthPrefixTooLong)
    );
}

#[test]
fn framed_keeps_what_it_took_before_an_invalid_byte() {
    let mut reader = Framed::new(16);
    assert_eq!(reader.inject_data(&[0x80, 0x7f]), Err(FramedError::FrameTooLarge));
    assert_eq!(reader.inject_data(&[0x00, 0xaa]), Ok(1));
    assert_eq!(reader.take_frame(), Some(vec![]));
}

#[test]
fn every_cut_of_a_frame_gives_the_same_frame() {
    let payload: Vec<u8> = (0..150u8).collect();
    let mut wire = encode_usize(payload.len());
    wire.extend_from_slice(&payload);
    for cut in 0..=wire.len() {
        let mut reader = Framed::new(150);
        assert_eq!(reader.inject_data(&wire[..cut]), Ok(cut));
        assert_eq!(reader.inject_data(&wire[cut..]), Ok(wire.len() - cut));
        assert_eq!(reader.take_frame(), Some(payload.clone()));
    }
}
