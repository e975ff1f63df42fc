use substrate_lite::ping::{receive, PingPayload, PAYLOAD_SIZE};

#[test]
fn payload_size_is_32_bytes() {
    assert_eq!(PAYLOAD_SIZE, 32);
}

#[test]
fn a_whole_payload_is_sent_back() {
    let mut payload = PingPayload::new();
    let data: Vec<u8> = (0..32).collect();
    let echoes = receive(&mut payload, &data);
    assert_eq!(echoes, vec![data]);
    assert_eq!(payload.len(), 0);
}

#[test]
fn a_partial_payload_is_kept() {
    let mut payload = PingPayload::new();
    let echoes = receive(&mut payload, &[1, 2, 3]);
    assert!(echoes.is_empty());
    assert_eq!(payload.len(), 3);
}

#[test]
fn pieces_are_put_together() {
    let data: Vec<u8> = (0..32).collect();
    let mut payload = PingPayload::new();
    assert!(receive(&mut payload, &data[..10]).is_empty());
    assert!(receive(&mut payload, &data[10..31]).is_empty());
    assert_eq!(payload.len(), 31);
    assert_eq!(receive(&mut payload, &data[31..]), vec![data]);
    assert_eq!(payload.len(), 0);
}

#[test]
fn several_payloads_come_back_in_order() {
    let data: Vec<u8> = (0..100).collect();
    let mut payload = PingPayload::new();
    let echoes = receive(&mut payload, &data);
    assert_eq!(echoes, vec![data[0..32].to_vec(), data[32..64].to_vec(), data[64..96].to_vec()]);
    assert_eq!(payload.len(), 4);
    let more: Vec<u8> = (100..128).collect();
    let echoes = receive(&mut payload, &more);
    let expected: Vec<u8> = (96..128).collect();
    assert_eq!(echoes, vec![expected]);
    assert_eq!(payload.len(), 0);
}

#[test]
fn every_cut_of_a_stream_gives_the_same_echoes() {
    let stream: Vec<u8> = (0..96).map(|i| (i * 7 % 256) as u8).collect();
    for cut in 0..=stream.len() {
        let mut payload = PingPayload::new();
        let mut echoes = receive(&mut payload, &stream[..cut]);
        echoes.extend(receive(&mut payload, &stream[cut..]));
        let echoed: Vec<u8> = echoes.concat();
        assert_eq!(echoes.len(), 3);
        assert_eq!(echoed, stream);
    }
}

#[test]
fn nothing_received_gives_nothing_back() {
    let mut payload = PingPayload::new();
    assert!(receive(&mut payload, &[]).is_empty());
    assert_eq!(payload.len(), 0);
}
