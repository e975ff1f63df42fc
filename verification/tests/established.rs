use substrate_lite::established::{
    Config, ConnectionPrototype, Established, Event, IncomingDataDetail, RequestError,
    SubstreamId, SUBSTREAMS_CAPACITY, TIMEOUT,
};
use substrate_lite::substream::Action;

const PING: &str = "/ipfs/ping/1.0.0";

fn line(text: &str) -> Vec<u8> {
    let mut frame = vec![text.len() as u8 + 1];
    frame.extend_from_slice(text.as_bytes());
    frame.push(b'\n');
    frame
}

fn opening(protocol: &str) -> Vec<u8> {
    let mut bytes = line("/multistream/1.0.0");
    bytes.extend(line(protocol));
    bytes
}

fn connection(is_initiator: bool) -> Established<u32, ()> {
    ConnectionPrototype::from_noise_yamux(is_initiator).into_connection(Config {
        in_request_protocols: vec!["/x/req".to_string()],
        in_notifications_protocols: vec!["/x/notif".to_string()],
        ping_protocol: PING.to_string(),
        randomness_seed: (1, 2),
    })
}

fn name_of(connection: &Established<u32, ()>, id: SubstreamId) -> Option<&'static str> {
    connection.substream(id).and_then(|state| state.name())
}

fn written(actions: &[Action]) -> Vec<u8> {
    let mut bytes = Vec::new();
    for action in actions {
        if let Action::Write(data) = action {
            bytes.extend_from_slice(data);
        }
    }
    bytes
}

/// Hands the data to the substream, and returns the connection with what was
/// written in return and the event.
fn deliver(
    connection: Established<u32, ()>,
    id: SubstreamId,
    data: &[u8],
) -> (Established<u32, ()>, Vec<u8>, Option<Event<u32, ()>>) {
    let outcome = connection.substream_data(id, data).expect("a defined transition");
    let bytes = written(&outcome.actions);
    (outcome.connection, bytes, outcome.event)
}

#[test]
fn timeout_is_twenty_seconds() {
    assert_eq!(TIMEOUT, 20_000);
}

#[test]
fn new_connection_has_no_substream_and_no_timeout() {
    let connection = connection(true);
    assert_eq!(connection.substream_ids().len(), 0);
    assert_eq!(connection.wake_up_after(), None);
    assert!(!connection.contains(SubstreamId(1)));
    assert!(connection.substream_ids().is_empty());
}

#[test]
fn multiplexer_is_configured_from_the_prototype_and_the_seed() {
    let config = connection(true).multiplexer_config();
    assert!(config.is_initiator);
    assert_eq!(config.capacity, 64);
    assert_eq!(config.capacity, SUBSTREAMS_CAPACITY);
    assert_eq!(config.randomness_seed, (1, 2));
    assert!(!connection(false).multiplexer_config().is_initiator);
}

#[test]
fn add_request_opens_the_negotiation_and_sets_the_timeout() {
    let mut dialer = connection(true);
    let out = dialer.add_request(SubstreamId(1), 1_000, "/x/req".to_string(), vec![0xde, 0xad], 42);
    assert_eq!(out, opening("/x/req"));
    assert!(dialer.contains(SubstreamId(1)));
    assert_eq!(dialer.substream_ids().len(), 1);
    assert_eq!(dialer.wake_up_after(), Some(21_000));
    assert_eq!(name_of(&dialer, SubstreamId(1)), Some("request-out"));
}

#[test]
fn timeout_is_lowered_and_never_raised() {
    let mut dialer = connection(true);
    dialer.add_request(SubstreamId(1), 5_000, "/x/req".to_string(), vec![], 1);
    assert_eq!(dialer.wake_up_after(), Some(25_000));
    dialer.add_request(SubstreamId(3), 9_000, "/x/req".to_string(), vec![], 2);
    assert_eq!(dialer.wake_up_after(), Some(25_000));
    dialer.open_notifications_substream(SubstreamId(5), 1_000, "/x/notif".to_string(), vec![]);
    assert_eq!(dialer.wake_up_after(), Some(21_000));
    assert_eq!(dialer.substream_ids(), vec![SubstreamId(1), SubstreamId(3), SubstreamId(5)]);
}

#[test]
fn open_notifications_substream_opens_the_negotiation() {
    let mut dialer = connection(true);
    let out =
        dialer.open_notifications_substream(SubstreamId(1), 0, "/x/notif".to_string(), vec![1]);
    assert_eq!(out, opening("/x/notif"));
    assert_eq!(dialer.wake_up_after(), Some(20_000));
    assert_eq!(name_of(&dialer, SubstreamId(1)), None);
}

#[test]
fn request_succeeds_between_a_dialer_and_a_listener() {
    let id = SubstreamId(1);
    let mut dialer = connection(true);
    let mut listener = connection(false);
    let sent = dialer.add_request(id, 1_000, "/x/req".to_string(), vec![0xde, 0xad], 42);
    listener.accept_substream(id);
    assert_eq!(name_of(&listener, id), Some("incoming-negotiating"));

    let (listener, answer, event) = deliver(listener, id, &sent);
    assert!(event.is_none());
    assert_eq!(answer, opening("/x/req"));
    assert_eq!(name_of(&listener, id), Some("request-in"));

    let outcome = dialer.substream_data(id, &answer).unwrap();
    assert!(outcome.event.is_none());
    assert_eq!(
        outcome.actions,
        vec![
            Action::Write(vec![]),
            Action::Write(vec![0x02]),
            Action::Write(vec![0xde, 0xad]),
            Action::Close
        ]
    );
    let dialer = outcome.connection;
    assert_eq!(name_of(&dialer, id), Some("request-out"));

    let (listener, nothing, event) = deliver(listener, id, &[0x02, 0xde, 0xad]);
    assert!(nothing.is_empty());
    assert!(event.is_none());
    assert_eq!(name_of(&listener, id), Some("request-in"));

    let (dialer, _, event) = deliver(dialer, id, &[0x02, 0xbe, 0xef]);
    match event {
        Some(Event::Response { response, id: reported, user_data }) => {
            assert_eq!(response, Ok(vec![0xbe, 0xef]));
            assert_eq!(reported, id);
            assert_eq!(user_data, 42);
        }
        _ => panic!("the response should be reported"),
    }
    assert_eq!(dialer.wake_up_after(), Some(21_000));
    assert_eq!(name_of(&dialer, id), Some("incoming-negotiation-failed"));
}

#[test]
fn request_times_out_exactly_once() {
    let id = SubstreamId(1);
    let mut dialer = connection(true);
    dialer.add_request(id, 1_000, "/x/req".to_string(), vec![0xde, 0xad], 42);
    assert!(dialer.update_now(1_000).is_none());
    assert!(dialer.update_now(20_999).is_none());
    assert!(dialer.contains(id));
    match dialer.update_now(21_000) {
        Some(Event::Response { response, id: reported, user_data }) => {
            assert_eq!(response, Err(RequestError::Timeout));
            assert_eq!(reported, id);
            assert_eq!(user_data, 42);
        }
        _ => panic!("the timeout should be reported"),
    }
    assert!(!dialer.contains(id));
    assert_eq!(dialer.wake_up_after(), None);
    assert!(dialer.update_now(21_000).is_none());
    assert!(dialer.update_now(50_000).is_none());
    assert!(dialer.substream_reset(id).is_none());
    assert!(dialer.substream_data(id, &[1]).is_none());
}

#[test]
fn request_times_out_after_its_negotiation_too() {
    let id = SubstreamId(1);
    let mut dialer = connection(true);
    dialer.add_request(id, 1_000, "/x/req".to_string(), vec![0xde, 0xad], 42);
    let (mut dialer, _, event) = deliver(dialer, id, &opening("/x/req"));
    assert!(event.is_none());
    assert!(matches!(
        dialer.update_now(30_000),
        Some(Event::Response { response: Err(RequestError::Timeout), user_data: 42, .. })
    ));
}

#[test]
fn timeouts_are_reported_one_at_a_time_oldest_first() {
    let mut dialer = connection(true);
    dialer.add_request(SubstreamId(1), 3_000, "/x/req".to_string(), vec![], 1);
    dialer.add_request(SubstreamId(3), 1_000, "/x/req".to_string(), vec![], 2);
    dialer.add_request(SubstreamId(5), 2_000, "/x/req".to_string(), vec![], 3);
    assert_eq!(dialer.wake_up_after(), Some(21_000));
    assert!(matches!(
        dialer.update_now(22_500),
        Some(Event::Response { id: SubstreamId(3), user_data: 2, .. })
    ));
    assert_eq!(dialer.wake_up_after(), Some(22_000));
    assert!(matches!(
        dialer.update_now(22_500),
        Some(Event::Response { id: SubstreamId(5), user_data: 3, .. })
    ));
    assert_eq!(dialer.wake_up_after(), Some(23_000));
    assert!(dialer.update_now(22_500).is_none());
    assert_eq!(dialer.wake_up_after(), Some(23_000));
    assert_eq!(dialer.substream_ids(), vec![SubstreamId(1)]);
}

#[test]
fn stale_timeout_is_recomputed_when_reached() {
    let id = SubstreamId(1);
    let mut dialer = connection(true);
    dialer.add_request(id, 1_000, "/x/req".to_string(), vec![], 42);
    dialer.add_request(SubstreamId(3), 5_000, "/x/req".to_string(), vec![], 43);
    let mut data = opening("/x/req");
    data.extend_from_slice(&[0x00]);
    let (mut dialer, _, event) = deliver(dialer, id, &data);
    assert!(matches!(event, Some(Event::Response { response: Ok(_), user_data: 42, .. })));
    assert_eq!(dialer.wake_up_after(), Some(21_000));
    assert!(dialer.update_now(21_000).is_none());
    assert_eq!(dialer.wake_up_after(), Some(25_000));
}

#[test]
fn notifications_substream_does_not_time_out() {
    let mut dialer = connection(true);
    dialer.open_notifications_substream(SubstreamId(1), 0, "/x/notif".to_string(), vec![1]);
    assert_eq!(dialer.wake_up_after(), Some(20_000));
    assert!(dialer.update_now(20_000).is_none());
    assert!(dialer.contains(SubstreamId(1)));
    assert_eq!(dialer.wake_up_after(), None);
}

#[test]
fn protocol_not_available_is_reported() {
    let id = SubstreamId(1);
    let mut dialer = connection(true);
    let mut listener = connection(false);
    let sent = dialer.add_request(id, 0, "/x/nope".to_string(), vec![0xde, 0xad], 42);
    listener.accept_substream(id);
    let outcome = listener.substream_data(id, &sent).unwrap();
    assert!(outcome.event.is_none());
    assert_eq!(outcome.actions.len(), 2);
    assert_eq!(outcome.actions[1], Action::Close);
    assert_eq!(name_of(&outcome.connection, id), Some("incoming-negotiation-failed"));
    let answer = written(&outcome.actions);

    let outcome = dialer.substream_data(id, &answer).unwrap();
    assert_eq!(outcome.actions, vec![Action::Reset]);
    assert!(matches!(
        outcome.event,
        Some(Event::Response {
            response: Err(RequestError::ProtocolNotAvailable),
            id: SubstreamId(1),
            user_data: 42,
        })
    ));
    assert!(!outcome.connection.contains(id));
}

#[test]
fn reset_of_a_request_is_reported_exactly_once() {
    let id = SubstreamId(1);
    let mut dialer = connection(true);
    dialer.add_request(id, 0, "/x/req".to_string(), vec![0xde, 0xad], 42);
    match dialer.substream_reset(id) {
        Some(Event::Response { response, id: reported, user_data }) => {
            assert_eq!(response, Err(RequestError::SubstreamReset));
            assert_eq!(reported, id);
            assert_eq!(user_data, 42);
        }
        _ => panic!("the reset should be reported"),
    }
    assert!(!dialer.contains(id));
    assert!(dialer.substream_reset(id).is_none());
    assert_eq!(dialer.wake_up_after(), Some(20_000));
}

#[test]
fn reset_of_a_request_that_waits_for_its_response_is_reported() {
    let id = SubstreamId(1);
    let mut dialer = connection(true);
    dialer.add_request(id, 0, "/x/req".to_string(), vec![0xde, 0xad], 42);
    let (mut dialer, _, _) = deliver(dialer, id, &opening("/x/req"));
    assert!(matches!(
        dialer.substream_reset(id),
        Some(Event::Response { response: Err(RequestError::SubstreamReset), user_data: 42, .. })
    ));
}

#[test]
fn reset_of_another_substream_reports_nothing() {
    let mut listener = connection(false);
    listener.accept_substream(SubstreamId(2));
    assert!(listener.substream_reset(SubstreamId(2)).is_none());
    assert!(!listener.contains(SubstreamId(2)));

    listener.accept_substream(SubstreamId(4));
    let (mut listener, _, _) = deliver(listener, SubstreamId(4), &opening(PING));
    assert_eq!(name_of(&listener, SubstreamId(4)), Some("ping-in"));
    assert!(listener.substream_reset(SubstreamId(4)).is_none());

    let mut dialer = connection(true);
    dialer.open_notifications_substream(SubstreamId(1), 0, "/x/notif".to_string(), vec![1]);
    assert!(dialer.substream_reset(SubstreamId(1)).is_none());
    assert!(!dialer.contains(SubstreamId(1)));
}

#[test]
fn notifications_opening_is_reported_to_the_listener() {
    let id = SubstreamId(1);
    let mut dialer = connection(true);
    let mut listener = connection(false);
    let sent = dialer.open_notifications_substream(id, 0, "/x/notif".to_string(), vec![0x01]);
    listener.accept_substream(id);
    let (listener, answer, event) = deliver(listener, id, &sent);
    assert!(event.is_none());
    assert_eq!(name_of(&listener, id), Some("notifications-in"));

    let (_, handshake, event) = deliver(dialer, id, &answer);
    assert!(event.is_none());
    assert_eq!(handshake, vec![0x01, 0x01]);

    let (listener, _, event) = deliver(listener, id, &handshake);
    match event {
        Some(Event::NotificationsInOpen { id: reported, protocol, handshake }) => {
            assert_eq!(reported, id);
            assert_eq!(protocol, "/x/notif");
            assert_eq!(handshake, vec![0x01]);
        }
        _ => panic!("the opening should be reported"),
    }
    assert_eq!(name_of(&listener, id), None);
    assert!(listener.contains(id));
}

#[test]
fn ping_is_echoed_without_any_event() {
    let id = SubstreamId(1);
    let mut listener = connection(false);
    listener.accept_substream(id);
    let (listener, answer, event) = deliver(listener, id, &opening(PING));
    assert!(event.is_none());
    assert_eq!(answer, opening(PING));
    let ping: Vec<u8> = (0x00..=0x1f).collect();
    let (listener, echo, event) = deliver(listener, id, &ping[..20]);
    assert!(event.is_none());
    assert!(echo.is_empty());
    let (listener, echo, event) = deliver(listener, id, &ping[20..]);
    assert!(event.is_none());
    assert_eq!(echo, ping);
    assert_eq!(name_of(&listener, id), Some("ping-in"));
}

#[test]
fn listener_offers_requests_then_notifications_then_ping() {
    for protocol in ["/x/req", "/x/notif", PING] {
        let mut listener = connection(false);
        listener.accept_substream(SubstreamId(2));
        let (_, answer, _) = deliver(listener, SubstreamId(2), &opening(protocol));
        assert_eq!(answer, opening(protocol));
    }
    let mut listener = connection(false);
    listener.accept_substream(SubstreamId(2));
    let (_, answer, _) = deliver(listener, SubstreamId(2), &opening("/x/other"));
    assert_eq!(answer, opening("na"));
}

#[test]
fn data_on_an_unknown_substream_is_not_taken() {
    assert!(connection(true).substream_data(SubstreamId(9), &[1, 2, 3]).is_none());
}

#[test]
fn substreams_keep_their_place() {
    let mut listener = connection(false);
    listener.accept_substream(SubstreamId(2));
    listener.accept_substream(SubstreamId(4));
    listener.accept_substream(SubstreamId(6));
    let (listener, _, _) = deliver(listener, SubstreamId(4), &opening(PING));
    assert_eq!(listener.substream_ids(), vec![SubstreamId(2), SubstreamId(4), SubstreamId(6)]);
    let (listener, _, _) = deliver(listener, SubstreamId(2), &line("garbage"));
    assert_eq!(listener.substream_ids(), vec![SubstreamId(4), SubstreamId(6)]);
    assert_eq!(name_of(&listener, SubstreamId(4)), Some("ping-in"));
    assert_eq!(name_of(&listener, SubstreamId(6)), Some("incoming-negotiating"));
}

#[test]
fn round_with_nothing_found_consumes_and_goes_on() {
    let round = connection(false).incoming_data(None, 12, &[0; 20]).unwrap();
    assert_eq!(round.consume, 12);
    assert!(round.proceed);
    assert!(round.actions.is_empty());
    assert!(round.event.is_none());
    assert_eq!(round.substream, None);
}

#[test]
fn round_with_nothing_found_and_nothing_read_stops() {
    let round = connection(false).incoming_data(None, 0, &[0; 20]).unwrap();
    assert_eq!(round.consume, 0);
    assert!(!round.proceed);
    assert_eq!(round.connection.substream_ids().len(), 0);
}

#[test]
fn round_with_an_incoming_substream_accepts_it() {
    let detail = IncomingDataDetail::IncomingSubstream { substream_id: SubstreamId(2) };
    let round = connection(false).incoming_data(Some(detail), 12, &[0; 12]).unwrap();
    assert_eq!(round.actions, vec![Action::Accept]);
    assert_eq!(round.substream, Some(SubstreamId(2)));
    assert_eq!(round.consume, 12);
    assert!(round.proceed);
    assert_eq!(name_of(&round.connection, SubstreamId(2)), Some("incoming-negotiating"));
    assert!(round.connection.incoming_data(Some(detail), 12, &[0; 12]).is_none());
}

#[test]
fn round_with_a_data_frame_hands_the_frame_to_its_substream() {
    let id = SubstreamId(2);
    let mut listener = connection(false);
    listener.accept_substream(id);
    let mut decoded = vec![0u8; 12];
    decoded.extend(opening(PING));
    decoded.extend_from_slice(&[0xff; 5]);
    let end = decoded.len() - 5;
    let detail = IncomingDataDetail::DataFrame { start_offset: 12, substream_id: id };
    let round = listener.incoming_data(Some(detail), end, &decoded).unwrap();
    assert_eq!(written(&round.actions), opening(PING));
    assert_eq!(round.substream, Some(id));
    assert_eq!(round.consume, end);
    assert!(round.proceed);
    assert!(round.event.is_none());
    assert_eq!(name_of(&round.connection, id), Some("ping-in"));
}

#[test]
fn round_with_an_event_consumes_nothing_and_stops() {
    let id = SubstreamId(1);
    let mut dialer = connection(true);
    dialer.add_request(id, 0, "/x/nope".to_string(), vec![], 42);
    let decoded = opening("na");
    let detail = IncomingDataDetail::DataFrame { start_offset: 0, substream_id: id };
    let round = dialer.incoming_data(Some(detail), decoded.len(), &decoded).unwrap();
    assert!(matches!(
        round.event,
        Some(Event::Response { response: Err(RequestError::ProtocolNotAvailable), .. })
    ));
    assert_eq!(round.consume, 0);
    assert!(!round.proceed);
}

#[test]
fn round_with_a_reset_reports_the_request_and_consumes_nothing() {
    let id = SubstreamId(1);
    let mut dialer = connection(true);
    dialer.add_request(id, 0, "/x/req".to_string(), vec![], 42);
    let detail = IncomingDataDetail::StreamReset { substream_id: id };
    let round = dialer.incoming_data(Some(detail), 12, &[0; 12]).unwrap();
    assert!(matches!(
        round.event,
        Some(Event::Response { response: Err(RequestError::SubstreamReset), user_data: 42, .. })
    ));
    assert_eq!(round.consume, 0);
    assert!(!round.proceed);
    let round = round.connection.incoming_data(Some(detail), 12, &[0; 12]).unwrap();
    assert!(round.event.is_none());
    assert_eq!(round.consume, 0);
    assert!(round.proceed);
}

#[test]
fn round_with_a_frame_outside_the_decoded_data_cannot_go_on() {
    let id = SubstreamId(2);
    let mut listener = connection(false);
    listener.accept_substream(id);
    let detail = IncomingDataDetail::DataFrame { start_offset: 5, substream_id: id };
    assert!(listener.incoming_data(Some(detail), 4, &[0; 12]).is_none());
    let mut listener = connection(false);
    listener.accept_substream(id);
    let detail = IncomingDataDetail::DataFrame { start_offset: 0, substream_id: id };
    assert!(listener.incoming_data(Some(detail), 13, &[0; 12]).is_none());
}

#[test]
fn idle_round_is_a_fixed_point() {
    let id = SubstreamId(2);
    let mut listener = connection(false);
    listener.accept_substream(id);
    let detail = IncomingDataDetail::DataFrame { start_offset: 0, substream_id: id };
    let mut connection = listener;
    for _ in 0..3 {
        let round = connection.incoming_data(Some(detail), 0, &[]).unwrap();
        assert!(round.event.is_none());
        assert!(round.actions.is_empty());
        assert_eq!(round.consume, 0);
        assert!(!round.proceed);
        connection = round.connection;
        assert_eq!(name_of(&connection, id), Some("incoming-negotiating"));
        assert!(connection.update_now(5).is_none());
    }
}

#[test]
fn substreams_can_be_looked_at() {
    let mut dialer = connection(true);
    dialer.add_request(SubstreamId(1), 7, "/x/req".to_string(), vec![1], 42);
    let state = dialer.substream(SubstreamId(1)).unwrap();
    assert_eq!(state.request_user_data(), Some(&42));
    assert_eq!(state.deadline(), Some(20_007));
    assert_eq!(state.protocol(), None);
    assert!(dialer.substream(SubstreamId(3)).is_none());

    let mut listener = connection(false);
    listener.accept_substream(SubstreamId(2));
    let (listener, _, _) = deliver(listener, SubstreamId(2), &opening("/x/notif"));
    let state = listener.substream(SubstreamId(2)).unwrap();
    assert_eq!(state.protocol(), Some(&"/x/notif".to_string()));
    assert_eq!(state.request_user_data(), None);
}
