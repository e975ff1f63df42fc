use substrate_lite::established::{Event, RequestError, SubstreamId};
use substrate_lite::leb128::{Framed, FramedError};
use substrate_lite::multistream_select::{Config, Error, InProgress, Negotiation};
use substrate_lite::ping::PingPayload;
use substrate_lite::substream::{Action, Outcome, Substream, MAX_FRAME_SIZE};

const ID: SubstreamId = SubstreamId(7);

fn line(text: &str) -> Vec<u8> {
    let mut frame = vec![text.len() as u8 + 1];
    frame.extend_from_slice(text.as_bytes());
    frame.push(b'\n');
    frame
}

fn names(list: &[&str]) -> Vec<String> {
    list.iter().map(|name| name.to_string()).collect()
}

fn dial(protocol: &str) -> (InProgress, Vec<u8>) {
    let negotiation = InProgress::new(Config::Dialer { requested_protocol: protocol.to_string() });
    match negotiation.read_write_vec(&[]) {
        Ok((Negotiation::InProgress(negotiation), _, out)) => (negotiation, out),
        _ => panic!("a dialer starts in progress"),
    }
}

fn inbound(offered: &[&str]) -> Substream<u32> {
    Substream::InboundNegotiating(InProgress::new(Config::Listener {
        supported_protocols: names(offered),
    }))
}

fn inject(
    substream: Substream<u32>,
    data: &[u8],
    requests: &[&str],
) -> Option<Outcome<u32, ()>> {
    substream.inject_data::<()>(ID, data, &names(requests), &"/ipfs/ping/1.0.0".to_string())
}

fn written(actions: &[Action]) -> Vec<u8> {
    let mut bytes = Vec::new();
    for action in actions {
        if let Action::Write(data) = action {
            bytes.extend_from_slice(data);
        }
    }
    bytes
}

#[test]
fn frame_limit_is_ten_mebibytes() {
    assert_eq!(MAX_FRAME_SIZE, 10 * 1024 * 1024);
}

#[test]
fn no_data_changes_nothing() {
    let outcome = inject(Substream::NegotiationFailed, &[], &[]).unwrap();
    assert!(outcome.actions.is_empty());
    assert!(outcome.event.is_none());
    assert_eq!(outcome.substream.unwrap().name(), Some("incoming-negotiation-failed"));
}

#[test]
fn inbound_negotiation_of_ping_leads_to_ping_in() {
    let (_, opening) = dial("/ipfs/ping/1.0.0");
    let offered = ["/x/req", "/x/notif", "/ipfs/ping/1.0.0"];
    let outcome = inject(inbound(&offered), &opening, &["/x/req"]).unwrap();
    assert!(outcome.event.is_none());
    let mut answer = line("/multistream/1.0.0");
    answer.extend(line("/ipfs/ping/1.0.0"));
    assert_eq!(outcome.actions, vec![Action::Write(answer)]);
    assert_eq!(outcome.substream.unwrap().name(), Some("ping-in"));
}

#[test]
fn ping_substream_echoes_the_payload_and_reports_nothing() {
    let (_, mut data) = dial("/ipfs/ping/1.0.0");
    let ping: Vec<u8> = (0x00..=0x1f).collect();
    data.extend_from_slice(&ping);
    let offered = ["/x/req", "/x/notif", "/ipfs/ping/1.0.0"];
    let outcome = inject(inbound(&offered), &data, &["/x/req"]).unwrap();
    assert!(outcome.event.is_none());
    assert_eq!(outcome.actions.len(), 2);
    assert_eq!(outcome.actions[1], Action::Write(ping));
    assert_eq!(outcome.substream.unwrap().name(), Some("ping-in"));
}

#[test]
fn ping_in_echoes_each_whole_payload() {
    let stream: Vec<u8> = (0..70).collect();
    let outcome = inject(Substream::PingIn(PingPayload::new()), &stream, &[]).unwrap();
    assert_eq!(
        outcome.actions,
        vec![Action::Write(stream[0..32].to_vec()), Action::Write(stream[32..64].to_vec())]
    );
    assert!(outcome.event.is_none());
    let more: Vec<u8> = (70..96).collect();
    let outcome = inject(outcome.substream.unwrap(), &more, &[]).unwrap();
    let last: Vec<u8> = (64..96).collect();
    assert_eq!(outcome.actions, vec![Action::Write(last)]);
}

#[test]
fn inbound_negotiation_of_a_request_protocol_leads_to_request_in() {
    let (_, opening) = dial("/x/req");
    let offered = ["/x/req", "/x/notif", "/ipfs/ping/1.0.0"];
    let outcome = inject(inbound(&offered), &opening, &["/x/req"]).unwrap();
    assert!(outcome.event.is_none());
    assert_eq!(outcome.substream.unwrap().name(), Some("request-in"));
}

#[test]
fn request_in_discards_what_it_receives() {
    let (_, mut data) = dial("/x/req");
    data.extend_from_slice(&[0x02, 0xde, 0xad]);
    let offered = ["/x/req", "/x/notif", "/ipfs/ping/1.0.0"];
    let outcome = inject(inbound(&offered), &data, &["/x/req"]).unwrap();
    assert!(outcome.event.is_none());
    assert_eq!(outcome.actions.len(), 1);
    assert_eq!(outcome.substream.unwrap().name(), Some("request-in"));
}

#[test]
fn inbound_negotiation_of_another_protocol_leads_to_notifications_in() {
    let (_, opening) = dial("/x/notif");
    let offered = ["/x/req", "/x/notif", "/ipfs/ping/1.0.0"];
    let outcome = inject(inbound(&offered), &opening, &["/x/req"]).unwrap();
    assert!(outcome.event.is_none());
    assert_eq!(outcome.substream.unwrap().name(), Some("notifications-in"));
}

#[test]
fn notifications_handshake_is_reported_once_whole() {
    let (_, mut data) = dial("/x/notif");
    data.extend_from_slice(&[0x01, 0x01]);
    let offered = ["/x/req", "/x/notif", "/ipfs/ping/1.0.0"];
    let outcome = inject(inbound(&offered), &data, &["/x/req"]).unwrap();
    match outcome.event {
        Some(Event::NotificationsInOpen { id, protocol, handshake }) => {
            assert_eq!(id, ID);
            assert_eq!(protocol, "/x/notif");
            assert_eq!(handshake, vec![0x01]);
        }
        _ => panic!("the opening should be reported"),
    }
    let waiting = outcome.substream.unwrap();
    assert_eq!(waiting.name(), None);
    let outcome = inject(waiting, &[1, 2, 3], &[]).unwrap();
    assert!(outcome.actions.is_empty());
    assert!(outcome.event.is_none());
}

#[test]
fn notifications_handshake_may_come_in_pieces() {
    let state = Substream::NotificationsInHandshake {
        handshake: Framed::new(MAX_FRAME_SIZE),
        protocol: "/x/notif".to_string(),
    };
    let outcome = inject(state, &[0x03, 0xaa], &[]).unwrap();
    assert!(outcome.event.is_none());
    assert!(outcome.actions.is_empty());
    let outcome = inject(outcome.substream.unwrap(), &[0xbb, 0xcc, 0xdd], &[]).unwrap();
    match outcome.event {
        Some(Event::NotificationsInOpen { handshake, .. }) => {
            assert_eq!(handshake, vec![0xaa, 0xbb, 0xcc])
        }
        _ => panic!("the opening should be reported"),
    }
}

#[test]
fn inbound_negotiation_of_an_unknown_protocol_fails_and_closes() {
    let (_, opening) = dial("/x/nope");
    let offered = ["/x/req", "/x/notif", "/ipfs/ping/1.0.0"];
    let outcome = inject(inbound(&offered), &opening, &["/x/req"]).unwrap();
    assert!(outcome.event.is_none());
    let mut answer = line("/multistream/1.0.0");
    answer.extend(line("na"));
    assert_eq!(outcome.actions, vec![Action::Write(answer), Action::Close]);
    let failed = outcome.substream.unwrap();
    assert_eq!(failed.name(), Some("incoming-negotiation-failed"));
    let outcome = inject(failed, &[1, 2, 3, 4], &[]).unwrap();
    assert!(outcome.actions.is_empty());
    assert!(outcome.event.is_none());
    assert_eq!(outcome.substream.unwrap().name(), Some("incoming-negotiation-failed"));
}

#[test]
fn inbound_negotiation_error_resets_the_substream_silently() {
    let outcome = inject(inbound(&["/x/req"]), &line("/multistream/9"), &[]).unwrap();
    assert_eq!(outcome.actions, vec![Action::Reset]);
    assert!(outcome.event.is_none());
    assert!(outcome.substream.is_none());
}

#[test]
fn request_is_sent_once_the_protocol_is_agreed() {
    let (negotiation, _) = dial("/x/req");
    let state = Substream::RequestOutNegotiating {
        timeout: 21_000,
        negotiation,
        request: vec![0xde, 0xad],
        user_data: 42u32,
    };
    let mut answer = line("/multistream/1.0.0");
    answer.extend(line("/x/req"));
    let outcome = inject(state, &answer, &[]).unwrap();
    assert!(outcome.event.is_none());
    assert_eq!(
        outcome.actions,
        vec![
            Action::Write(vec![]),
            Action::Write(vec![0x02]),
            Action::Write(vec![0xde, 0xad]),
            Action::Close
        ]
    );
    let waiting = outcome.substream.unwrap();
    assert_eq!(waiting.name(), Some("request-out"));
    assert_eq!(waiting.deadline(), Some(21_000));
    assert_eq!(waiting.into_request_user_data(), Some(42));
}

#[test]
fn response_is_reported_with_the_user_data() {
    let state = Substream::RequestOut {
        timeout: 21_000,
        user_data: 42u32,
        response: Framed::new(MAX_FRAME_SIZE),
    };
    let outcome = inject(state, &[0x02, 0xbe], &[]).unwrap();
    assert!(outcome.event.is_none());
    let outcome = inject(outcome.substream.unwrap(), &[0xef, 0x99], &[]).unwrap();
    match outcome.event {
        Some(Event::Response { response, id, user_data }) => {
            assert_eq!(response, Ok(vec![0xbe, 0xef]));
            assert_eq!(id, ID);
            assert_eq!(user_data, 42);
        }
        _ => panic!("the response should be reported"),
    }
    assert!(outcome.actions.is_empty());
    let after = outcome.substream.unwrap();
    assert_eq!(after.name(), Some("incoming-negotiation-failed"));
    assert_eq!(after.deadline(), None);
}

#[test]
fn request_and_response_in_one_go() {
    let (negotiation, _) = dial("/x/req");
    let state = Substream::RequestOutNegotiating {
        timeout: 21_000,
        negotiation,
        request: vec![0xde, 0xad],
        user_data: 42u32,
    };
    let mut data = line("/multistream/1.0.0");
    data.extend(line("/x/req"));
    data.extend_from_slice(&[0x02, 0xbe, 0xef]);
    let outcome = inject(state, &data, &[]).unwrap();
    assert_eq!(written(&outcome.actions), vec![0x02, 0xde, 0xad]);
    assert!(matches!(
        outcome.event,
        Some(Event::Response { response: Ok(ref bytes), user_data: 42, .. }) if *bytes == vec![0xbe, 0xef]
    ));
}

#[test]
fn protocol_not_available_fails_the_request() {
    let (negotiation, _) = dial("/x/nope");
    let state = Substream::RequestOutNegotiating {
        timeout: 21_000,
        negotiation,
        request: vec![0xde, 0xad],
        user_data: 42u32,
    };
    let mut answer = line("/multistream/1.0.0");
    answer.extend(line("na"));
    let outcome = inject(state, &answer, &[]).unwrap();
    assert_eq!(outcome.actions, vec![Action::Reset]);
    assert!(outcome.substream.is_none());
    match outcome.event {
        Some(Event::Response { response, id, user_data }) => {
            assert_eq!(response, Err(RequestError::ProtocolNotAvailable));
            assert_eq!(id, ID);
            assert_eq!(user_data, 42);
        }
        _ => panic!("the failure should be reported"),
    }
}

#[test]
fn negotiation_error_fails_the_request() {
    let (negotiation, _) = dial("/x/req");
    let state = Substream::RequestOutNegotiating {
        timeout: 21_000,
        negotiation,
        request: vec![],
        user_data: 42u32,
    };
    let outcome = inject(state, &line("hello"), &[]).unwrap();
    assert_eq!(outcome.actions, vec![Action::Reset]);
    assert!(outcome.substream.is_none());
    assert!(matches!(
        outcome.event,
        Some(Event::Response {
            response: Err(RequestError::NegotiationError(Error::BadHandshake)),
            user_data: 42,
            ..
        })
    ));
}

#[test]
fn response_with_an_invalid_length_fails_the_request() {
    let state = Substream::RequestOut {
        timeout: 21_000,
        user_data: 42u32,
        response: Framed::new(16),
    };
    let outcome = inject(state, &[0x7f], &[]).unwrap();
    assert_eq!(outcome.actions, vec![Action::Reset]);
    assert!(outcome.substream.is_none());
    assert!(matches!(
        outcome.event,
        Some(Event::Response {
            response: Err(RequestError::ResponseLebError(FramedError::FrameTooLarge)),
            user_data: 42,
            ..
        })
    ));
}

#[test]
fn notifications_handshake_is_sent_once_the_protocol_is_agreed() {
    let (negotiation, _) = dial("/x/notif");
    let state: Substream<u32> = Substream::NotificationsOutNegotiating {
        timeout: 21_000,
        negotiation,
        handshake: vec![0x01],
    };
    let mut answer = line("/multistream/1.0.0");
    answer.extend(line("/x/notif"));
    let outcome = inject(state, &answer, &[]).unwrap();
    assert!(outcome.event.is_none());
    assert_eq!(
        outcome.actions,
        vec![Action::Write(vec![]), Action::Write(vec![0x01]), Action::Write(vec![0x01])]
    );
    let waiting = outcome.substream.unwrap();
    assert_eq!(waiting.name(), None);
    assert_eq!(waiting.deadline(), None);
}

#[test]
fn no_transition_is_defined_for_a_declined_notifications_substream() {
    let (negotiation, _) = dial("/x/notif");
    let state: Substream<u32> = Substream::NotificationsOutNegotiating {
        timeout: 21_000,
        negotiation,
        handshake: vec![0x01],
    };
    let mut answer = line("/multistream/1.0.0");
    answer.extend(line("na"));
    assert!(inject(state, &answer, &[]).is_none());
}

#[test]
fn no_transition_is_defined_for_the_handshake_of_the_remote() {
    let state: Substream<u32> =
        Substream::NotificationsOutHandshakeRecv { handshake: Framed::new(MAX_FRAME_SIZE) };
    let outcome = inject(state, &[0x02, 0xaa], &[]).unwrap();
    assert!(outcome.event.is_none());
    assert!(inject(outcome.substream.unwrap(), &[0xbb], &[]).is_none());
}

#[test]
fn no_transition_is_defined_for_data_on_open_notifications() {
    assert!(inject(Substream::NotificationsOut, &[1], &[]).is_none());
    assert!(inject(Substream::RequestInSend, &[1], &[]).is_none());
    assert!(inject(Substream::Poisoned, &[1], &[]).is_none());
    assert!(inject(Substream::NotificationsOut, &[], &[]).is_some());
}

#[test]
fn names_are_those_shown_for_debugging() {
    let (negotiation, _) = dial("/x/req");
    let request: Substream<u32> = Substream::RequestOutNegotiating {
        timeout: 0,
        negotiation,
        request: vec![],
        user_data: 1,
    };
    assert_eq!(request.name(), Some("request-out"));
    assert_eq!(inbound(&[]).name(), Some("incoming-negotiating"));
    assert_eq!(Substream::<u32>::Poisoned.name(), Some("poisoned"));
    assert_eq!(Substream::<u32>::NotificationsOut.name(), Some("notifications-out"));
    assert_eq!(Substream::<u32>::NotificationsInWait.name(), None);
    assert_eq!(Substream::<u32>::RequestInSend.name(), None);
}

#[test]
fn only_requests_have_a_deadline() {
    let (negotiation, _) = dial("/x/notif");
    let notifications: Substream<u32> = Substream::NotificationsOutNegotiating {
        timeout: 5,
        negotiation,
        handshake: vec![],
    };
    assert_eq!(notifications.deadline(), None);
    assert_eq!(notifications.into_request_user_data(), None);
    let request = Substream::RequestOut {
        timeout: 5,
        user_data: 9u32,
        response: Framed::new(MAX_FRAME_SIZE),
    };
    assert_eq!(request.deadline(), Some(5));
}
