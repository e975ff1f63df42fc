use substrate_lite::multistream_select::{Config, Error, InProgress, Negotiation};
use substrate_lite::leb128::FramedError;

fn line(text: &str) -> Vec<u8> {
    let mut frame = vec![text.len() as u8 + 1];
    frame.extend_from_slice(text.as_bytes());
    frame.push(b'\n');
    frame
}

fn dialer(protocol: &str) -> InProgress {
    InProgress::new(Config::Dialer { requested_protocol: protocol.to_string() })
}

fn listener(protocols: &[&str]) -> InProgress {
    InProgress::new(Config::Listener {
        supported_protocols: protocols.iter().map(|p| p.to_string()).collect(),
    })
}

fn in_progress(step: Result<(Negotiation, usize, Vec<u8>), Error>) -> (InProgress, usize, Vec<u8>) {
    match step {
        Ok((Negotiation::InProgress(negotiation), read, out)) => (negotiation, read, out),
        _ => panic!("the negotiation should be in progress"),
    }
}

#[test]
fn dialer_opens_with_its_handshake_and_its_request() {
    let (_, read, out) = in_progress(dialer("/x/req").read_write_vec(&[]));
    assert_eq!(read, 0);
    let mut expected = line("/multistream/1.0.0");
    expected.extend(line("/x/req"));
    assert_eq!(out, expected);
    assert_eq!(out[0], 19);
    assert_eq!(out[20], 7);
}

#[test]
fn listener_opens_with_its_handshake_only() {
    let (_, read, out) = in_progress(listener(&["/x/req"]).read_write_vec(&[]));
    assert_eq!(read, 0);
    assert_eq!(out, line("/multistream/1.0.0"));
}

#[test]
fn opening_is_sent_only_once() {
    let (negotiation, _, _) = in_progress(dialer("/x/req").read_write_vec(&[]));
    let (_, read, out) = in_progress(negotiation.read_write_vec(&[]));
    assert_eq!(read, 0);
    assert!(out.is_empty());
}

#[test]
fn listener_accepts_a_protocol_that_it_supports() {
    let (_, _, opening) = in_progress(dialer("/x/b").read_write_vec(&[]));
    match listener(&["/x/a", "/x/b"]).read_write_vec(&opening) {
        Ok((Negotiation::Success(protocol), read, out)) => {
            assert_eq!(protocol, "/x/b");
            assert_eq!(read, opening.len());
            let mut expected = line("/multistream/1.0.0");
            expected.extend(line("/x/b"));
            assert_eq!(out, expected);
        }
        _ => panic!("the listener should accept"),
    }
}

#[test]
fn listener_declines_a_protocol_that_it_does_not_support() {
    let (_, _, opening) = in_progress(dialer("/x/nope").read_write_vec(&[]));
    match listener(&["/x/a", "/x/b"]).read_write_vec(&opening) {
        Ok((Negotiation::NotAvailable, read, out)) => {
            assert_eq!(read, opening.len());
            let mut expected = line("/multistream/1.0.0");
            expected.extend(line("na"));
            assert_eq!(out, expected);
        }
        _ => panic!("the listener should decline"),
    }
}

#[test]
fn dialer_concludes_on_the_answer_of_the_listener() {
    let (negotiation, _, opening) = in_progress(dialer("/x/b").read_write_vec(&[]));
    let answer = match listener(&["/x/a", "/x/b"]).read_write_vec(&opening) {
        Ok((_, _, out)) => out,
        Err(_) => panic!("the listener should answer"),
    };
    match negotiation.read_write_vec(&answer) {
        Ok((Negotiation::Success(protocol), read, out)) => {
            assert_eq!(protocol, "/x/b");
            assert_eq!(read, answer.len());
            assert!(out.is_empty());
        }
        _ => panic!("the dialer should succeed"),
    }
}

#[test]
fn dialer_learns_that_the_protocol_is_not_available() {
    let (negotiation, _, opening) = in_progress(dialer("/x/nope").read_write_vec(&[]));
    let answer = match listener(&["/x/a"]).read_write_vec(&opening) {
        Ok((_, _, out)) => out,
        Err(_) => panic!("the listener should answer"),
    };
    assert!(matches!(
        negotiation.read_write_vec(&answer),
        Ok((Negotiation::NotAvailable, _, _))
    ));
}

#[test]
fn concluding_line_leaves_what_follows_it() {
    let (_, _, mut opening) = in_progress(dialer("/x/a").read_write_vec(&[]));
    opening.extend_from_slice(&[0x02, 0xde, 0xad]);
    match listener(&["/x/a"]).read_write_vec(&opening) {
        Ok((Negotiation::Success(_), read, _)) => assert_eq!(read, opening.len() - 3),
        _ => panic!("the listener should accept"),
    }
}

#[test]
fn negotiation_goes_on_across_pieces_of_any_size() {
    let (_, _, opening) = in_progress(dialer("/x/a").read_write_vec(&[]));
    let mut negotiation = listener(&["/x/a"]);
    let mut sent = Vec::new();
    for (i, byte) in opening.iter().enumerate() {
        match negotiation.read_write_vec(&[*byte]) {
            Ok((Negotiation::InProgress(next), read, out)) => {
                assert!(i + 1 < opening.len());
                assert_eq!(read, 1);
                sent.extend(out);
                negotiation = next;
            }
            Ok((Negotiation::Success(protocol), read, out)) => {
                assert_eq!(i + 1, opening.len());
                assert_eq!(read, 1);
                assert_eq!(protocol, "/x/a");
                sent.extend(out);
                let mut expected = line("/multistream/1.0.0");
                expected.extend(line("/x/a"));
                assert_eq!(sent, expected);
                return;
            }
            _ => panic!("the negotiation should go on"),
        }
    }
    panic!("the negotiation should have concluded");
}

#[test]
fn wrong_handshake_is_an_error() {
    let result = listener(&["/x/a"]).read_write_vec(&line("/multistream/2.0.0"));
    assert!(matches!(result, Err(Error::BadHandshake)));
}

#[test]
fn unexpected_answer_is_an_error() {
    let (negotiation, _, _) = in_progress(dialer("/x/a").read_write_vec(&[]));
    let mut answer = line("/multistream/1.0.0");
    answer.extend(line("/x/b"));
    assert!(matches!(
        negotiation.read_write_vec(&answer),
        Err(Error::UnexpectedProtocolRequestAnswer)
    ));
}

#[test]
fn line_above_the_limit_is_an_error() {
    let result = listener(&["/x/a"]).read_write_vec(&[0x81, 0x04]);
    assert!(matches!(result, Err(Error::Frame(FramedError::FrameTooLarge))));
}

#[test]
fn first_of_two_equal_names_is_the_one_agreed_on() {
    let (_, _, opening) = in_progress(dialer("/x/a").read_write_vec(&[]));
    match listener(&["/x/a", "/x/a"]).read_write_vec(&opening) {
        Ok((Negotiation::Success(protocol), _, _)) => assert_eq!(protocol, "/x/a"),
        _ => panic!("the listener should accept"),
    }
}

#[test]
fn every_cut_of_the_answer_gives_the_same_conclusion() {
    let mut answer = line("/multistream/1.0.0");
    answer.extend(line("/x/a"));
    answer.extend_from_slice(&[0xde, 0xad]);
    for cut in 0..answer.len() - 2 {
        let (negotiation, _, _) = in_progress(dialer("/x/a").read_write_vec(&[]));
        let (negotiation, read, out) = in_progress(negotiation.read_write_vec(&answer[..cut]));
        assert_eq!(read, cut);
        assert!(out.is_empty());
        match negotiation.read_write_vec(&answer[cut..]) {
            Ok((Negotiation::Success(protocol), read, out)) => {
                assert_eq!(protocol, "/x/a");
                assert_eq!(cut + read, answer.len() - 2);
                assert!(out.is_empty());
            }
            _ => panic!("the dialer should succeed"),
        }
    }
}
