//! Negotiation of the protocol spoken on a freshly opened substream.
//!
//! Both sides exchange length-prefixed lines. Each opens with the handshake
//! line; the dialer then names the protocol it asks for, and the listener
//! answers with the same line if it supports that protocol, or with `na`.
//!
//! A negotiation is a value of type [`InProgress`]. Each call of
//! [`InProgress::read_write_vec`] hands it the bytes that arrived, and yields
//! the bytes to send back together with the negotiation in its new state or
//! its conclusion.

use vstd::prelude::*;
use crate::bytes::{append_bytes, bytes_equal};
use crate::leb128::{
    encode_usize,
    frame_spec,
    lemma_feed_bounds,
    lemma_feed_in_pieces,
    lemma_feed_stops,
    lemma_frame_round_trip,
    Framed,
    FramedError,
    FramedView,
};

verus! {

/// Largest line that a negotiation accepts from the remote.
pub const MAX_FRAME_LENGTH: usize = 512;

/// The handshake line, `/multistream/1.0.0` and a line feed.
pub open spec fn handshake_line() -> Seq<u8> {
    seq![
        0x2fu8,
        0x6du8,
        0x75u8,
        0x6cu8,
        0x74u8,
        0x69u8,
        0x73u8,
        0x74u8,
        0x72u8,
        0x65u8,
        0x61u8,
        0x6du8,
        0x2fu8,
        0x31u8,
        0x2eu8,
        0x30u8,
        0x2eu8,
        0x30u8,
        0x0au8,
    ]
}

/// The line by which a listener declines a protocol, `na` and a line feed.
pub open spec fn na_line() -> Seq<u8> {
    seq![0x6eu8, 0x61u8, 0x0au8]
}

/// The line that names a protocol: its name in UTF-8 and a line feed.
pub open spec fn protocol_line(name: Seq<char>) -> Seq<u8> {
    vstd::utf8::encode_utf8(name) + seq![0x0au8]
}

/// The names held by a list of strings.
pub open spec fn names_of(list: Seq<String>) -> Seq<Seq<char>> {
    Seq::new(list.len(), |i: int| list[i]@)
}

/// Index of the first of `supported`, from `from` on, whose line is `line`.
pub open spec fn position_of(supported: Seq<Seq<char>>, line: Seq<u8>, from: nat) -> Option<nat>
    decreases supported.len() - from,
{
    if from >= supported.len() {
        None
    } else if protocol_line(supported[from as int]) == line {
        Some(from)
    } else {
        position_of(supported, line, from + 1)
    }
}

/// Role and protocols of one side of a negotiation.
pub enum Config {
    /// The side that opened the substream, and asks for one protocol.
    Dialer {
        /// Name of the protocol to ask for.
        requested_protocol: String,
    },
    /// The side that answers, and accepts any of a list of protocols.
    Listener {
        /// Names of the protocols that are accepted.
        supported_protocols: Vec<String>,
    },
}

/// Mathematical model of a [`Config`].
pub enum ConfigView {
    /// Model of [`Config::Dialer`].
    Dialer { requested: Seq<char> },
    /// Model of [`Config::Listener`].
    Listener { supported: Seq<Seq<char>> },
}

impl View for Config {
    type V = ConfigView;

    open spec fn view(&self) -> ConfigView {
        match self {
            Config::Dialer { requested_protocol } => ConfigView::Dialer {
                requested: requested_protocol@,
            },
            Config::Listener { supported_protocols } => ConfigView::Listener {
                supported: names_of(supported_protocols@),
            },
        }
    }
}

impl ConfigView {
    /// What a side sends before it has heard anything: the handshake, and for
    /// a dialer the protocol it asks for.
    pub open spec fn opening(self) -> Seq<u8> {
        match self {
            ConfigView::Dialer { requested } => frame_spec(handshake_line()) + frame_spec(
                protocol_line(requested),
            ),
            ConfigView::Listener { .. } => frame_spec(handshake_line()),
        }
    }
}

/// What a negotiation waits for.
#[derive(Debug, Clone, Copy, PartialEq, Eq, Structural)]
pub enum Stage {
    /// Nothing was sent yet.
    Start,
    /// The remote's handshake line.
    HandshakeExpected,
    /// As a listener, the line that names the protocol asked for.
    CommandExpected,
    /// As a dialer, the listener's answer.
    AnswerExpected,
}

/// Reason for which a negotiation fails.
#[derive(Debug, Clone, Copy, PartialEq, Eq, Structural)]
pub enum Error {
    /// The remote sent a line that is not well framed.
    Frame(FramedError),
    /// The remote's first line is not the handshake.
    BadHandshake,
    /// The listener answered with neither the protocol asked for nor `na`.
    UnexpectedProtocolRequestAnswer,
}

/// Mathematical model of an [`InProgress`].
pub struct InProgressView {
    /// Role and protocols.
    pub config: ConfigView,
    /// What is waited for.
    pub stage: Stage,
    /// The line being received.
    pub recv: FramedView,
}

/// Mathematical model of a [`Negotiation`].
pub enum NegotiationView {
    /// Model of [`Negotiation::InProgress`].
    InProgress(InProgressView),
    /// Model of [`Negotiation::Success`].
    Success(Seq<char>),
    /// Model of [`Negotiation::NotAvailable`].
    NotAvailable,
}

/// What a step of a negotiation yields, see [`InProgressView::read_write`].
pub struct StepView {
    /// The negotiation after the step.
    pub negotiation: NegotiationView,
    /// Number of bytes taken from the input.
    pub read: nat,
    /// Bytes to send to the remote.
    pub out: Seq<u8>,
}

impl InProgressView {
    /// A negotiation that has not started.
    pub open spec fn new(config: ConfigView) -> InProgressView {
        InProgressView {
            config,
            stage: Stage::Start,
            recv: FramedView::empty(MAX_FRAME_LENGTH as nat),
        }
    }

    /// The invariant of a negotiation's model.
    pub open spec fn wf(self) -> bool {
        &&& self.recv.wf()
        &&& self.recv.max_len == MAX_FRAME_LENGTH
        &&& !self.recv.is_complete()
        &&& self.stage == Stage::CommandExpected ==> self.config is Listener
        &&& self.stage == Stage::AnswerExpected ==> self.config is Dialer
    }

    /// The stage that follows the remote's handshake.
    pub open spec fn after_handshake(self) -> Stage {
        match self.config {
            ConfigView::Dialer { .. } => Stage::AnswerExpected,
            ConfigView::Listener { .. } => Stage::CommandExpected,
        }
    }

    /// Conclusion drawn from the line that follows the handshake, with the
    /// bytes to send in reply.
    pub open spec fn conclude(self, line: Seq<u8>) -> Result<(NegotiationView, Seq<u8>), Error> {
        match self.config {
            ConfigView::Dialer { requested } => {
                if line == na_line() {
                    Ok((NegotiationView::NotAvailable, Seq::empty()))
                } else if line == protocol_line(requested) {
                    Ok((NegotiationView::Success(requested), Seq::empty()))
                } else {
                    Err(Error::UnexpectedProtocolRequestAnswer)
                }
            },
            ConfigView::Listener { supported } => match position_of(supported, line, 0) {
                Some(i) => Ok((NegotiationView::Success(supported[i as int]), frame_spec(line))),
                None => Ok((NegotiationView::NotAvailable, frame_spec(na_line()))),
            },
        }
    }

    /// The step of a negotiation that waits for the line after the handshake,
    /// having already read `read` bytes and queued `out`.
    pub open spec fn read_last(self, data: Seq<u8>, read: nat, out: Seq<u8>) -> Result<
        StepView,
        Error,
    > {
        let fed = self.recv.feed(data);
        if let Some(e) = fed.error {
            Err(Error::Frame(e))
        } else if !fed.reader.is_complete() {
            Ok(
                StepView {
                    negotiation: NegotiationView::InProgress(
                        InProgressView { config: self.config, stage: self.stage, recv: fed.reader },
                    ),
                    read: read + fed.consumed,
                    out,
                },
            )
        } else {
            match self.conclude(fed.reader.payload()) {
                Err(e) => Err(e),
                Ok((negotiation, reply)) => Ok(
                    StepView { negotiation, read: read + fed.consumed, out: out + reply },
                ),
            }
        }
    }

    /// The step of a negotiation that waits for the remote's handshake,
    /// having queued `out`.
    pub open spec fn read_handshake(self, data: Seq<u8>, out: Seq<u8>) -> Result<StepView, Error> {
        let fed = self.recv.feed(data);
        if let Some(e) = fed.error {
            Err(Error::Frame(e))
        } else if !fed.reader.is_complete() {
            Ok(
                StepView {
                    negotiation: NegotiationView::InProgress(
                        InProgressView {
                            config: self.config,
                            stage: Stage::HandshakeExpected,
                            recv: fed.reader,
                        },
                    ),
                    read: fed.consumed,
                    out,
                },
            )
        } else if fed.reader.payload() != handshake_line() {
            Err(Error::BadHandshake)
        } else {
            InProgressView {
                config: self.config,
                stage: self.after_handshake(),
                recv: FramedView::empty(MAX_FRAME_LENGTH as nat),
            }.read_last(data.skip(fed.consumed as int), fed.consumed, out)
        }
    }

    /// One step of a negotiation on the bytes `data` that arrived.
    pub open spec fn read_write(self, data: Seq<u8>) -> Result<StepView, Error> {
        match self.stage {
            Stage::Start => self.read_handshake(data, self.config.opening()),
            Stage::HandshakeExpected => self.read_handshake(data, Seq::empty()),
            _ => self.read_last(data, 0, Seq::empty()),
        }
    }
}

/// The negotiation of a dialer that has sent its opening, and waits for the
/// handshake of the listener.
pub open spec fn dialing(protocol: Seq<char>) -> InProgressView {
    InProgressView {
        config: ConfigView::Dialer { requested: protocol },
        stage: Stage::HandshakeExpected,
        recv: FramedView::empty(MAX_FRAME_LENGTH as nat),
    }
}

/// A step never takes more than it was offered, a negotiation still in
/// progress has taken all of it, and what it leaves behind is well formed.
pub proof fn lemma_read_write_bounds(negotiation: InProgressView, data: Seq<u8>)
    requires
        negotiation.wf(),
    ensures
        match negotiation.read_write(data) {
            Ok(step) => {
                &&& step.read <= data.len()
                &&& data.len() > 0 ==> step.read >= 1
                &&& match step.negotiation {
                    NegotiationView::InProgress(next) => next.wf() && step.read == data.len()
                        && next.config == negotiation.config && next.stage != Stage::Start,
                    _ => true,
                }
            },
            Err(_) => true,
        },
{
    lemma_feed_bounds(negotiation.recv, data);
    let fed = negotiation.recv.feed(data);
    if negotiation.stage == Stage::Start || negotiation.stage == Stage::HandshakeExpected {
        if fed.error is None && fed.reader.is_complete() {
            lemma_feed_bounds(
                FramedView::empty(MAX_FRAME_LENGTH as nat),
                data.skip(fed.consumed as int),
            );
        }
    }
}

/// State of a negotiation that has not concluded.
pub struct InProgress {
    config: Config,
    stage: Stage,
    recv: Framed,
}

/// A negotiation after a step.
pub enum Negotiation {
    /// More data from the remote is needed.
    InProgress(InProgress),
    /// Both sides agreed on the protocol of this name.
    Success(String),
    /// The protocol asked for is not supported by the listener.
    NotAvailable,
}

impl View for InProgress {
    type V = InProgressView;

    closed spec fn view(&self) -> InProgressView {
        InProgressView { config: self.config@, stage: self.stage, recv: self.recv@ }
    }
}

impl View for Negotiation {
    type V = NegotiationView;

    open spec fn view(&self) -> NegotiationView {
        match self {
            Negotiation::InProgress(inner) => NegotiationView::InProgress(inner@),
            Negotiation::Success(name) => NegotiationView::Success(name@),
            Negotiation::NotAvailable => NegotiationView::NotAvailable,
        }
    }
}

impl Negotiation {
    /// The invariant of the negotiation that this value may hold.
    pub open spec fn wf(&self) -> bool {
        match self {
            Negotiation::InProgress(inner) => inner.wf(),
            _ => true,
        }
    }
}

/// The bytes of the handshake line.
fn handshake_bytes() -> (line: Vec<u8>)
    ensures
        line@ == handshake_line(),
{
    let line: Vec<u8> = vec![
        0x2fu8,
        0x6du8,
        0x75u8,
        0x6cu8,
        0x74u8,
        0x69u8,
        0x73u8,
        0x74u8,
        0x72u8,
        0x65u8,
        0x61u8,
        0x6du8,
        0x2fu8,
        0x31u8,
        0x2eu8,
        0x30u8,
        0x2eu8,
        0x30u8,
        0x0au8,
    ];
    assert(line@ =~= handshake_line());
    line
}

/// The bytes of the line that declines a protocol.
fn na_bytes() -> (line: Vec<u8>)
    ensures
        line@ == na_line(),
{
    let line: Vec<u8> = vec![0x6eu8, 0x61u8, 0x0au8];
    assert(line@ =~= na_line());
    line
}

/// Appends the frame that holds `payload` to `out`.
fn append_frame(out: &mut Vec<u8>, payload: &[u8])
    ensures
        final(out)@ == old(out)@ + frame_spec(payload@),
{
    let prefix = encode_usize(payload.len());
    append_bytes(out, prefix.as_slice());
    append_bytes(out, payload);
    assert(out@ =~= old(out)@ + frame_spec(payload@));
}

/// The bytes of the line that names the protocol `name`.
fn protocol_line_bytes(name: &str) -> (line: Vec<u8>)
    ensures
        line@ == protocol_line(name@),
{
    let mut line: Vec<u8> = Vec::new();
    append_bytes(&mut line, name.as_bytes());
    line.push(0x0au8);
    assert(line@ =~= protocol_line(name@));
    line
}

/// Whether `line` is the line that names the protocol `name`.
fn is_protocol_line(line: &[u8], name: &str) -> (is_line: bool)
    ensures
        is_line == (line@ == protocol_line(name@)),
{
    let name_bytes = name.as_bytes();
    if line.len() == 0 || line.len() - 1 != name_bytes.len() {
        return false;
    }
    let last: usize = line.len() - 1;
    if line[last] != 0x0au8 {
        assert(protocol_line(name@)[last as int] == 0x0au8);
        return false;
    }
    let mut i: usize = 0;
    while i < last
        invariant
            name_bytes@ == vstd::utf8::encode_utf8(name@),
            last == name_bytes@.len(),
            line@.len() == last + 1,
            i <= last,
            forall|j: int| 0 <= j < i ==> line@[j] == name_bytes@[j],
        decreases last - i,
    {
        if line[i] != name_bytes[i] {
            assert(protocol_line(name@)[i as int] == name_bytes@[i as int]);
            return false;
        }
        i = i + 1;
    }
    assert(line@ =~= protocol_line(name@));
    true
}

/// Index of the first protocol of `supported` whose line is `line`.
fn find_protocol(supported: &Vec<String>, line: &[u8]) -> (found: Option<usize>)
    ensures
        match found {
            Some(i) => position_of(names_of(supported@), line@, 0) == Some(i as nat) && i
                < supported@.len(),
            None => position_of(names_of(supported@), line@, 0) is None,
        },
{
    let mut i: usize = 0;
    while i < supported.len()
        invariant
            i <= supported@.len(),
            position_of(names_of(supported@), line@, 0) == position_of(
                names_of(supported@),
                line@,
                i as nat,
            ),
        decreases supported@.len() - i,
    {
        assert(names_of(supported@)[i as int] == supported@[i as int]@);
        if is_protocol_line(line, supported[i].as_str()) {
            return Some(i);
        }
        i = i + 1;
    }
    None
}

impl InProgress {
    /// The invariant of a negotiation: it holds of every negotiation that
    /// this module hands out.
    pub closed spec fn wf(&self) -> bool {
        &&& self.recv.wf()
        &&& self@.wf()
    }

    /// What [`Self::wf`] says of the model.
    pub proof fn lemma_wf_view(&self)
        requires
            self.wf(),
        ensures
            self@.wf(),
    {
    }

    /// Starts a negotiation.
    pub fn new(config: Config) -> (negotiation: InProgress)
        ensures
            negotiation.wf(),
            negotiation@ == InProgressView::new(config@),
    {
        InProgress { config, stage: Stage::Start, recv: Framed::new(MAX_FRAME_LENGTH) }
    }

    /// Draws the conclusion from the line `line` that follows the handshake.
    fn conclude(self, line: &[u8], read: usize, out: Vec<u8>) -> (r: Result<
        (Negotiation, usize, Vec<u8>),
        Error,
    >)
        requires
            self.wf(),
            self.stage == Stage::CommandExpected || self.stage == Stage::AnswerExpected,
        ensures
            match r {
                Ok((negotiation, n, reply)) => self@.conclude(line@) == Ok::<
                    (NegotiationView, Seq<u8>),
                    Error,
                >((negotiation@, reply@.skip(out@.len() as int))) && reply@.take(
                    out@.len() as int,
                ) == out@ && out@.len() <= reply@.len() && n == read && negotiation.wf(),
                Err(e) => self@.conclude(line@) == Err::<(NegotiationView, Seq<u8>), Error>(e),
            },
    {
        let mut out = out;
        let ghost queued = out@;
        match self.config {
            Config::Dialer { requested_protocol } => {
                let na = na_bytes();
                if bytes_equal(line, na.as_slice()) {
                    assert(out@.skip(queued.len() as int) =~= Seq::<u8>::empty());
                    assert(out@.take(queued.len() as int) =~= queued);
                    Ok((Negotiation::NotAvailable, read, out))
                } else if is_protocol_line(line, requested_protocol.as_str()) {
                    assert(out@.skip(queued.len() as int) =~= Seq::<u8>::empty());
                    assert(out@.take(queued.len() as int) =~= queued);
                    Ok((Negotiation::Success(requested_protocol), read, out))
                } else {
                    Err(Error::UnexpectedProtocolRequestAnswer)
                }
            },
            Config::Listener { supported_protocols } => {
                match find_protocol(&supported_protocols, line) {
                    Some(i) => {
                        append_frame(&mut out, line);
                        assert(out@.skip(queued.len() as int) =~= frame_spec(line@));
                        assert(out@.take(queued.len() as int) =~= queued);
                        assert(names_of(supported_protocols@)[i as int]
                            == supported_protocols@[i as int]@);
                        let name = supported_protocols[i].clone();
                        Ok((Negotiation::Success(name), read, out))
                    },
                    None => {
                        let na = na_bytes();
                        append_frame(&mut out, na.as_slice());
                        assert(out@.skip(queued.len() as int) =~= frame_spec(na_line()));
                        assert(out@.take(queued.len() as int) =~= queued);
                        Ok((Negotiation::NotAvailable, read, out))
                    },
                }
            },
        }
    }

    /// Waits for the line that follows the handshake.
    fn read_last(self, data: &[u8], read: usize, out: Vec<u8>) -> (r: Result<
        (Negotiation, usize, Vec<u8>),
        Error,
    >)
        requires
            self.wf(),
            self.stage == Stage::CommandExpected || self.stage == Stage::AnswerExpected,
            read + data@.len() <= usize::MAX,
        ensures
            match r {
                Ok((negotiation, n, reply)) => self@.read_last(data@, read as nat, out@) == Ok::<
                    StepView,
                    Error,
                >(StepView { negotiation: negotiation@, read: n as nat, out: reply@ })
                    && negotiation.wf(),
                Err(e) => self@.read_last(data@, read as nat, out@) == Err::<StepView, Error>(e),
            },
    {
        let mut this = self;
        proof {
            lemma_feed_bounds(this.recv@, data@);
        }
        let taken = match this.recv.inject_data(data) {
            Ok(n) => n,
            Err(e) => {
                return Err(Error::Frame(e));
            },
        };
        match this.recv.take_frame() {
            None => Ok((Negotiation::InProgress(this), read + taken, out)),
            Some(line) => {
                let ghost queued = out@;
                let r = this.conclude(line.as_slice(), read + taken, out);
                proof {
                    if let Ok((_, _, reply)) = &r {
                        assert(reply@ =~= queued + reply@.skip(queued.len() as int));
                    }
                }
                r
            },
        }
    }

    /// Waits for the remote's handshake.
    fn read_handshake(self, data: &[u8], out: Vec<u8>) -> (r: Result<
        (Negotiation, usize, Vec<u8>),
        Error,
    >)
        requires
            self.wf(),
            self.stage == Stage::HandshakeExpected,
        ensures
            match r {
                Ok((negotiation, n, reply)) => self@.read_handshake(data@, out@) == Ok::<
                    StepView,
                    Error,
                >(StepView { negotiation: negotiation@, read: n as nat, out: reply@ })
                    && negotiation.wf(),
                Err(e) => self@.read_handshake(data@, out@) == Err::<StepView, Error>(e),
            },
    {
        let mut this = self;
        proof {
            lemma_feed_bounds(this.recv@, data@);
        }
        let taken = match this.recv.inject_data(data) {
            Ok(n) => n,
            Err(e) => {
                return Err(Error::Frame(e));
            },
        };
        match this.recv.take_frame() {
            None => Ok((Negotiation::InProgress(this), taken, out)),
            Some(line) => {
                let expected = handshake_bytes();
                if !bytes_equal(line.as_slice(), expected.as_slice()) {
                    return Err(Error::BadHandshake);
                }
                this.stage =
                match this.config {
                    Config::Dialer { .. } => Stage::AnswerExpected,
                    Config::Listener { .. } => Stage::CommandExpected,
                };
                let rest = vstd::slice::slice_subrange(data, taken, data.len());
                assert(rest@ =~= data@.skip(taken as int));
                this.read_last(rest, taken, out)
            },
        }
    }

    /// Advances the negotiation with the bytes `incoming` received from the
    /// remote.
    ///
    /// Returns the negotiation after the step, the number of bytes of
    /// `incoming` that it took, and the bytes to send to the remote. A
    /// negotiation that is still in progress has taken all of `incoming`; one
    /// that has concluded leaves what follows the concluding line, which
    /// belongs to the protocol agreed on.
    pub fn read_write_vec(self, incoming: &[u8]) -> (r: Result<
        (Negotiation, usize, Vec<u8>),
        Error,
    >)
        requires
            self.wf(),
        ensures
            match r {
                Ok((negotiation, read, out)) => self@.read_write(incoming@) == Ok::<
                    StepView,
                    Error,
                >(StepView { negotiation: negotiation@, read: read as nat, out: out@ })
                    && negotiation.wf() && read <= incoming@.len() && (negotiation is InProgress
                    ==> read == incoming@.len()),
                Err(e) => self@.read_write(incoming@) == Err::<StepView, Error>(e),
            },
    {
        proof {
            lemma_read_write_bounds(self@, incoming@);
        }
        let mut this = self;
        let mut out: Vec<u8> = Vec::new();
        match this.stage {
            Stage::Start => {
                let handshake = handshake_bytes();
                append_frame(&mut out, handshake.as_slice());
                match &this.config {
                    Config::Dialer { requested_protocol } => {
                        let line = protocol_line_bytes(requested_protocol.as_str());
                        append_frame(&mut out, line.as_slice());
                    },
                    Config::Listener { .. } => {},
                }
                assert(out@ =~= this@.config.opening());
                this.stage = Stage::HandshakeExpected;
                this.read_handshake(incoming, out)
            },
            Stage::HandshakeExpected => this.read_handshake(incoming, out),
            _ => {
                let available: usize = incoming.len();
                assert(incoming@.len() == available);
                this.read_last(incoming, 0, out)
            },
        }
    }
}

/// Two protocols with the same line have the same name.
pub proof fn lemma_protocol_line_names(left: Seq<char>, right: Seq<char>)
    requires
        protocol_line(left) == protocol_line(right),
    ensures
        left == right,
{
    let a = vstd::utf8::encode_utf8(left);
    let b = vstd::utf8::encode_utf8(right);
    assert(protocol_line(left).drop_last() =~= a);
    assert(protocol_line(right).drop_last() =~= b);
    vstd::utf8::encode_utf8_decode_utf8(left);
    vstd::utf8::encode_utf8_decode_utf8(right);
}

/// What [`position_of`] finds for the line of a protocol: the first mention
/// of that protocol.
pub proof fn lemma_position_of(supported: Seq<Seq<char>>, protocol: Seq<char>, from: nat)
    ensures
        match position_of(supported, protocol_line(protocol), from) {
            Some(i) => from <= i < supported.len() && supported[i as int] == protocol,
            None => forall|j: int| from <= j < supported.len() ==> supported[j] != protocol,
        },
    decreases supported.len() - from,
{
    if from < supported.len() {
        if protocol_line(supported[from as int]) == protocol_line(protocol) {
            lemma_protocol_line_names(supported[from as int], protocol);
        } else {
            lemma_position_of(supported, protocol, from + 1);
        }
    }
}

/// A negotiation that waits for the remote's handshake, and is handed that
/// handshake followed by `rest`, goes on with `rest` as the line after the
/// handshake.
proof fn lemma_handshake_read(negotiation: InProgressView, rest: Seq<u8>, out: Seq<u8>)
    requires
        negotiation.recv == FramedView::empty(MAX_FRAME_LENGTH as nat),
    ensures
        negotiation.read_handshake(frame_spec(handshake_line()) + rest, out) == (InProgressView {
            config: negotiation.config,
            stage: negotiation.after_handshake(),
            recv: FramedView::empty(MAX_FRAME_LENGTH as nat),
        }).read_last(rest, frame_spec(handshake_line()).len(), out),
{
    let data = frame_spec(handshake_line()) + rest;
    lemma_frame_round_trip(MAX_FRAME_LENGTH as nat, handshake_line(), rest);
    assert(data.skip(frame_spec(handshake_line()).len() as int) =~= rest);
}

/// A negotiation that waits for the line after the handshake, and is handed
/// the frame of `line` followed by `rest`, concludes on that line.
proof fn lemma_last_read(
    negotiation: InProgressView,
    line: Seq<u8>,
    rest: Seq<u8>,
    read: nat,
    out: Seq<u8>,
)
    requires
        negotiation.recv == FramedView::empty(MAX_FRAME_LENGTH as nat),
        line.len() <= MAX_FRAME_LENGTH,
    ensures
        negotiation.read_last(frame_spec(line) + rest, read, out) == match negotiation.conclude(
            line,
        ) {
            Err(e) => Err::<StepView, Error>(e),
            Ok((concluded, reply)) => Ok(
                StepView {
                    negotiation: concluded,
                    read: read + frame_spec(line).len(),
                    out: out + reply,
                },
            ),
        },
{
    lemma_frame_round_trip(MAX_FRAME_LENGTH as nat, line, rest);
}

/// A dialer and a listener agree on a protocol that the listener supports.
///
/// The dialer opens with its handshake and the protocol it asks for. On
/// these, the listener concludes with that protocol, and answers with its
/// handshake and the same line. On that answer the dialer concludes with the
/// protocol too. Both leave untouched the bytes `after_opening` and
/// `after_answer` that follow what they expect: these belong to the protocol
/// agreed on.
pub proof fn lemma_negotiation_succeeds(
    protocol: Seq<char>,
    supported: Seq<Seq<char>>,
    after_opening: Seq<u8>,
    after_answer: Seq<u8>,
)
    requires
        supported.contains(protocol),
        protocol_line(protocol).len() <= MAX_FRAME_LENGTH,
        protocol_line(protocol) != na_line(),
    ensures
        ({
            let dialer = InProgressView::new(ConfigView::Dialer { requested: protocol });
            let listener = InProgressView::new(ConfigView::Listener { supported });
            let opening = dialer.config.opening();
            let answer = frame_spec(handshake_line()) + frame_spec(protocol_line(protocol));
            let waiting = InProgressView {
                config: dialer.config,
                stage: Stage::HandshakeExpected,
                recv: FramedView::empty(MAX_FRAME_LENGTH as nat),
            };
            &&& dialer.read_write(Seq::empty()) == Ok::<StepView, Error>(
                StepView { negotiation: NegotiationView::InProgress(waiting), read: 0, out: opening },
            )
            &&& listener.read_write(opening + after_opening) == Ok::<StepView, Error>(
                StepView {
                    negotiation: NegotiationView::Success(protocol),
                    read: opening.len(),
                    out: answer,
                },
            )
            &&& waiting.read_write(answer + after_answer) == Ok::<StepView, Error>(
                StepView {
                    negotiation: NegotiationView::Success(protocol),
                    read: answer.len(),
                    out: Seq::empty(),
                },
            )
        }),
{
    let dialer = InProgressView::new(ConfigView::Dialer { requested: protocol });
    let listener = InProgressView::new(ConfigView::Listener { supported });
    let opening = dialer.config.opening();
    let line = protocol_line(protocol);
    let answer = frame_spec(handshake_line()) + frame_spec(line);
    let waiting = InProgressView {
        config: dialer.config,
        stage: Stage::HandshakeExpected,
        recv: FramedView::empty(MAX_FRAME_LENGTH as nat),
    };
    // The listener reads the dialer's opening.
    assert(opening + after_opening =~= frame_spec(handshake_line()) + (frame_spec(line)
        + after_opening));
    lemma_handshake_read(listener, frame_spec(line) + after_opening, listener.config.opening());
    let commanded = InProgressView {
        config: listener.config,
        stage: Stage::CommandExpected,
        recv: FramedView::empty(MAX_FRAME_LENGTH as nat),
    };
    lemma_last_read(
        commanded,
        line,
        after_opening,
        frame_spec(handshake_line()).len(),
        listener.config.opening(),
    );
    lemma_position_of(supported, protocol, 0);
    let witness = choose|j: int| 0 <= j < supported.len() && supported[j] == protocol;
    assert(supported[witness] == protocol);
    // The dialer reads the listener's answer.
    assert(answer + after_answer =~= frame_spec(handshake_line()) + (frame_spec(line)
        + after_answer));
    lemma_handshake_read(waiting, frame_spec(line) + after_answer, Seq::empty());
    let answered = InProgressView {
        config: dialer.config,
        stage: Stage::AnswerExpected,
        recv: FramedView::empty(MAX_FRAME_LENGTH as nat),
    };
    lemma_last_read(
        answered,
        line,
        after_answer,
        frame_spec(handshake_line()).len(),
        Seq::empty(),
    );
    assert(Seq::<u8>::empty() + Seq::<u8>::empty() =~= Seq::<u8>::empty());
}

/// A dialer learns that the listener does not support the protocol it asks
/// for: the listener answers its opening with its handshake and the line that
/// declines, and both conclude that the protocol is not available.
pub proof fn lemma_negotiation_declined(
    protocol: Seq<char>,
    supported: Seq<Seq<char>>,
    after_opening: Seq<u8>,
    after_answer: Seq<u8>,
)
    requires
        !supported.contains(protocol),
        protocol_line(protocol).len() <= MAX_FRAME_LENGTH,
    ensures
        ({
            let dialer = InProgressView::new(ConfigView::Dialer { requested: protocol });
            let listener = InProgressView::new(ConfigView::Listener { supported });
            let opening = dialer.config.opening();
            let answer = frame_spec(handshake_line()) + frame_spec(na_line());
            let waiting = InProgressView {
                config: dialer.config,
                stage: Stage::HandshakeExpected,
                recv: FramedView::empty(MAX_FRAME_LENGTH as nat),
            };
            &&& listener.read_write(opening + after_opening) == Ok::<StepView, Error>(
                StepView {
                    negotiation: NegotiationView::NotAvailable,
                    read: opening.len(),
                    out: answer,
                },
            )
            &&& waiting.read_write(answer + after_answer) == Ok::<StepView, Error>(
                StepView {
                    negotiation: NegotiationView::NotAvailable,
                    read: answer.len(),
                    out: Seq::empty(),
                },
            )
        }),
{
    let dialer = InProgressView::new(ConfigView::Dialer { requested: protocol });
    let listener = InProgressView::new(ConfigView::Listener { supported });
    let opening = dialer.config.opening();
    let line = protocol_line(protocol);
    let answer = frame_spec(handshake_line()) + frame_spec(na_line());
    let waiting = InProgressView {
        config: dialer.config,
        stage: Stage::HandshakeExpected,
        recv: FramedView::empty(MAX_FRAME_LENGTH as nat),
    };
    assert(opening + after_opening =~= frame_spec(handshake_line()) + (frame_spec(line)
        + after_opening));
    lemma_handshake_read(listener, frame_spec(line) + after_opening, listener.config.opening());
    let commanded = InProgressView {
        config: listener.config,
        stage: Stage::CommandExpected,
        recv: FramedView::empty(MAX_FRAME_LENGTH as nat),
    };
    lemma_last_read(
        commanded,
        line,
        after_opening,
        frame_spec(handshake_line()).len(),
        listener.config.opening(),
    );
    lemma_position_of(supported, protocol, 0);
    if let Some(i) = position_of(supported, line, 0) {
        assert(supported[i as int] == protocol);
        assert(supported.contains(protocol));
    }
    assert(answer + after_answer =~= frame_spec(handshake_line()) + (frame_spec(na_line())
        + after_answer));
    lemma_handshake_read(waiting, frame_spec(na_line()) + after_answer, Seq::empty());
    let answered = InProgressView {
        config: dialer.config,
        stage: Stage::AnswerExpected,
        recv: FramedView::empty(MAX_FRAME_LENGTH as nat),
    };
    lemma_last_read(
        answered,
        na_line(),
        after_answer,
        frame_spec(handshake_line()).len(),
        Seq::empty(),
    );
    assert(Seq::<u8>::empty() + Seq::<u8>::empty() =~= Seq::<u8>::empty());
}

/// The step `second` taken after a step that has read `read` bytes and
/// queued `out`.
pub open spec fn step_after(read: nat, out: Seq<u8>, second: Result<StepView, Error>) -> Result<
    StepView,
    Error,
> {
    match second {
        Ok(step) => Ok(
            StepView { negotiation: step.negotiation, read: read + step.read, out: out + step.out },
        ),
        Err(e) => Err(e),
    }
}

/// The last line may arrive in any pieces.
proof fn lemma_read_last_in_pieces(
    negotiation: InProgressView,
    first: Seq<u8>,
    second: Seq<u8>,
    read: nat,
    out: Seq<u8>,
)
    requires
        negotiation.wf(),
        negotiation.read_last(first, read, out) matches Ok(step) && step.negotiation is InProgress,
    ensures
        negotiation.read_last(first + second, read, out) == step_after(
            read + first.len(),
            out,
            (negotiation.read_last(first, read, out)->Ok_0.negotiation->InProgress_0).read_last(
                second,
                0,
                Seq::empty(),
            ),
        ),
{
    lemma_feed_bounds(negotiation.recv, first);
    lemma_feed_in_pieces(negotiation.recv, first, second);
    let next = negotiation.read_last(first, read, out)->Ok_0.negotiation->InProgress_0;
    if let Ok(step) = next.read_last(second, 0, Seq::empty()) {
        assert(out + (Seq::<u8>::empty() + step.out) =~= out + step.out);
        assert(Seq::<u8>::empty() + step.out =~= step.out);
    }
}

/// The bytes of the remote may arrive in any pieces: a negotiation that is
/// still in progress after a first piece goes on with the second as it would
/// have gone on with the two pieces in one, having read the first and queued
/// what it had to send.
pub proof fn lemma_read_write_in_pieces(negotiation: InProgressView, first: Seq<u8>, second: Seq<u8>)
    requires
        negotiation.wf(),
        negotiation.read_write(first) matches Ok(step) && step.negotiation is InProgress,
    ensures
        negotiation.read_write(first + second) == step_after(
            first.len(),
            negotiation.read_write(first)->Ok_0.out,
            (negotiation.read_write(first)->Ok_0.negotiation->InProgress_0).read_write(second),
        ),
{
    let step = negotiation.read_write(first)->Ok_0;
    let next = step.negotiation->InProgress_0;
    lemma_read_write_bounds(negotiation, first);
    lemma_feed_bounds(negotiation.recv, first);
    let fed = negotiation.recv.feed(first);
    if negotiation.stage == Stage::Start || negotiation.stage == Stage::HandshakeExpected {
        let queued = if negotiation.stage == Stage::Start {
            negotiation.config.opening()
        } else {
            Seq::empty()
        };
        if !fed.reader.is_complete() {
            // The first piece ends within the handshake.
            lemma_feed_in_pieces(negotiation.recv, first, second);
            let later = next.recv.feed(second);
            lemma_feed_bounds(next.recv, second);
            assert((first + second).skip((first.len() + later.consumed) as int) =~= second.skip(
                later.consumed as int,
            ));
            if later.error is None && later.reader.is_complete() && later.reader.payload()
                == handshake_line() {
                let resumed = InProgressView {
                    config: negotiation.config,
                    stage: negotiation.after_handshake(),
                    recv: FramedView::empty(MAX_FRAME_LENGTH as nat),
                };
                let rest = second.skip(later.consumed as int);
                match resumed.read_last(rest, later.consumed, Seq::empty()) {
                    Ok(last) => {
                        assert(resumed.read_last(rest, first.len() + later.consumed, queued)
                            == Ok::<StepView, Error>(
                            StepView {
                                negotiation: last.negotiation,
                                read: first.len() + last.read,
                                out: queued + last.out,
                            },
                        )) by {
                            let concluded = resumed.recv.feed(rest);
                            if concluded.error is None && concluded.reader.is_complete() {
                                if let Ok((_, reply)) = resumed.conclude(concluded.reader.payload()) {
                                    assert(Seq::<u8>::empty() + reply =~= reply);
                                }
                            }
                        }
                    },
                    Err(_) => {},
                }
            } else {
                assert(queued + Seq::<u8>::empty() =~= queued);
            }
        } else {
            // The first piece holds the handshake and the start of the last
            // line.
            lemma_feed_stops(negotiation.recv, first, second);
            let resumed = InProgressView {
                config: negotiation.config,
                stage: negotiation.after_handshake(),
                recv: FramedView::empty(MAX_FRAME_LENGTH as nat),
            };
            let rest = first.skip(fed.consumed as int);
            assert((first + second).skip(fed.consumed as int) =~= rest + second);
            lemma_read_last_in_pieces(resumed, rest, second, fed.consumed, queued);
        }
    } else {
        lemma_read_last_in_pieces(negotiation, first, second, 0, Seq::empty());
    }
}

} // verus!
