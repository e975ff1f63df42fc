//! State machine of a fully established connection.
//!
//! A connection carries any number of substreams. The cipher that decodes the
//! bytes of the socket and the multiplexer that frames the substreams belong
//! to the host: the host tells this state machine what the multiplexer found,
//! and performs on the multiplexer what the state machine answers.
//!
//! A read-write call of the host goes through three stages.
//!
//! 1. It tells the time, with [`Established::update_now`]. If a request has
//!    timed out, that is the event of the call, and the call ends.
//! 2. It hands the multiplexer the data that the cipher has decoded, as long
//!    as there is any, and tells what the multiplexer found in each round with
//!    [`Established::incoming_data`]. The first event ends the call.
//! 3. It hands the cipher what the multiplexer has to send.
//!
//! At most one event comes out of a call. The host calls again until a call
//! reports no event and neither reads nor writes a byte.

use vstd::prelude::*;
use crate::leb128::FramedError;
use crate::multistream_select::{
    dialing,
    na_line,
    names_of,
    protocol_line,
    Config as NegotiationConfig,
    ConfigView,
    InProgress,
    InProgressView,
    Negotiation,
};
use crate::leb128::{encode_usize_spec, frame_spec, FramedView};
use crate::multistream_select::MAX_FRAME_LENGTH;
use crate::substream::{
    acceptance,
    actions_view,
    lemma_inject_keeps_request,
    lemma_listener_accepts,
    lemma_notifications_handshake_sent,
    lemma_notifications_opening_reported,
    lemma_request_sent,
    lemma_response_reported,
    listening,
    negotiated,
    Action,
    ActionView,
    Substream,
    SubstreamView,
    MAX_FRAME_SIZE,
};

verus! {

/// Identifier of a request or a notifications substream.
#[derive(Debug, Copy, Clone, PartialEq, Eq, PartialOrd, Ord, Hash, Structural)]
pub struct SubstreamId(pub u32);

/// Error that can happen during a request in a request-response scheme.
#[derive(Debug, Clone, Copy, PartialEq, Eq, Structural)]
pub enum RequestError {
    /// Remote hasn't answered in time.
    Timeout,
    /// Remote doesn't support this protocol.
    ProtocolNotAvailable,
    /// Remote has decided to reset the substream. This most likely indicates
    /// that the remote has detected a protocol error.
    SubstreamReset,
    /// Error during protocol negotiation.
    NegotiationError(crate::multistream_select::Error),
    /// Error while receiving the response.
    ResponseLebError(FramedError),
}

/// Event that happened on the connection.
#[must_use]
#[derive(Debug)]
pub enum Event<TRqUd, TNotifUd> {
    /// No more outgoing data will be emitted. The local writing side of the
    /// connection should be closed.
    EndOfData,
    /// Received a request in the context of a request-response protocol.
    RequestIn {
        /// Identifier of the request. Needs to be provided back when
        /// answering the request.
        id: SubstreamId,
        /// Protocol the request was sent on.
        protocol: String,
        /// Bytes of the request.
        request: Vec<u8>,
    },
    /// Received a response to a previously emitted request on a
    /// request-response protocol.
    Response {
        /// Bytes of the response, or the reason for which there is none.
        response: Result<Vec<u8>, RequestError>,
        /// Identifier of the request.
        id: SubstreamId,
        /// Value that was passed when the request was added.
        user_data: TRqUd,
    },
    /// The remote opened a notifications substream and sent its handshake.
    NotificationsInOpen {
        /// Identifier of the substream. Needs to be provided back when
        /// accepting or rejecting the substream.
        id: SubstreamId,
        /// Protocol concerned by the substream.
        protocol: String,
        /// Handshake sent by the remote.
        handshake: Vec<u8>,
    },
    /// Remote has accepted a notifications substream opened locally.
    NotificationsOutAccept {
        /// Identifier of the substream.
        id: SubstreamId,
        /// Value that was passed when the substream was opened.
        user_data: TNotifUd,
        /// Handshake sent back by the remote.
        remote_handshake: Vec<u8>,
    },
    /// Remote has rejected a notifications substream opened locally.
    NotificationsOutReject {
        /// Identifier of the substream.
        id: SubstreamId,
        /// Value that was passed when the substream was opened.
        user_data: TNotifUd,
    },
}

/// Mathematical model of an [`Event`].
pub enum EventView<TRqUd, TNotifUd> {
    /// Model of [`Event::EndOfData`].
    EndOfData,
    /// Model of [`Event::RequestIn`].
    RequestIn { id: SubstreamId, protocol: Seq<char>, request: Seq<u8> },
    /// Model of [`Event::Response`].
    Response { response: Result<Seq<u8>, RequestError>, id: SubstreamId, user_data: TRqUd },
    /// Model of [`Event::NotificationsInOpen`].
    NotificationsInOpen { id: SubstreamId, protocol: Seq<char>, handshake: Seq<u8> },
    /// Model of [`Event::NotificationsOutAccept`].
    NotificationsOutAccept { id: SubstreamId, user_data: TNotifUd, remote_handshake: Seq<u8> },
    /// Model of [`Event::NotificationsOutReject`].
    NotificationsOutReject { id: SubstreamId, user_data: TNotifUd },
}

impl<TRqUd, TNotifUd> View for Event<TRqUd, TNotifUd> {
    type V = EventView<TRqUd, TNotifUd>;

    open spec fn view(&self) -> EventView<TRqUd, TNotifUd> {
        match self {
            Event::EndOfData => EventView::EndOfData,
            Event::RequestIn { id, protocol, request } => EventView::RequestIn {
                id: *id,
                protocol: protocol@,
                request: request@,
            },
            Event::Response { response, id, user_data } => EventView::Response {
                response: match response {
                    Ok(bytes) => Ok(bytes@),
                    Err(e) => Err(*e),
                },
                id: *id,
                user_data: *user_data,
            },
            Event::NotificationsInOpen { id, protocol, handshake } => EventView::NotificationsInOpen {
                id: *id,
                protocol: protocol@,
                handshake: handshake@,
            },
            Event::NotificationsOutAccept {
                id,
                user_data,
                remote_handshake,
            } => EventView::NotificationsOutAccept {
                id: *id,
                user_data: *user_data,
                remote_handshake: remote_handshake@,
            },
            Event::NotificationsOutReject { id, user_data } => EventView::NotificationsOutReject {
                id: *id,
                user_data: *user_data,
            },
        }
    }
}

impl<TRqUd, TNotifUd> EventView<TRqUd, TNotifUd> {
    /// The substream that the event is about, if it is about one.
    pub open spec fn substream(self) -> Option<SubstreamId> {
        match self {
            EventView::EndOfData => None,
            EventView::RequestIn { id, .. } => Some(id),
            EventView::Response { id, .. } => Some(id),
            EventView::NotificationsInOpen { id, .. } => Some(id),
            EventView::NotificationsOutAccept { id, .. } => Some(id),
            EventView::NotificationsOutReject { id, .. } => Some(id),
        }
    }
}

/// The model of an event that may be absent.
pub open spec fn event_view<TRqUd, TNotifUd>(event: Option<Event<TRqUd, TNotifUd>>) -> Option<
    EventView<TRqUd, TNotifUd>,
> {
    match event {
        Some(e) => Some(e@),
        None => None,
    }
}

/// Time granted to the remote to answer a request or to accept a substream,
/// in the unit of the timestamps: milliseconds.
pub const TIMEOUT: u64 = 20_000;

/// Number of substreams for which the multiplexer reserves room.
pub const SUBSTREAMS_CAPACITY: usize = 64;

/// Configuration to turn a [`ConnectionPrototype`] into an [`Established`].
pub struct Config {
    /// List of request-response protocols supported for incoming substreams.
    pub in_request_protocols: Vec<String>,
    /// List of notifications protocols supported for incoming substreams.
    pub in_notifications_protocols: Vec<String>,
    /// Name of the ping protocol on the network.
    pub ping_protocol: String,
    /// Seed used for the randomness specific to this connection.
    pub randomness_seed: (u64, u64),
}

/// What the multiplexer of a connection is to be created with.
#[derive(Debug, Clone, Copy)]
pub struct MultiplexerConfig {
    /// Whether the local side has opened the connection.
    pub is_initiator: bool,
    /// Number of substreams to reserve room for.
    pub capacity: usize,
    /// Seed used for the randomness specific to this connection.
    pub randomness_seed: (u64, u64),
}

/// Successfully negotiated connection. Ready to be turned into an
/// [`Established`].
pub struct ConnectionPrototype {
    is_initiator: bool,
}

/// A substream and its identifier.
struct Entry<TRqUd> {
    id: SubstreamId,
    state: Substream<TRqUd>,
}

/// State machine of a fully-established connection.
pub struct Established<TRqUd, TNotifUd> {
    /// State of the various substreams of the connection, oldest first.
    substreams: Vec<Entry<TRqUd>>,
    /// Next substream timeout. When the current time is superior to this
    /// value, means that one of the substreams might have timed out.
    ///
    /// This value is not updated when a timeout is no longer necessary. As
    /// such, the value in this field might correspond to nothing.
    next_timeout: Option<u64>,
    /// See [`Config::in_request_protocols`].
    in_request_protocols: Vec<String>,
    /// See [`Config::in_notifications_protocols`].
    in_notifications_protocols: Vec<String>,
    /// See [`Config::ping_protocol`].
    ping_protocol: String,
    /// What the multiplexer is to be created with.
    multiplexer: MultiplexerConfig,
    marker: core::marker::PhantomData<TNotifUd>,
}

/// Mathematical model of an [`Established`].
pub struct EstablishedView<TRqUd> {
    /// The substreams, oldest first, each with its identifier.
    pub substreams: Seq<(SubstreamId, SubstreamView<TRqUd>)>,
    /// The moment from which a substream may have timed out.
    pub next_timeout: Option<u64>,
    /// Names of the request-response protocols accepted from the remote.
    pub in_request_protocols: Seq<Seq<char>>,
    /// Names of the notifications protocols accepted from the remote.
    pub in_notifications_protocols: Seq<Seq<char>>,
    /// Name of the ping protocol.
    pub ping_protocol: Seq<char>,
    /// What the multiplexer is to be created with.
    pub multiplexer: MultiplexerConfig,
}

/// Index of the first of `substreams`, from `from` on, whose identifier is
/// `id`.
pub open spec fn position_from<TRqUd>(
    substreams: Seq<(SubstreamId, SubstreamView<TRqUd>)>,
    id: SubstreamId,
    from: nat,
) -> Option<nat>
    decreases substreams.len() - from,
{
    if from >= substreams.len() {
        None
    } else if substreams[from as int].0 == id {
        Some(from)
    } else {
        position_from(substreams, id, from + 1)
    }
}

/// Whether a substream in the state `state` has timed out at `now`.
pub open spec fn expired<TRqUd>(state: SubstreamView<TRqUd>, now: u64) -> bool {
    match state.deadline() {
        Some(deadline) => deadline <= now,
        None => false,
    }
}

/// Index of the first of `substreams`, from `from` on, that has timed out at
/// `now`.
pub open spec fn expired_from<TRqUd>(
    substreams: Seq<(SubstreamId, SubstreamView<TRqUd>)>,
    now: u64,
    from: nat,
) -> Option<nat>
    decreases substreams.len() - from,
{
    if from >= substreams.len() {
        None
    } else if expired(substreams[from as int].1, now) {
        Some(from)
    } else {
        expired_from(substreams, now, from + 1)
    }
}

/// The earlier of a deadline that may be absent and another one.
pub open spec fn earlier(earliest: Option<u64>, deadline: Option<u64>) -> Option<u64> {
    match (earliest, deadline) {
        (Some(a), Some(b)) => Some(if b < a { b } else { a }),
        (Some(a), None) => Some(a),
        (None, other) => other,
    }
}

/// The earliest deadline among `substreams`.
pub open spec fn earliest_deadline<TRqUd>(
    substreams: Seq<(SubstreamId, SubstreamView<TRqUd>)>,
) -> Option<u64>
    decreases substreams.len(),
{
    if substreams.len() == 0 {
        None
    } else {
        earlier(earliest_deadline(substreams.drop_last()), substreams.last().1.deadline())
    }
}

/// The event that reports the end `error` of the request carried by the
/// substream `id` in the state `state`: none if it carries no request.
pub open spec fn request_failure<TRqUd, TNotifUd>(
    id: SubstreamId,
    state: SubstreamView<TRqUd>,
    error: RequestError,
) -> Option<EventView<TRqUd, TNotifUd>> {
    match state.request_user_data() {
        Some(user_data) => Some(EventView::Response { response: Err(error), id, user_data }),
        None => None,
    }
}

impl<TRqUd> EstablishedView<TRqUd> {
    /// Index of the substream `id`.
    pub open spec fn position(self, id: SubstreamId) -> Option<nat> {
        position_from(self.substreams, id, 0)
    }

    /// Whether the connection has a substream `id`.
    pub open spec fn contains(self, id: SubstreamId) -> bool {
        self.position(id) is Some
    }

    /// The invariant of a connection: no two substreams share an identifier,
    /// each substream meets its own invariant, and the next timeout comes no
    /// later than the deadline of any substream.
    pub open spec fn wf(self) -> bool {
        &&& forall|i: int, j: int|
            0 <= i < j < self.substreams.len() ==> self.substreams[i].0 != self.substreams[j].0
        &&& forall|i: int| 0 <= i < self.substreams.len() ==> (#[trigger] self.substreams[i]).1.wf()
        &&& forall|i: int|
            0 <= i < self.substreams.len() ==> match (#[trigger] self.substreams[i]).1.deadline() {
                Some(deadline) => self.next_timeout matches Some(next) && next <= deadline,
                None => true,
            }
    }

    /// The protocols that a listener offers on an inbound substream: the
    /// request-response protocols, then the notifications protocols, then the
    /// ping protocol.
    pub open spec fn offered(self) -> Seq<Seq<char>> {
        self.in_request_protocols + self.in_notifications_protocols + seq![self.ping_protocol]
    }

    /// The connection with one more substream, the youngest.
    pub open spec fn with_substream(self, id: SubstreamId, state: SubstreamView<TRqUd>) -> Self {
        EstablishedView { substreams: self.substreams.push((id, state)), ..self }
    }

    /// The connection with its next timeout no later than `deadline`.
    pub open spec fn with_deadline(self, deadline: u64) -> Self {
        EstablishedView { next_timeout: earlier(Some(deadline), self.next_timeout), ..self }
    }

    /// The connection after the remote has opened the substream `id`.
    pub open spec fn accept(self, id: SubstreamId) -> Self {
        self.with_substream(
            id,
            SubstreamView::InboundNegotiating(
                InProgressView::new(ConfigView::Listener { supported: self.offered() }),
            ),
        )
    }

    /// The connection after a request was added at `now` on the new
    /// substream `id`.
    pub open spec fn add_request(
        self,
        id: SubstreamId,
        now: u64,
        protocol: Seq<char>,
        request: Seq<u8>,
        user_data: TRqUd,
    ) -> Self {
        self.with_deadline((now + TIMEOUT) as u64).with_substream(
            id,
            SubstreamView::RequestOutNegotiating {
                timeout: (now + TIMEOUT) as u64,
                negotiation: dialing(protocol),
                request,
                user_data,
            },
        )
    }

    /// The connection after a notifications substream was opened at `now`
    /// as the new substream `id`.
    pub open spec fn open_notifications_substream(
        self,
        id: SubstreamId,
        now: u64,
        protocol: Seq<char>,
        handshake: Seq<u8>,
    ) -> Self {
        self.with_deadline((now + TIMEOUT) as u64).with_substream(
            id,
            SubstreamView::NotificationsOutNegotiating {
                timeout: (now + TIMEOUT) as u64,
                negotiation: dialing(protocol),
                handshake,
            },
        )
    }

    /// The connection after the remote has reset the substream `id`, and the
    /// event to report.
    pub open spec fn reset<TNotifUd>(self, id: SubstreamId) -> (
        Self,
        Option<EventView<TRqUd, TNotifUd>>,
    ) {
        match self.position(id) {
            None => (self, None),
            Some(i) => (
                EstablishedView { substreams: self.substreams.remove(i as int), ..self },
                request_failure(id, self.substreams[i as int].1, RequestError::SubstreamReset),
            ),
        }
    }

    /// The connection after the passage of time to `now`, and the event to
    /// report.
    ///
    /// Nothing happens before the next timeout. From then on, the oldest
    /// substream whose deadline has passed is removed and reported, and the
    /// next timeout becomes the earliest deadline that is left.
    pub open spec fn update_now<TNotifUd>(self, now: u64) -> (
        Self,
        Option<EventView<TRqUd, TNotifUd>>,
    ) {
        if self.next_timeout is None || self.next_timeout->0 > now {
            (self, None)
        } else {
            match expired_from(self.substreams, now, 0) {
                Some(i) => {
                    let left = self.substreams.remove(i as int);
                    (
                        EstablishedView {
                            substreams: left,
                            next_timeout: earliest_deadline(left),
                            ..self
                        },
                        request_failure(
                            self.substreams[i as int].0,
                            self.substreams[i as int].1,
                            RequestError::Timeout,
                        ),
                    )
                },
                None => (
                    EstablishedView { next_timeout: earliest_deadline(self.substreams), ..self },
                    None,
                ),
            }
        }
    }
}

/// What the data received on a substream lead to for the connection, see
/// [`EstablishedView::inject`].
pub struct DataOutcomeView<TRqUd, TNotifUd> {
    /// The connection afterwards.
    pub connection: EstablishedView<TRqUd>,
    /// What to do on the multiplexer's side of the substream, in this order.
    pub actions: Seq<ActionView>,
    /// The event to report.
    pub event: Option<EventView<TRqUd, TNotifUd>>,
}

impl<TRqUd> EstablishedView<TRqUd> {
    /// The connection after the remote has sent `data` on the substream
    /// `id`, what to do on the multiplexer and the event to report: what the
    /// data lead to for that substream, which keeps its place or is gone.
    /// `None` where the connection has no such substream or the state machine
    /// defines no transition.
    pub open spec fn inject<TNotifUd>(self, id: SubstreamId, data: Seq<u8>) -> Option<
        DataOutcomeView<TRqUd, TNotifUd>,
    > {
        match self.position(id) {
            None => None,
            Some(i) => match self.substreams[i as int].1.inject::<TNotifUd>(
                id,
                data,
                self.in_request_protocols,
                self.ping_protocol,
            ) {
                None => None,
                Some(outcome) => Some(
                    DataOutcomeView {
                        connection: EstablishedView {
                            substreams: match outcome.substream {
                                Some(state) => self.substreams.update(i as int, (id, state)),
                                None => self.substreams.remove(i as int),
                            },
                            ..self
                        },
                        actions: outcome.actions,
                        event: outcome.event,
                    },
                ),
            },
        }
    }
}

/// What the multiplexer found in the data that it decoded.
#[derive(Debug, Clone, Copy, PartialEq, Eq, Structural)]
pub enum IncomingDataDetail {
    /// The remote asks to open the substream `substream_id`.
    IncomingSubstream { substream_id: SubstreamId },
    /// The remote has reset the substream `substream_id`.
    StreamReset { substream_id: SubstreamId },
    /// The decoded data holds, from `start_offset` on, bytes that the remote
    /// sent on the substream `substream_id`.
    DataFrame { start_offset: usize, substream_id: SubstreamId },
}

/// What follows from one round of decoding, see
/// [`EstablishedView::incoming_data`].
pub struct DecodedView<TRqUd, TNotifUd> {
    /// The connection afterwards.
    pub connection: EstablishedView<TRqUd>,
    /// The substream that the actions are about.
    pub substream: Option<SubstreamId>,
    /// What to do on the multiplexer's side of that substream, in this order.
    pub actions: Seq<ActionView>,
    /// The event to report.
    pub event: Option<EventView<TRqUd, TNotifUd>>,
    /// Number of decoded bytes that are done with.
    pub consume: nat,
    /// Whether to decode another round.
    pub proceed: bool,
}

impl<TRqUd> EstablishedView<TRqUd> {
    /// What follows from a round in which the multiplexer went through the
    /// first `bytes_read` bytes of `decoded` and found `detail`.
    ///
    /// - Nothing found: the bytes are done with, and decoding goes on unless
    ///   there were none.
    /// - A substream asked for: it is accepted, and the bytes are done with.
    /// - A substream reset: it is removed and the failure of its request is
    ///   reported; no byte is done with.
    /// - Data on a substream: that substream takes the bytes from the start
    ///   offset up to `bytes_read`. With an event to report, no byte is done
    ///   with. Otherwise all are, and decoding goes on unless there were none.
    ///
    /// `None` where the connection cannot go on: the substream asked for
    /// exists, the data lie outside what was decoded, or the state machine
    /// defines no transition.
    pub open spec fn incoming_data<TNotifUd>(
        self,
        detail: Option<IncomingDataDetail>,
        bytes_read: nat,
        decoded: Seq<u8>,
    ) -> Option<DecodedView<TRqUd, TNotifUd>> {
        match detail {
            None => Some(
                DecodedView {
                    connection: self,
                    substream: None,
                    actions: Seq::empty(),
                    event: None,
                    consume: bytes_read,
                    proceed: bytes_read != 0,
                },
            ),
            Some(IncomingDataDetail::IncomingSubstream { substream_id }) => {
                if self.contains(substream_id) {
                    None
                } else {
                    Some(
                        DecodedView {
                            connection: self.accept(substream_id),
                            substream: Some(substream_id),
                            actions: seq![ActionView::Accept],
                            event: None,
                            consume: bytes_read,
                            proceed: true,
                        },
                    )
                }
            },
            Some(IncomingDataDetail::StreamReset { substream_id }) => Some(
                DecodedView {
                    connection: self.reset::<TNotifUd>(substream_id).0,
                    substream: Some(substream_id),
                    actions: Seq::empty(),
                    event: self.reset::<TNotifUd>(substream_id).1,
                    consume: 0,
                    proceed: self.reset::<TNotifUd>(substream_id).1 is None,
                },
            ),
            Some(IncomingDataDetail::DataFrame { start_offset, substream_id }) => {
                if start_offset <= bytes_read <= decoded.len() {
                    match self.inject::<TNotifUd>(
                        substream_id,
                        decoded.subrange(start_offset as int, bytes_read as int),
                    ) {
                        None => None,
                        Some(outcome) => Some(
                            DecodedView {
                                connection: outcome.connection,
                                substream: Some(substream_id),
                                actions: outcome.actions,
                                event: outcome.event,
                                consume: if outcome.event is Some {
                                    0
                                } else {
                                    bytes_read
                                },
                                proceed: outcome.event is None && bytes_read != 0,
                            },
                        ),
                    }
                } else {
                    None
                }
            },
        }
    }
}

/// The models of a list of entries.
spec fn entries_view<TRqUd>(entries: Seq<Entry<TRqUd>>) -> Seq<(SubstreamId, SubstreamView<TRqUd>)> {
    Seq::new(entries.len(), |i: int| (entries[i].id, entries[i].state@))
}

impl<TRqUd, TNotifUd> View for Established<TRqUd, TNotifUd> {
    type V = EstablishedView<TRqUd>;

    closed spec fn view(&self) -> EstablishedView<TRqUd> {
        EstablishedView {
            substreams: entries_view(self.substreams@),
            next_timeout: self.next_timeout,
            in_request_protocols: names_of(self.in_request_protocols@),
            in_notifications_protocols: names_of(self.in_notifications_protocols@),
            ping_protocol: self.ping_protocol@,
            multiplexer: self.multiplexer,
        }
    }
}

/// Nothing is earlier than the earliest deadline, which is absent only where
/// no substream has a deadline.
pub proof fn lemma_earliest_deadline<TRqUd>(substreams: Seq<(SubstreamId, SubstreamView<TRqUd>)>)
    ensures
        forall|i: int|
            0 <= i < substreams.len() ==> match (#[trigger] substreams[i]).1.deadline() {
                Some(deadline) => earliest_deadline(substreams) matches Some(earliest) && earliest
                    <= deadline,
                None => true,
            },
        earliest_deadline(substreams) matches Some(earliest) ==> exists|i: int|
            0 <= i < substreams.len() && (#[trigger] substreams[i]).1.deadline() == Some(earliest),
    decreases substreams.len(),
{
    if substreams.len() > 0 {
        let front = substreams.drop_last();
        lemma_earliest_deadline(front);
        assert forall|i: int| 0 <= i < substreams.len() implies match (
        #[trigger] substreams[i]).1.deadline() {
            Some(deadline) => earliest_deadline(substreams) matches Some(earliest) && earliest
                <= deadline,
            None => true,
        } by {
            if i < front.len() {
                assert(front[i] == substreams[i]);
            }
        }
        if let Some(earliest) = earliest_deadline(substreams) {
            if substreams.last().1.deadline() == Some(earliest) {
                assert(substreams[substreams.len() - 1] == substreams.last());
            } else {
                let i = choose|i: int|
                    0 <= i < front.len() && (#[trigger] front[i]).1.deadline() == Some(earliest);
                assert(front[i] == substreams[i]);
            }
        }
    }
}

/// What [`position_from`] finds: the first substream with that identifier.
pub proof fn lemma_position_from<TRqUd>(
    substreams: Seq<(SubstreamId, SubstreamView<TRqUd>)>,
    id: SubstreamId,
    from: nat,
)
    ensures
        match position_from(substreams, id, from) {
            Some(i) => from <= i < substreams.len() && substreams[i as int].0 == id && forall|
                j: int,
            | from <= j < i ==> (#[trigger] substreams[j]).0 != id,
            None => forall|j: int| from <= j < substreams.len() ==> (#[trigger] substreams[j]).0 != id,
        },
    decreases substreams.len() - from,
{
    if from < substreams.len() && substreams[from as int].0 != id {
        lemma_position_from(substreams, id, from + 1);
    }
}

/// What [`expired_from`] finds: the first substream that has timed out.
pub proof fn lemma_expired_from<TRqUd>(
    substreams: Seq<(SubstreamId, SubstreamView<TRqUd>)>,
    now: u64,
    from: nat,
)
    ensures
        match expired_from(substreams, now, from) {
            Some(i) => from <= i < substreams.len() && expired(substreams[i as int].1, now)
                && forall|j: int| from <= j < i ==> !expired((#[trigger] substreams[j]).1, now),
            None => forall|j: int|
                from <= j < substreams.len() ==> !expired((#[trigger] substreams[j]).1, now),
        },
    decreases substreams.len() - from,
{
    if from < substreams.len() && !expired(substreams[from as int].1, now) {
        lemma_expired_from(substreams, now, from + 1);
    }
}

impl ConnectionPrototype {
    /// Whether the local side has opened the connection.
    pub closed spec fn is_initiator(&self) -> bool {
        self.is_initiator
    }

    /// Builds the prototype of a connection on which the encryption layer
    /// has completed its handshake, as the side that opened the connection if
    /// `is_initiator`.
    pub fn from_noise_yamux(is_initiator: bool) -> (prototype: ConnectionPrototype)
        ensures
            prototype.is_initiator() == is_initiator,
    {
        ConnectionPrototype { is_initiator }
    }

    /// Turns this prototype into an actual connection, which has no
    /// substream and no timeout yet.
    pub fn into_connection<TRqUd, TNotifUd>(self, config: Config) -> (connection: Established<
        TRqUd,
        TNotifUd,
    >)
        ensures
            connection.wf(),
            connection@ == (EstablishedView::<TRqUd> {
                substreams: Seq::empty(),
                next_timeout: None,
                in_request_protocols: names_of(config.in_request_protocols@),
                in_notifications_protocols: names_of(config.in_notifications_protocols@),
                ping_protocol: config.ping_protocol@,
                multiplexer: MultiplexerConfig {
                    is_initiator: self.is_initiator(),
                    capacity: SUBSTREAMS_CAPACITY,
                    randomness_seed: config.randomness_seed,
                },
            }),
    {
        let connection = Established {
            substreams: Vec::new(),
            next_timeout: None,
            in_request_protocols: config.in_request_protocols,
            in_notifications_protocols: config.in_notifications_protocols,
            ping_protocol: config.ping_protocol,
            multiplexer: MultiplexerConfig {
                is_initiator: self.is_initiator,
                capacity: SUBSTREAMS_CAPACITY,
                randomness_seed: config.randomness_seed,
            },
            marker: core::marker::PhantomData,
        };
        assert(connection@.substreams =~= Seq::empty());
        connection
    }
}

/// Appends copies of the names of `list` to `names`.
fn append_names(names: &mut Vec<String>, list: &Vec<String>)
    ensures
        names_of(final(names)@) == names_of(old(names)@) + names_of(list@),
{
    let mut i: usize = 0;
    proof {
        assert(names_of(names@) =~= names_of(old(names)@) + names_of(list@.take(0)));
    }
    while i < list.len()
        invariant
            i <= list@.len(),
            names_of(names@) == names_of(old(names)@) + names_of(list@.take(i as int)),
        decreases list@.len() - i,
    {
        let ghost before = names@;
        let name = list[i].clone();
        assert(name@ == list@[i as int]@);
        names.push(name);
        i = i + 1;
        proof {
            assert(names_of(names@) =~= names_of(before).push(name@));
            assert(names_of(list@.take(i as int)) =~= names_of(list@.take(i - 1)).push(name@));
            assert(names_of(names@) =~= names_of(old(names)@) + names_of(list@.take(i as int)));
        }
    }
    proof {
        assert(list@.take(i as int) =~= list@);
    }
}

/// Starts the negotiation of a dialer that asks for `protocol`, and returns
/// it with the bytes that open it.
fn dial(protocol: String) -> (r: (InProgress, Vec<u8>))
    ensures
        r.0.wf(),
        r.0@ == dialing(protocol@),
        r.1@ == (ConfigView::Dialer { requested: protocol@ }).opening(),
{
    let negotiation = InProgress::new(NegotiationConfig::Dialer { requested_protocol: protocol });
    let nothing: Vec<u8> = Vec::new();
    match negotiation.read_write_vec(nothing.as_slice()) {
        Ok((Negotiation::InProgress(started), _, out)) => (started, out),
        _ => vstd::pervasive::unreached(),
    }
}

impl<TRqUd, TNotifUd> Established<TRqUd, TNotifUd> {
    /// The invariant of a connection: it holds of every connection that this
    /// module hands out.
    pub closed spec fn wf(&self) -> bool {
        &&& self@.wf()
        &&& forall|i: int|
            0 <= i < self.substreams@.len() ==> (#[trigger] self.substreams@[i]).state.wf()
    }

    /// What [`Self::wf`] says of the model.
    pub proof fn lemma_wf_view(&self)
        requires
            self.wf(),
        ensures
            self@.wf(),
    {
    }

    /// The moment at which the state machine wants [`Self::update_now`] to be
    /// called again, if there is one.
    pub fn wake_up_after(&self) -> (next: Option<u64>)
        ensures
            next == self@.next_timeout,
    {
        self.next_timeout
    }

    /// What the multiplexer of this connection is to be created with.
    pub fn multiplexer_config(&self) -> (config: MultiplexerConfig)
        ensures
            config == self@.multiplexer,
    {
        self.multiplexer
    }

    /// Index of the substream `id`.
    fn find(&self, id: SubstreamId) -> (found: Option<usize>)
        ensures
            match found {
                Some(i) => self@.position(id) == Some(i as nat) && i < self.substreams@.len(),
                None => self@.position(id) is None,
            },
    {
        let mut i: usize = 0;
        while i < self.substreams.len()
            invariant
                i <= self.substreams@.len(),
                self@.position(id) == position_from(self@.substreams, id, i as nat),
            decreases self.substreams@.len() - i,
        {
            if self.substreams[i].id == id {
                return Some(i);
            }
            i = i + 1;
        }
        None
    }

    /// Whether the connection has a substream `id`.
    pub fn contains(&self, id: SubstreamId) -> (found: bool)
        ensures
            found == self@.contains(id),
    {
        self.find(id).is_some()
    }

    /// The identifiers of the substreams of the connection, oldest first.
    pub fn substream_ids(&self) -> (ids: Vec<SubstreamId>)
        ensures
            ids@.len() == self@.substreams.len(),
            forall|i: int| 0 <= i < ids@.len() ==> ids@[i] == self@.substreams[i].0,
    {
        let mut ids: Vec<SubstreamId> = Vec::new();
        let mut i: usize = 0;
        while i < self.substreams.len()
            invariant
                i <= self.substreams@.len(),
                ids@.len() == i,
                forall|j: int| 0 <= j < i ==> ids@[j] == self@.substreams[j].0,
            decreases self.substreams@.len() - i,
        {
            ids.push(self.substreams[i].id);
            i = i + 1;
        }
        ids
    }

    /// The state of the substream `id`, if the connection has such a
    /// substream.
    pub fn substream(&self, id: SubstreamId) -> (state: Option<&Substream<TRqUd>>)
        requires
            self.wf(),
        ensures
            match state {
                Some(found) => self@.position(id) matches Some(i) && self@.substreams[i as int].1
                    == found@ && found.wf(),
                None => !self@.contains(id),
            },
    {
        match self.find(id) {
            Some(index) => Some(&self.substreams[index].state),
            None => None,
        }
    }

    /// Adds the substream `id` in the state `state`, with `deadline` as its
    /// deadline if it has one.
    fn insert(&mut self, id: SubstreamId, state: Substream<TRqUd>)
        requires
            old(self).wf(),
            !old(self)@.contains(id),
            state.wf(),
            state@.deadline() matches Some(deadline) ==> old(self)@.next_timeout matches Some(next)
                && next <= deadline,
        ensures
            final(self).wf(),
            final(self)@ == old(self)@.with_substream(id, state@),
    {
        proof {
            lemma_position_from(self@.substreams, id, 0);
        }
        self.substreams.push(Entry { id, state });
        proof {
            assert(self@.substreams =~= old(self)@.substreams.push((id, state@)));
        }
    }

    /// Brings the next timeout down to `deadline` if it is later.
    fn lower_timeout(&mut self, deadline: u64)
        requires
            old(self).wf(),
        ensures
            final(self).wf(),
            final(self)@ == old(self)@.with_deadline(deadline),
            final(self)@.next_timeout matches Some(next) && next <= deadline,
    {
        let lower = match self.next_timeout {
            None => true,
            Some(next) => next > deadline,
        };
        if lower {
            self.next_timeout = Some(deadline);
        }
    }

    /// Takes note that the remote has opened the substream `id`, on which it
    /// may negotiate any of the protocols that the connection accepts.
    ///
    /// `id` must be new to the connection.
    pub fn accept_substream(&mut self, id: SubstreamId)
        requires
            old(self).wf(),
            !old(self)@.contains(id),
        ensures
            final(self).wf(),
            final(self)@ == old(self)@.accept(id),
    {
        let mut supported: Vec<String> = Vec::new();
        append_names(&mut supported, &self.in_request_protocols);
        append_names(&mut supported, &self.in_notifications_protocols);
        supported.push(self.ping_protocol.clone());
        proof {
            assert(names_of(supported@) =~= self@.offered());
        }
        let negotiation = InProgress::new(
            NegotiationConfig::Listener { supported_protocols: supported },
        );
        proof {
            negotiation.lemma_wf_view();
        }
        self.insert(id, Substream::InboundNegotiating(negotiation));
    }

    /// Sends a request to the remote, on the substream `id` that the
    /// multiplexer has just opened for it.
    ///
    /// Returns the bytes to write on that substream. The request itself
    /// follows once the remote has agreed to `protocol`. Its outcome is
    /// reported by an [`Event::Response`], which passes `user_data` back: the
    /// response, or the reason for which there is none, such as the absence of
    /// a response [`TIMEOUT`] after `now`.
    pub fn add_request(
        &mut self,
        id: SubstreamId,
        now: u64,
        protocol: String,
        request: Vec<u8>,
        user_data: TRqUd,
    ) -> (out: Vec<u8>)
        requires
            old(self).wf(),
            !old(self)@.contains(id),
            now + TIMEOUT <= u64::MAX,
        ensures
            final(self).wf(),
            final(self)@ == old(self)@.add_request(id, now, protocol@, request@, user_data),
            out@ == (ConfigView::Dialer { requested: protocol@ }).opening(),
    {
        let (negotiation, out) = dial(protocol);
        let timeout: u64 = now + TIMEOUT;
        self.lower_timeout(timeout);
        proof {
            negotiation.lemma_wf_view();
        }
        self.insert(
            id,
            Substream::RequestOutNegotiating { timeout, negotiation, request, user_data },
        );
        out
    }

    /// Opens a substream destined for a stream of notifications, as the
    /// substream `id` that the multiplexer has just opened for it.
    ///
    /// Returns the bytes to write on that substream. The handshake follows
    /// once the remote has agreed to `protocol`.
    pub fn open_notifications_substream(
        &mut self,
        id: SubstreamId,
        now: u64,
        protocol: String,
        handshake: Vec<u8>,
    ) -> (out: Vec<u8>)
        requires
            old(self).wf(),
            !old(self)@.contains(id),
            now + TIMEOUT <= u64::MAX,
        ensures
            final(self).wf(),
            final(self)@ == old(self)@.open_notifications_substream(
                id,
                now,
                protocol@,
                handshake@,
            ),
            out@ == (ConfigView::Dialer { requested: protocol@ }).opening(),
    {
        let (negotiation, out) = dial(protocol);
        let timeout: u64 = now + TIMEOUT;
        self.lower_timeout(timeout);
        proof {
            negotiation.lemma_wf_view();
        }
        self.insert(id, Substream::NotificationsOutNegotiating { timeout, negotiation, handshake });
        out
    }
}

/// What the data received on a substream lead to for the connection.
pub struct DataOutcome<TRqUd, TNotifUd> {
    /// The connection afterwards.
    pub connection: Established<TRqUd, TNotifUd>,
    /// What to do on the multiplexer's side of the substream, in this order.
    pub actions: Vec<Action>,
    /// The event to report.
    pub event: Option<Event<TRqUd, TNotifUd>>,
}

impl<TRqUd, TNotifUd> View for DataOutcome<TRqUd, TNotifUd> {
    type V = DataOutcomeView<TRqUd, TNotifUd>;

    open spec fn view(&self) -> DataOutcomeView<TRqUd, TNotifUd> {
        DataOutcomeView {
            connection: self.connection@,
            actions: actions_view(self.actions@),
            event: event_view(self.event),
        }
    }
}

/// The model of an outcome that may be undefined.
pub open spec fn data_outcome_view<TRqUd, TNotifUd>(
    outcome: Option<DataOutcome<TRqUd, TNotifUd>>,
) -> Option<DataOutcomeView<TRqUd, TNotifUd>> {
    match outcome {
        Some(o) => Some(o@),
        None => None,
    }
}

impl<TRqUd, TNotifUd> Established<TRqUd, TNotifUd> {
    /// Removes the substream at the index `index`, and returns its state.
    fn remove(&mut self, index: usize) -> (state: Substream<TRqUd>)
        requires
            old(self).wf(),
            index < old(self)@.substreams.len(),
        ensures
            final(self).wf(),
            final(self)@ == (EstablishedView {
                substreams: old(self)@.substreams.remove(index as int),
                ..old(self)@
            }),
            state@ == old(self)@.substreams[index as int].1,
            state.wf(),
    {
        let entry = self.substreams.remove(index);
        proof {
            assert(self@.substreams =~= old(self)@.substreams.remove(index as int));
            assert(entry == old(self).substreams@[index as int]);
        }
        entry.state
    }

    /// Puts the substream `id` in the state `state` at the index `index`.
    fn put_back(&mut self, index: usize, id: SubstreamId, state: Substream<TRqUd>)
        requires
            old(self).wf(),
            index <= old(self)@.substreams.len(),
            !old(self)@.contains(id),
            state.wf(),
            state@.deadline() matches Some(deadline) ==> old(self)@.next_timeout matches Some(next)
                && next <= deadline,
        ensures
            final(self).wf(),
            final(self)@ == (EstablishedView {
                substreams: old(self)@.substreams.insert(index as int, (id, state@)),
                ..old(self)@
            }),
    {
        proof {
            lemma_position_from(self@.substreams, id, 0);
            assert(self@.substreams.len() == self.substreams@.len());
        }
        self.substreams.insert(index, Entry { id, state });
        proof {
            let entries = self.substreams@;
            let former = old(self).substreams@;
            assert(entries == former.insert(index as int, Entry { id, state }));
            assert(self@.substreams =~= old(self)@.substreams.insert(index as int, (id, state@)));
            assert forall|i: int| 0 <= i < entries.len() implies (#[trigger] entries[i]).state.wf() by {
                if i < index {
                    assert(entries[i] == former[i]);
                } else if i > index {
                    assert(entries[i] == former[i - 1]);
                }
            }
            let models = self@.substreams;
            let formerly = old(self)@.substreams;
            assert forall|i: int| 0 <= i < models.len() implies (#[trigger] models[i]).1.wf()
                && match models[i].1.deadline() {
                Some(deadline) => self@.next_timeout matches Some(next) && next <= deadline,
                None => true,
            } by {
                if i < index {
                    assert(models[i] == formerly[i]);
                } else if i > index {
                    assert(models[i] == formerly[i - 1]);
                }
            }
            assert forall|i: int, j: int| 0 <= i < j < models.len() implies models[i].0
                != models[j].0 by {
                let a = if i < index { i } else { i - 1 };
                let b = if j < index { j } else { j - 1 };
                if i != index {
                    assert(models[i] == formerly[a]);
                }
                if j != index {
                    assert(models[j] == formerly[b]);
                }
            }
        }
    }

    /// Takes note that the remote has reset the substream `id`, which is no
    /// more. To call when the multiplexer reports the reset.
    ///
    /// Returns the event to report: the failure of the request that the
    /// substream carried, if it carried one. Nothing changes where the
    /// connection has no such substream.
    pub fn substream_reset(&mut self, id: SubstreamId) -> (event: Option<Event<TRqUd, TNotifUd>>)
        requires
            old(self).wf(),
        ensures
            final(self).wf(),
            (final(self)@, event_view(event)) == old(self)@.reset::<TNotifUd>(id),
    {
        match self.find(id) {
            None => None,
            Some(index) => {
                let state = self.remove(index);
                match state.into_request_user_data() {
                    Some(user_data) => Some(
                        Event::Response {
                            response: Err(RequestError::SubstreamReset),
                            id,
                            user_data,
                        },
                    ),
                    None => None,
                }
            },
        }
    }

    /// Index of the oldest substream that has timed out at `now`.
    fn find_expired(&self, now: u64) -> (found: Option<usize>)
        ensures
            match found {
                Some(i) => expired_from(self@.substreams, now, 0) == Some(i as nat) && i
                    < self.substreams@.len(),
                None => expired_from(self@.substreams, now, 0) is None,
            },
    {
        let mut i: usize = 0;
        while i < self.substreams.len()
            invariant
                i <= self.substreams@.len(),
                expired_from(self@.substreams, now, 0) == expired_from(
                    self@.substreams,
                    now,
                    i as nat,
                ),
            decreases self.substreams@.len() - i,
        {
            let timed_out = match self.substreams[i].state.deadline() {
                Some(deadline) => deadline <= now,
                None => false,
            };
            if timed_out {
                return Some(i);
            }
            i = i + 1;
        }
        None
    }

    /// The earliest deadline among the substreams.
    fn earliest_deadline(&self) -> (earliest: Option<u64>)
        ensures
            earliest == earliest_deadline(self@.substreams),
    {
        let mut earliest: Option<u64> = None;
        let mut i: usize = 0;
        proof {
            assert(self@.substreams.take(0) =~= Seq::empty());
        }
        while i < self.substreams.len()
            invariant
                i <= self.substreams@.len(),
                earliest == earliest_deadline(self@.substreams.take(i as int)),
            decreases self.substreams@.len() - i,
        {
            proof {
                let next = self@.substreams.take(i + 1);
                assert(next.drop_last() =~= self@.substreams.take(i as int));
                assert(next.last() == self@.substreams[i as int]);
            }
            earliest =
            match (earliest, self.substreams[i].state.deadline()) {
                (Some(a), Some(b)) => Some(if b < a { b } else { a }),
                (Some(a), None) => Some(a),
                (None, other) => other,
            };
            i = i + 1;
        }
        proof {
            assert(self@.substreams.take(i as int) =~= self@.substreams);
        }
        earliest
    }

    /// Updates the state machine with the passage of time: `now` is the
    /// current time. To call before anything else is done at that time.
    ///
    /// Returns the event that happened as a result: the failure of the oldest
    /// request whose deadline has passed. Its substream is no more, and has to
    /// be reset on the multiplexer. Only one request is reported at a time:
    /// call again at the same `now` for the next.
    pub fn update_now(&mut self, now: u64) -> (event: Option<Event<TRqUd, TNotifUd>>)
        requires
            old(self).wf(),
        ensures
            final(self).wf(),
            (final(self)@, event_view(event)) == old(self)@.update_now::<TNotifUd>(now),
    {
        match self.next_timeout {
            None => {
                return None;
            },
            Some(next) => {
                if next > now {
                    return None;
                }
            },
        }
        let event = match self.find_expired(now) {
            Some(index) => {
                let id = self.substreams[index].id;
                let state = self.remove(index);
                match state.into_request_user_data() {
                    Some(user_data) => Some(
                        Event::Response { response: Err(RequestError::Timeout), id, user_data },
                    ),
                    None => None,
                }
            },
            None => None,
        };
        let earliest = self.earliest_deadline();
        proof {
            lemma_earliest_deadline(self@.substreams);
        }
        self.next_timeout = earliest;
        event
    }

    /// Advances the connection with the bytes `data` that the remote sent on
    /// the substream `id`. To call when the multiplexer reports a data frame.
    ///
    /// Returns the connection, what to do on the multiplexer's side of the
    /// substream, in order, and the event to report. Once there is an event,
    /// or once the substream is reset, what is left of `data` is dropped.
    ///
    /// Returns `None` where the connection has no such substream, or where
    /// the data lead to a point for which the state machine defines no
    /// transition: the connection cannot go on.
    pub fn substream_data(self, id: SubstreamId, data: &[u8]) -> (r: Option<
        DataOutcome<TRqUd, TNotifUd>,
    >)
        requires
            self.wf(),
        ensures
            data_outcome_view(r) == self@.inject::<TNotifUd>(id, data@),
            r matches Some(outcome) ==> outcome.connection.wf(),
    {
        let mut connection = self;
        let index = match connection.find(id) {
            Some(index) => index,
            None => {
                return None;
            },
        };
        let ghost before = connection@;
        proof {
            lemma_position_from(before.substreams, id, 0);
            lemma_inject_keeps_request::<TRqUd, TNotifUd>(
                before.substreams[index as int].1,
                id,
                data@,
                before.in_request_protocols,
                before.ping_protocol,
            );
        }
        let state = connection.remove(index);
        let outcome = match state.inject_data::<TNotifUd>(
            id,
            data,
            &connection.in_request_protocols,
            &connection.ping_protocol,
        ) {
            Some(outcome) => outcome,
            None => {
                return None;
            },
        };
        match outcome.substream {
            Some(state) => {
                proof {
                    let left = before.substreams.remove(index as int);
                    lemma_position_from(left, id, 0);
                    assert forall|j: int| 0 <= j < left.len() implies (#[trigger] left[j]).0
                        != id by {
                        if j < index {
                            assert(left[j] == before.substreams[j]);
                        } else {
                            assert(left[j] == before.substreams[j + 1]);
                        }
                    }
                    assert(before.substreams.remove(index as int).insert(
                        index as int,
                        (id, state@),
                    ) =~= before.substreams.update(index as int, (id, state@)));
                }
                connection.put_back(index, id, state);
            },
            None => {},
        }
        Some(DataOutcome { connection, actions: outcome.actions, event: outcome.event })
    }
}

/// What follows from one round of decoding.
pub struct Decoded<TRqUd, TNotifUd> {
    /// The connection afterwards.
    pub connection: Established<TRqUd, TNotifUd>,
    /// The substream that the actions are about.
    pub substream: Option<SubstreamId>,
    /// What to do on the multiplexer's side of that substream, in this order.
    pub actions: Vec<Action>,
    /// The event to report. Where there is one, nothing more is decoded for
    /// now.
    pub event: Option<Event<TRqUd, TNotifUd>>,
    /// Number of decoded bytes that are done with, and to be discarded.
    pub consume: usize,
    /// Whether to decode another round.
    pub proceed: bool,
}

impl<TRqUd, TNotifUd> View for Decoded<TRqUd, TNotifUd> {
    type V = DecodedView<TRqUd, TNotifUd>;

    open spec fn view(&self) -> DecodedView<TRqUd, TNotifUd> {
        DecodedView {
            connection: self.connection@,
            substream: self.substream,
            actions: actions_view(self.actions@),
            event: event_view(self.event),
            consume: self.consume as nat,
            proceed: self.proceed,
        }
    }
}

/// The model of a round of decoding that may be undefined.
pub open spec fn decoded_view<TRqUd, TNotifUd>(decoded: Option<Decoded<TRqUd, TNotifUd>>) -> Option<
    DecodedView<TRqUd, TNotifUd>,
> {
    match decoded {
        Some(d) => Some(d@),
        None => None,
    }
}

impl<TRqUd, TNotifUd> Established<TRqUd, TNotifUd> {
    /// Advances the connection with what the multiplexer made of the data
    /// that the cipher decoded: it went through the first `bytes_read` bytes
    /// of `decoded`, and found `detail`.
    ///
    /// Returns the connection, what to do on the multiplexer, the event to
    /// report, how many of the decoded bytes to discard, and whether to hand
    /// the multiplexer what is left.
    ///
    /// Returns `None` where the connection cannot go on: the substream that
    /// the remote asks for exists, the data frame lies outside `decoded`, or
    /// the state machine defines no transition.
    pub fn incoming_data(
        self,
        detail: Option<IncomingDataDetail>,
        bytes_read: usize,
        decoded: &[u8],
    ) -> (r: Option<Decoded<TRqUd, TNotifUd>>)
        requires
            self.wf(),
        ensures
            decoded_view(r) == self@.incoming_data::<TNotifUd>(detail, bytes_read as nat, decoded@),
            r matches Some(round) ==> round.connection.wf(),
    {
        let mut connection = self;
        match detail {
            None => {
                let actions: Vec<Action> = Vec::new();
                assert(actions_view(actions@) =~= Seq::empty());
                Some(
                    Decoded {
                        connection,
                        substream: None,
                        actions,
                        event: None,
                        consume: bytes_read,
                        proceed: bytes_read != 0,
                    },
                )
            },
            Some(IncomingDataDetail::IncomingSubstream { substream_id }) => {
                if connection.contains(substream_id) {
                    return None;
                }
                connection.accept_substream(substream_id);
                let mut actions: Vec<Action> = Vec::new();
                actions.push(Action::Accept);
                assert(actions_view(actions@) =~= seq![ActionView::Accept]);
                Some(
                    Decoded {
                        connection,
                        substream: Some(substream_id),
                        actions,
                        event: None,
                        consume: bytes_read,
                        proceed: true,
                    },
                )
            },
            Some(IncomingDataDetail::StreamReset { substream_id }) => {
                let event = connection.substream_reset(substream_id);
                let actions: Vec<Action> = Vec::new();
                assert(actions_view(actions@) =~= Seq::empty());
                let proceed = event.is_none();
                Some(
                    Decoded {
                        connection,
                        substream: Some(substream_id),
                        actions,
                        event,
                        consume: 0,
                        proceed,
                    },
                )
            },
            Some(IncomingDataDetail::DataFrame { start_offset, substream_id }) => {
                if start_offset > bytes_read || bytes_read > decoded.len() {
                    return None;
                }
                let data = vstd::slice::slice_subrange(decoded, start_offset, bytes_read);
                match connection.substream_data(substream_id, data) {
                    None => None,
                    Some(outcome) => {
                        let reported = outcome.event.is_some();
                        Some(
                            Decoded {
                                connection: outcome.connection,
                                substream: Some(substream_id),
                                actions: outcome.actions,
                                event: outcome.event,
                                consume: if reported {
                                    0
                                } else {
                                    bytes_read
                                },
                                proceed: !reported && bytes_read != 0,
                            },
                        )
                    },
                }
            },
        }
    }
}

/// While the next timeout is absent, no substream has a deadline. While it is
/// present, it comes no later than the deadline of any substream.
pub proof fn lemma_wake_up_covers_deadlines<TRqUd>(connection: EstablishedView<TRqUd>)
    requires
        connection.wf(),
    ensures
        connection.next_timeout is None ==> forall|i: int|
            0 <= i < connection.substreams.len() ==> (
            #[trigger] connection.substreams[i]).1.deadline() is None,
        connection.next_timeout matches Some(next) ==> forall|i: int|
            0 <= i < connection.substreams.len() ==> match (
            #[trigger] connection.substreams[i]).1.deadline() {
                Some(deadline) => next <= deadline,
                None => true,
            },
{
}

/// Once the next timeout has been reached, the passage of time leaves as next
/// timeout the earliest deadline of the substreams that remain: one of their
/// deadlines, later than none of them, and absent only where none has a
/// deadline.
pub proof fn lemma_update_now_wake_up<TRqUd, TNotifUd>(connection: EstablishedView<TRqUd>, now: u64)
    requires
        connection.wf(),
        connection.next_timeout matches Some(next) && next <= now,
    ensures
        ({
            let after = connection.update_now::<TNotifUd>(now).0;
            &&& after.wf()
            &&& after.next_timeout == earliest_deadline(after.substreams)
            &&& after.next_timeout matches Some(next) ==> exists|i: int|
                0 <= i < after.substreams.len() && (#[trigger] after.substreams[i]).1.deadline()
                    == Some(next)
            &&& after.next_timeout is None ==> forall|i: int|
                0 <= i < after.substreams.len() ==> (
                #[trigger] after.substreams[i]).1.deadline() is None
        }),
{
    let after = connection.update_now::<TNotifUd>(now).0;
    lemma_expired_from(connection.substreams, now, 0);
    lemma_earliest_deadline(after.substreams);
    lemma_removal_keeps_wf(connection, now);
}

/// Without one of its substreams, a connection still meets its invariant,
/// with the same next timeout or with the earliest deadline left as the next
/// timeout.
proof fn lemma_remove_keeps_wf<TRqUd>(connection: EstablishedView<TRqUd>, index: int)
    requires
        connection.wf(),
        0 <= index < connection.substreams.len(),
    ensures
        (EstablishedView { substreams: connection.substreams.remove(index), ..connection }).wf(),
        (EstablishedView {
            substreams: connection.substreams.remove(index),
            next_timeout: earliest_deadline(connection.substreams.remove(index)),
            ..connection
        }).wf(),
        forall|j: int|
            0 <= j < connection.substreams.remove(index).len() ==> (
            #[trigger] connection.substreams.remove(index)[j]).0
                != connection.substreams[index].0,
{
    let all = connection.substreams;
    let left = all.remove(index);
    assert forall|j: int| 0 <= j < left.len() implies left[j] == all[if j < index {
        j
    } else {
        j + 1
    }] by {}
    assert forall|j: int| 0 <= j < left.len() implies (#[trigger] left[j]).1.wf() && left[j].0
        != all[index].0 && match left[j].1.deadline() {
        Some(deadline) => connection.next_timeout matches Some(next) && next <= deadline,
        None => true,
    } by {
        let a = if j < index { j } else { j + 1 };
        assert(left[j] == all[a]);
        assert(all[a].1.wf());
    }
    assert forall|j: int, k: int| 0 <= j < k < left.len() implies left[j].0 != left[k].0 by {
        let a = if j < index { j } else { j + 1 };
        let b = if k < index { k } else { k + 1 };
        assert(left[j] == all[a]);
        assert(left[k] == all[b]);
    }
    lemma_earliest_deadline(left);
}

/// Removing the oldest substream that has timed out, if there is one, and
/// taking the earliest deadline left as next timeout, keeps the invariant.
proof fn lemma_removal_keeps_wf<TRqUd>(connection: EstablishedView<TRqUd>, now: u64)
    requires
        connection.wf(),
    ensures
        expired_from(connection.substreams, now, 0) matches Some(i) ==> (EstablishedView {
            substreams: connection.substreams.remove(i as int),
            next_timeout: earliest_deadline(connection.substreams.remove(i as int)),
            ..connection
        }).wf(),
        expired_from(connection.substreams, now, 0) is None ==> (EstablishedView {
            next_timeout: earliest_deadline(connection.substreams),
            ..connection
        }).wf(),
{
    lemma_expired_from(connection.substreams, now, 0);
    match expired_from(connection.substreams, now, 0) {
        Some(i) => {
            lemma_remove_keeps_wf(connection, i as int);
        },
        None => {
            lemma_earliest_deadline(connection.substreams);
        },
    }
}

/// A passage of time that reports nothing leaves the connection at a fixed
/// point: at the same time, neither the connection nor the answer changes
/// again.
pub proof fn lemma_update_now_fixed_point<TRqUd, TNotifUd>(
    connection: EstablishedView<TRqUd>,
    now: u64,
)
    requires
        connection.wf(),
        connection.update_now::<TNotifUd>(now).1 is None,
    ensures
        ({
            let after = connection.update_now::<TNotifUd>(now).0;
            after.update_now::<TNotifUd>(now) == (after, None::<EventView<TRqUd, TNotifUd>>)
        }),
{
    let after = connection.update_now::<TNotifUd>(now).0;
    if connection.next_timeout matches Some(next) && next <= now {
        lemma_expired_from(connection.substreams, now, 0);
        lemma_earliest_deadline(connection.substreams);
        match expired_from(connection.substreams, now, 0) {
            Some(i) => {
                assert(connection.substreams[i as int].1.request_user_data() is Some);
            },
            None => {
                if let Some(earliest) = after.next_timeout {
                    let i = choose|i: int|
                        0 <= i < connection.substreams.len() && (
                        #[trigger] connection.substreams[i]).1.deadline() == Some(earliest);
                    assert(!expired(connection.substreams[i].1, now));
                }
            },
        }
    }
}

/// A round of decoding that reports nothing, is done with no byte and asks
/// for no other round has changed nothing: the same round again yields the
/// same.
pub proof fn lemma_idle_round_fixed_point<TRqUd, TNotifUd>(
    connection: EstablishedView<TRqUd>,
    detail: Option<IncomingDataDetail>,
    bytes_read: nat,
    decoded: Seq<u8>,
)
    requires
        connection.wf(),
        connection.incoming_data::<TNotifUd>(detail, bytes_read, decoded) matches Some(round)
            && round.event is None && round.consume == 0 && !round.proceed,
    ensures
        connection.incoming_data::<TNotifUd>(detail, bytes_read, decoded)->0.connection
            == connection,
        connection.incoming_data::<TNotifUd>(detail, bytes_read, decoded)->0.actions
            == Seq::<ActionView>::empty(),
{
    match detail {
        Some(IncomingDataDetail::DataFrame { start_offset, substream_id }) => {
            lemma_position_from(connection.substreams, substream_id, 0);
            let i = connection.position(substream_id)->0 as int;
            let data = decoded.subrange(start_offset as int, bytes_read as int);
            assert(data.len() == 0);
            let round = connection.incoming_data::<TNotifUd>(detail, bytes_read, decoded)->0;
            assert(round.connection.substreams =~= connection.substreams);
        },
        _ => {},
    }
}

/// The reset of a substream reports the failure of a request exactly where
/// the substream carried one, and says which. The substream is then gone, so
/// that a second reset reports nothing and changes nothing.
pub proof fn lemma_reset_reports_once<TRqUd, TNotifUd>(
    connection: EstablishedView<TRqUd>,
    id: SubstreamId,
)
    requires
        connection.wf(),
    ensures
        ({
            let (after, event) = connection.reset::<TNotifUd>(id);
            &&& after.wf()
            &&& !after.contains(id)
            &&& after.reset::<TNotifUd>(id) == (after, None::<EventView<TRqUd, TNotifUd>>)
            &&& match connection.position(id) {
                Some(i) => match connection.substreams[i as int].1 {
                    SubstreamView::RequestOutNegotiating { user_data, .. } => event == Some(
                        EventView::<TRqUd, TNotifUd>::Response {
                            response: Err(RequestError::SubstreamReset),
                            id,
                            user_data,
                        },
                    ),
                    SubstreamView::RequestOut { user_data, .. } => event == Some(
                        EventView::<TRqUd, TNotifUd>::Response {
                            response: Err(RequestError::SubstreamReset),
                            id,
                            user_data,
                        },
                    ),
                    _ => event is None,
                },
                None => event is None,
            }
        }),
{
    lemma_position_from(connection.substreams, id, 0);
    let (after, event) = connection.reset::<TNotifUd>(id);
    if let Some(i) = connection.position(id) {
        let left = connection.substreams.remove(i as int);
        assert forall|j: int| 0 <= j < left.len() implies (#[trigger] left[j]).0 != id && left[j].1.wf()
            && match left[j].1.deadline() {
            Some(deadline) => connection.next_timeout matches Some(next) && next <= deadline,
            None => true,
        } by {
            if j < i {
                assert(left[j] == connection.substreams[j]);
            } else {
                assert(left[j] == connection.substreams[j + 1]);
            }
        }
        assert forall|j: int, k: int| 0 <= j < k < left.len() implies left[j].0 != left[k].0 by {
            let a = if j < i { j } else { j + 1 };
            let b = if k < i { k } else { k + 1 };
            assert(left[j] == connection.substreams[a]);
            assert(left[k] == connection.substreams[b]);
        }
        lemma_position_from(left, id, 0);
    }
}

/// Where the deadline of a request has passed, the passage of time reports
/// the timeout of the oldest such request, with its user data. That request
/// is then gone.
pub proof fn lemma_timeout_reported<TRqUd, TNotifUd>(
    connection: EstablishedView<TRqUd>,
    now: u64,
    index: int,
)
    requires
        connection.wf(),
        0 <= index < connection.substreams.len(),
        expired(connection.substreams[index].1, now),
    ensures
        ({
            let (after, event) = connection.update_now::<TNotifUd>(now);
            &&& after.wf()
            &&& expired_from(connection.substreams, now, 0) matches Some(first) && first <= index
                && event == Some(
                EventView::<TRqUd, TNotifUd>::Response {
                    response: Err(RequestError::Timeout),
                    id: connection.substreams[first as int].0,
                    user_data: connection.substreams[first as int].1.request_user_data()->0,
                },
            ) && !after.contains(connection.substreams[first as int].0)
        }),
{
    lemma_expired_from(connection.substreams, now, 0);
    lemma_removal_keeps_wf(connection, now);
    let first = expired_from(connection.substreams, now, 0)->0 as int;
    assert(connection.substreams[first].1.deadline() is Some);
    let id = connection.substreams[first].0;
    let left = connection.substreams.remove(first);
    assert forall|j: int| 0 <= j < left.len() implies (#[trigger] left[j]).0 != id by {
        if j < first {
            assert(left[j] == connection.substreams[j]);
        } else {
            assert(left[j] == connection.substreams[j + 1]);
        }
    }
    lemma_position_from(left, id, 0);
}

/// No event is ever about a substream that the connection does not have:
/// its reset reports nothing, data on it is not taken, and what the passage
/// of time reports is about another substream.
pub proof fn lemma_no_event_without_substream<TRqUd, TNotifUd>(
    connection: EstablishedView<TRqUd>,
    id: SubstreamId,
    now: u64,
    data: Seq<u8>,
)
    requires
        connection.wf(),
        !connection.contains(id),
    ensures
        connection.reset::<TNotifUd>(id).1 is None,
        connection.inject::<TNotifUd>(id, data) is None,
        connection.update_now::<TNotifUd>(now).1 matches Some(event) ==> event.substream()
            != Some(id),
        !connection.update_now::<TNotifUd>(now).0.contains(id),
{
    lemma_position_from(connection.substreams, id, 0);
    lemma_expired_from(connection.substreams, now, 0);
    let after = connection.update_now::<TNotifUd>(now).0;
    assert forall|j: int| 0 <= j < after.substreams.len() implies (#[trigger] after.substreams[j]).0
        != id by {
        if connection.next_timeout matches Some(next) && next <= now {
            if let Some(i) = expired_from(connection.substreams, now, 0) {
                if j < i {
                    assert(after.substreams[j] == connection.substreams[j]);
                } else {
                    assert(after.substreams[j] == connection.substreams[j + 1]);
                }
            }
        }
    }
    lemma_position_from(after.substreams, id, 0);
}

/// The passage of time reports no timeout early: what it reports is the
/// failure of a request that the connection had, and whose deadline has
/// passed.
pub proof fn lemma_timeout_not_early<TRqUd, TNotifUd>(connection: EstablishedView<TRqUd>, now: u64)
    requires
        connection.wf(),
        connection.update_now::<TNotifUd>(now).1 is Some,
    ensures
        ({
            let event = connection.update_now::<TNotifUd>(now).1->0;
            &&& event matches EventView::Response { response: Err(RequestError::Timeout), id, .. }
                && connection.position(id) matches Some(i) && match connection.substreams[i as int].1.deadline() {
                Some(deadline) => deadline <= now,
                None => false,
            }
        }),
{
    lemma_expired_from(connection.substreams, now, 0);
    let first = expired_from(connection.substreams, now, 0)->0 as int;
    let id = connection.substreams[first].0;
    lemma_position_from(connection.substreams, id, 0);
}

/// A request added while the next timeout is the earliest deadline leaves it
/// so.
pub proof fn lemma_add_request_wake_up<TRqUd>(
    connection: EstablishedView<TRqUd>,
    id: SubstreamId,
    now: u64,
    protocol: Seq<char>,
    request: Seq<u8>,
    user_data: TRqUd,
)
    requires
        connection.wf(),
        now + TIMEOUT <= u64::MAX,
        connection.next_timeout == earliest_deadline(connection.substreams),
    ensures
        ({
            let after = connection.add_request(id, now, protocol, request, user_data);
            after.next_timeout == earliest_deadline(after.substreams)
        }),
{
    let after = connection.add_request(id, now, protocol, request, user_data);
    assert(after.substreams.drop_last() =~= connection.substreams);
}

/// At most one event comes out of a round of decoding, and it ends the
/// decoding: a round that reports an event asks for no other round, and is
/// done with no byte.
pub proof fn lemma_event_ends_round<TRqUd, TNotifUd>(
    connection: EstablishedView<TRqUd>,
    detail: Option<IncomingDataDetail>,
    bytes_read: nat,
    decoded: Seq<u8>,
)
    requires
        connection.incoming_data::<TNotifUd>(detail, bytes_read, decoded) matches Some(round)
            && round.event is Some,
    ensures
        !connection.incoming_data::<TNotifUd>(detail, bytes_read, decoded)->0.proceed,
        connection.incoming_data::<TNotifUd>(detail, bytes_read, decoded)->0.consume == 0,
{
}

impl<TRqUd> EstablishedView<TRqUd> {
    /// The state of the substream `id`.
    pub open spec fn state_of(self, id: SubstreamId) -> Option<SubstreamView<TRqUd>> {
        match self.position(id) {
            Some(i) => Some(self.substreams[i as int].1),
            None => None,
        }
    }
}

/// A substream added under a new identifier is found under that identifier,
/// and the data that it receives lead for the connection to what they lead
/// to for the substream.
pub proof fn lemma_inject_into_new_substream<TRqUd, TNotifUd>(
    connection: EstablishedView<TRqUd>,
    id: SubstreamId,
    state: SubstreamView<TRqUd>,
    data: Seq<u8>,
)
    requires
        !connection.contains(id),
    ensures
        connection.with_substream(id, state).state_of(id) == Some(state),
        match state.inject::<TNotifUd>(
            id,
            data,
            connection.in_request_protocols,
            connection.ping_protocol,
        ) {
            Some(outcome) => connection.with_substream(id, state).inject::<TNotifUd>(id, data)
                matches Some(after) && after.actions == outcome.actions && after.event
                == outcome.event && after.connection.state_of(id) == outcome.substream
                && match outcome.substream {
                Some(next) => after.connection == connection.with_substream(id, next),
                None => after.connection == connection,
            },
            None => connection.with_substream(id, state).inject::<TNotifUd>(id, data) is None,
        },
{
    let added = connection.with_substream(id, state);
    let last = connection.substreams.len() as int;
    lemma_position_from(connection.substreams, id, 0);
    lemma_position_from(added.substreams, id, 0);
    assert forall|j: int| 0 <= j < last implies (#[trigger] added.substreams[j]).0 != id by {
        assert(added.substreams[j] == connection.substreams[j]);
    }
    assert(added.substreams[last] == (id, state));
    assert(added.position(id) == Some(last as nat));
    if let Some(outcome) = state.inject::<TNotifUd>(
        id,
        data,
        connection.in_request_protocols,
        connection.ping_protocol,
    ) {
        let after = added.inject::<TNotifUd>(id, data)->0;
        match outcome.substream {
            Some(next) => {
                assert(after.connection.substreams =~= connection.substreams.push((id, next)));
                lemma_position_from(after.connection.substreams, id, 0);
                assert forall|j: int| 0 <= j < last implies (
                #[trigger] after.connection.substreams[j]).0 != id by {
                    assert(after.connection.substreams[j] == connection.substreams[j]);
                }
                assert(after.connection.substreams[last] == (id, next));
            },
            None => {
                assert(after.connection.substreams =~= connection.substreams);
            },
        }
    }
}

/// A request goes round between two connections, of which the second
/// accepts the protocol of the request as a request-response protocol.
///
/// The first adds the request, which gives the opening to send. The second
/// accepts the substream, and on that opening answers with its acceptance
/// and expects the request. On that answer, the first sends the request
/// behind its length and closes its side. On the frame of a response, it
/// reports that response with the user data of the request.
pub proof fn lemma_request_between_connections<TRqUd, TNotifUd>(
    dialer: EstablishedView<TRqUd>,
    listener: EstablishedView<TRqUd>,
    id: SubstreamId,
    remote_id: SubstreamId,
    now: u64,
    protocol: Seq<char>,
    request: Seq<u8>,
    user_data: TRqUd,
    response: Seq<u8>,
)
    requires
        !dialer.contains(id),
        !listener.contains(remote_id),
        now + TIMEOUT <= u64::MAX,
        listener.in_request_protocols.contains(protocol),
        protocol != listener.ping_protocol,
        protocol_line(protocol).len() <= MAX_FRAME_LENGTH,
        protocol_line(protocol) != na_line(),
        response.len() <= MAX_FRAME_SIZE,
    ensures
        ({
            let opening = (ConfigView::Dialer { requested: protocol }).opening();
            let heard = listener.accept(remote_id).inject::<TNotifUd>(remote_id, opening);
            let asking = dialer.add_request(id, now, protocol, request, user_data);
            let answered = asking.inject::<TNotifUd>(id, acceptance(protocol));
            let responded = answered->0.connection.inject::<TNotifUd>(id, frame_spec(response));
            &&& heard is Some
            &&& heard->0.event is None
            &&& heard->0.actions == seq![ActionView::Write(acceptance(protocol))]
            &&& heard->0.connection.state_of(remote_id) == Some(
                SubstreamView::<TRqUd>::RequestInRecv {
                    request: FramedView::empty(MAX_FRAME_SIZE as nat),
                    protocol,
                },
            )
            &&& answered is Some
            &&& answered->0.event is None
            &&& answered->0.actions == seq![
                ActionView::Write(Seq::empty()),
                ActionView::Write(encode_usize_spec(request.len())),
                ActionView::Write(request),
                ActionView::Close,
            ]
            &&& responded is Some
            &&& responded->0.actions == Seq::<ActionView>::empty()
            &&& responded->0.event == Some(
                EventView::<TRqUd, TNotifUd>::Response { response: Ok(response), id, user_data },
            )
        }),
{
    let opening = (ConfigView::Dialer { requested: protocol }).opening();
    let timeout = (now + TIMEOUT) as u64;
    let offered = listener.offered();
    assert(offered.contains(protocol)) by {
        let i = choose|i: int|
            0 <= i < listener.in_request_protocols.len() && listener.in_request_protocols[i]
                == protocol;
        assert(offered[i] == protocol);
    }
    lemma_listener_accepts::<TRqUd, TNotifUd>(
        remote_id,
        protocol,
        offered,
        listener.in_request_protocols,
        listener.ping_protocol,
    );
    lemma_inject_into_new_substream::<TRqUd, TNotifUd>(
        listener,
        remote_id,
        listening(offered),
        opening,
    );
    let waiting = dialer.with_deadline(timeout);
    let asking = SubstreamView::RequestOutNegotiating {
        timeout,
        negotiation: dialing(protocol),
        request,
        user_data,
    };
    lemma_request_sent::<TRqUd, TNotifUd>(
        id,
        protocol,
        dialer.in_request_protocols,
        dialer.ping_protocol,
        timeout,
        request,
        user_data,
    );
    lemma_inject_into_new_substream::<TRqUd, TNotifUd>(waiting, id, asking, acceptance(protocol));
    let expecting = SubstreamView::RequestOut {
        timeout,
        user_data,
        response: FramedView::empty(MAX_FRAME_SIZE as nat),
    };
    lemma_response_reported::<TRqUd, TNotifUd>(
        id,
        dialer.in_request_protocols,
        dialer.ping_protocol,
        timeout,
        user_data,
        response,
    );
    lemma_inject_into_new_substream::<TRqUd, TNotifUd>(
        waiting,
        id,
        expecting,
        frame_spec(response),
    );
}

/// A notifications substream opens between two connections, of which the
/// second accepts its protocol as a notifications protocol only.
///
/// The first opens the substream, which gives the opening to send. The
/// second accepts the substream, and on that opening answers with its
/// acceptance. On that answer, the first sends its handshake behind its
/// length. On the frame of that handshake, the second reports the opening of
/// the substream, with the protocol and the handshake.
pub proof fn lemma_notifications_between_connections<TRqUd, TNotifUd>(
    dialer: EstablishedView<TRqUd>,
    listener: EstablishedView<TRqUd>,
    id: SubstreamId,
    remote_id: SubstreamId,
    now: u64,
    protocol: Seq<char>,
    handshake: Seq<u8>,
)
    requires
        !dialer.contains(id),
        !listener.contains(remote_id),
        now + TIMEOUT <= u64::MAX,
        listener.in_notifications_protocols.contains(protocol),
        !listener.in_request_protocols.contains(protocol),
        protocol != listener.ping_protocol,
        protocol_line(protocol).len() <= MAX_FRAME_LENGTH,
        protocol_line(protocol) != na_line(),
        handshake.len() <= MAX_FRAME_SIZE,
    ensures
        ({
            let opening = (ConfigView::Dialer { requested: protocol }).opening();
            let heard = listener.accept(remote_id).inject::<TNotifUd>(remote_id, opening);
            let asking = dialer.open_notifications_substream(id, now, protocol, handshake);
            let answered = asking.inject::<TNotifUd>(id, acceptance(protocol));
            let greeted = heard->0.connection.inject::<TNotifUd>(remote_id, frame_spec(handshake));
            &&& heard is Some
            &&& heard->0.event is None
            &&& heard->0.actions == seq![ActionView::Write(acceptance(protocol))]
            &&& answered is Some
            &&& answered->0.event is None
            &&& answered->0.actions == seq![
                ActionView::Write(Seq::empty()),
                ActionView::Write(encode_usize_spec(handshake.len())),
                ActionView::Write(handshake),
            ]
            &&& greeted is Some
            &&& greeted->0.actions == Seq::<ActionView>::empty()
            &&& greeted->0.event == Some(
                EventView::<TRqUd, TNotifUd>::NotificationsInOpen {
                    id: remote_id,
                    protocol,
                    handshake,
                },
            )
        }),
{
    let opening = (ConfigView::Dialer { requested: protocol }).opening();
    let timeout = (now + TIMEOUT) as u64;
    let offered = listener.offered();
    assert(offered.contains(protocol)) by {
        let i = choose|i: int|
            0 <= i < listener.in_notifications_protocols.len()
                && listener.in_notifications_protocols[i] == protocol;
        assert(offered[listener.in_request_protocols.len() + i] == protocol);
    }
    lemma_listener_accepts::<TRqUd, TNotifUd>(
        remote_id,
        protocol,
        offered,
        listener.in_request_protocols,
        listener.ping_protocol,
    );
    lemma_inject_into_new_substream::<TRqUd, TNotifUd>(
        listener,
        remote_id,
        listening(offered),
        opening,
    );
    let reading = negotiated::<TRqUd>(
        protocol,
        listener.in_request_protocols,
        listener.ping_protocol,
    );
    lemma_notifications_opening_reported::<TRqUd, TNotifUd>(
        remote_id,
        protocol,
        listener.in_request_protocols,
        listener.ping_protocol,
        handshake,
    );
    lemma_inject_into_new_substream::<TRqUd, TNotifUd>(
        listener,
        remote_id,
        reading,
        frame_spec(handshake),
    );
    let waiting = dialer.with_deadline(timeout);
    let asking = SubstreamView::<TRqUd>::NotificationsOutNegotiating {
        timeout,
        negotiation: dialing(protocol),
        handshake,
    };
    lemma_notifications_handshake_sent::<TRqUd, TNotifUd>(
        id,
        protocol,
        dialer.in_request_protocols,
        dialer.ping_protocol,
        timeout,
        handshake,
    );
    lemma_inject_into_new_substream::<TRqUd, TNotifUd>(waiting, id, asking, acceptance(protocol));
}

} // verus!
