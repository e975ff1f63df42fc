//! State machine of one substream of an established connection.
//!
//! A substream starts by negotiating a protocol, and then follows that
//! protocol: it reads a request or a handshake, waits for a response, or echoes
//! pings. [`Substream::inject_data`] advances it with the bytes that the remote
//! sent on it, and tells what to do on the multiplexer in return.

use vstd::prelude::*;
use crate::established::{event_view, Event, EventView, RequestError, SubstreamId};
use crate::leb128::{
    encode_usize,
    encode_usize_spec,
    frame_spec,
    lemma_feed_bounds,
    lemma_frame_round_trip,
    Framed,
    FramedView,
};
use crate::multistream_select::{
    dialing,
    handshake_line,
    lemma_negotiation_declined,
    lemma_negotiation_succeeds,
    lemma_read_write_bounds,
    na_line,
    names_of,
    protocol_line,
    ConfigView,
    InProgress,
    InProgressView,
    Negotiation,
    NegotiationView,
    MAX_FRAME_LENGTH,
};
use crate::ping::{partial_payload, receive, whole_payloads, PingPayload, PAYLOAD_SIZE};

verus! {

/// Largest request, response or handshake that a substream accepts.
pub const MAX_FRAME_SIZE: usize = 10 * 1024 * 1024;

/// Something to do on the multiplexer's side of a substream.
#[derive(Debug, PartialEq, Eq)]
pub enum Action {
    /// Accept the substream, which the remote has opened.
    Accept,
    /// Queue these bytes for sending.
    Write(Vec<u8>),
    /// Close the writing side, once what is queued has been sent.
    Close,
    /// Abruptly destroy the substream.
    Reset,
}

/// Mathematical model of an [`Action`].
pub enum ActionView {
    /// Model of [`Action::Accept`].
    Accept,
    /// Model of [`Action::Write`].
    Write(Seq<u8>),
    /// Model of [`Action::Close`].
    Close,
    /// Model of [`Action::Reset`].
    Reset,
}

impl View for Action {
    type V = ActionView;

    open spec fn view(&self) -> ActionView {
        match self {
            Action::Accept => ActionView::Accept,
            Action::Write(bytes) => ActionView::Write(bytes@),
            Action::Close => ActionView::Close,
            Action::Reset => ActionView::Reset,
        }
    }
}

/// The models of a list of actions.
pub open spec fn actions_view(actions: Seq<Action>) -> Seq<ActionView> {
    Seq::new(actions.len(), |i: int| actions[i]@)
}

/// The writes that send `payloads`, one each.
pub open spec fn writes_of(payloads: Seq<Seq<u8>>) -> Seq<ActionView> {
    Seq::new(payloads.len(), |i: int| ActionView::Write(payloads[i]))
}

/// State of a substream.
pub enum Substream<TRqUd> {
    /// State of a substream whose transition has not completed. No substream
    /// at rest is in this state.
    Poisoned,
    /// Protocol negotiation in progress in an incoming substream.
    InboundNegotiating(InProgress),
    /// Incoming substream has failed to negotiate a protocol. Waiting for a
    /// close from the remote. In order to save a round-trip time, the remote
    /// might assume that the protocol negotiation has succeeded. As such, it
    /// might send additional data on this substream that should be ignored.
    NegotiationFailed,
    /// Negotiating a protocol for a notifications protocol substream.
    NotificationsOutNegotiating {
        /// When the opening will time out in the absence of response.
        timeout: u64,
        /// State of the protocol negotiation.
        negotiation: InProgress,
        /// Bytes of the handshake to send after the substream is open.
        handshake: Vec<u8>,
    },
    /// A notifications protocol has been negotiated on a substream. Either a
    /// successful handshake or an abrupt closing is now expected.
    NotificationsOutHandshakeRecv {
        /// Buffer for the incoming handshake.
        handshake: Framed,
    },
    /// A notifications protocol has been negotiated, and the remote accepted
    /// it. Can now send notifications.
    NotificationsOut,
    /// A notifications protocol has been negotiated on an incoming substream.
    /// A handshake from the remote is expected.
    NotificationsInHandshake {
        /// Buffer for the incoming handshake.
        handshake: Framed,
        /// Protocol that was negotiated.
        protocol: String,
    },
    /// A handshake on a notifications protocol has been received. Now waiting
    /// for an action from the API user.
    NotificationsInWait,
    /// Negotiating a protocol for an outgoing request.
    RequestOutNegotiating {
        /// When the request will time out in the absence of response.
        timeout: u64,
        /// State of the protocol negotiation.
        negotiation: InProgress,
        /// Bytes of the request to send after the substream is open.
        request: Vec<u8>,
        /// Data passed by the user when the request was added.
        user_data: TRqUd,
    },
    /// Outgoing request has been sent out or is queued for send out, and a
    /// response from the remote is now expected. Substream has been closed.
    RequestOut {
        /// When the request will time out in the absence of response.
        timeout: u64,
        /// Data passed by the user when the request was added.
        user_data: TRqUd,
        /// Buffer for the incoming response.
        response: Framed,
    },
    /// A request-response protocol has been negotiated on an inbound
    /// substream. A request is now expected.
    RequestInRecv {
        /// Buffer for the incoming request.
        request: Framed,
        /// Protocol that was negotiated.
        protocol: String,
    },
    /// A request has been received, and a response is to be sent.
    RequestInSend,
    /// Inbound ping substream. Waiting for the ping payload to be received.
    PingIn(PingPayload),
}

/// Mathematical model of a [`Substream`].
pub enum SubstreamView<TRqUd> {
    /// Model of [`Substream::Poisoned`].
    Poisoned,
    /// Model of [`Substream::InboundNegotiating`].
    InboundNegotiating(InProgressView),
    /// Model of [`Substream::NegotiationFailed`].
    NegotiationFailed,
    /// Model of [`Substream::NotificationsOutNegotiating`].
    NotificationsOutNegotiating { timeout: u64, negotiation: InProgressView, handshake: Seq<u8> },
    /// Model of [`Substream::NotificationsOutHandshakeRecv`].
    NotificationsOutHandshakeRecv { handshake: FramedView },
    /// Model of [`Substream::NotificationsOut`].
    NotificationsOut,
    /// Model of [`Substream::NotificationsInHandshake`].
    NotificationsInHandshake { handshake: FramedView, protocol: Seq<char> },
    /// Model of [`Substream::NotificationsInWait`].
    NotificationsInWait,
    /// Model of [`Substream::RequestOutNegotiating`].
    RequestOutNegotiating {
        timeout: u64,
        negotiation: InProgressView,
        request: Seq<u8>,
        user_data: TRqUd,
    },
    /// Model of [`Substream::RequestOut`].
    RequestOut { timeout: u64, user_data: TRqUd, response: FramedView },
    /// Model of [`Substream::RequestInRecv`].
    RequestInRecv { request: FramedView, protocol: Seq<char> },
    /// Model of [`Substream::RequestInSend`].
    RequestInSend,
    /// Model of [`Substream::PingIn`].
    PingIn(Seq<u8>),
}

impl<TRqUd> View for Substream<TRqUd> {
    type V = SubstreamView<TRqUd>;

    open spec fn view(&self) -> SubstreamView<TRqUd> {
        match self {
            Substream::Poisoned => SubstreamView::Poisoned,
            Substream::InboundNegotiating(negotiation) => SubstreamView::InboundNegotiating(
                negotiation@,
            ),
            Substream::NegotiationFailed => SubstreamView::NegotiationFailed,
            Substream::NotificationsOutNegotiating {
                timeout,
                negotiation,
                handshake,
            } => SubstreamView::NotificationsOutNegotiating {
                timeout: *timeout,
                negotiation: negotiation@,
                handshake: handshake@,
            },
            Substream::NotificationsOutHandshakeRecv {
                handshake,
            } => SubstreamView::NotificationsOutHandshakeRecv { handshake: handshake@ },
            Substream::NotificationsOut => SubstreamView::NotificationsOut,
            Substream::NotificationsInHandshake {
                handshake,
                protocol,
            } => SubstreamView::NotificationsInHandshake {
                handshake: handshake@,
                protocol: protocol@,
            },
            Substream::NotificationsInWait => SubstreamView::NotificationsInWait,
            Substream::RequestOutNegotiating {
                timeout,
                negotiation,
                request,
                user_data,
            } => SubstreamView::RequestOutNegotiating {
                timeout: *timeout,
                negotiation: negotiation@,
                request: request@,
                user_data: *user_data,
            },
            Substream::RequestOut { timeout, user_data, response } => SubstreamView::RequestOut {
                timeout: *timeout,
                user_data: *user_data,
                response: response@,
            },
            Substream::RequestInRecv { request, protocol } => SubstreamView::RequestInRecv {
                request: request@,
                protocol: protocol@,
            },
            Substream::RequestInSend => SubstreamView::RequestInSend,
            Substream::PingIn(payload) => SubstreamView::PingIn(payload@),
        }
    }
}

/// The model of a substream that may be gone.
pub open spec fn substream_view<TRqUd>(substream: Option<Substream<TRqUd>>) -> Option<
    SubstreamView<TRqUd>,
> {
    match substream {
        Some(s) => Some(s@),
        None => None,
    }
}

/// The invariant of a reader held by a substream at rest: any complete frame
/// has been taken out of it.
pub open spec fn reader_wf(reader: FramedView) -> bool {
    reader.wf() && !reader.is_complete()
}

/// What one transition of a substream yields, see [`SubstreamView::step`].
pub enum StepView<TRqUd, TNotifUd> {
    /// The substream took `read` bytes and goes on in the state `next`.
    Continue { next: SubstreamView<TRqUd>, read: nat, actions: Seq<ActionView> },
    /// Nothing more is taken from the data: the substream was reset (`next`
    /// is `None`), or there is an event to report.
    Stop {
        next: Option<SubstreamView<TRqUd>>,
        actions: Seq<ActionView>,
        event: Option<EventView<TRqUd, TNotifUd>>,
    },
    /// The state machine defines no transition.
    Undefined,
}

/// What the data received on a substream lead to, see
/// [`SubstreamView::inject`].
pub struct OutcomeView<TRqUd, TNotifUd> {
    /// The substream afterwards, `None` if it was reset.
    pub substream: Option<SubstreamView<TRqUd>>,
    /// What to do on the multiplexer, in this order.
    pub actions: Seq<ActionView>,
    /// The event to report.
    pub event: Option<EventView<TRqUd, TNotifUd>>,
}

/// The outcome `rest` with `actions` done before it.
pub open spec fn after_actions<TRqUd, TNotifUd>(
    actions: Seq<ActionView>,
    rest: Option<OutcomeView<TRqUd, TNotifUd>>,
) -> Option<OutcomeView<TRqUd, TNotifUd>> {
    match rest {
        None => None,
        Some(outcome) => Some(
            OutcomeView {
                substream: outcome.substream,
                actions: actions + outcome.actions,
                event: outcome.event,
            },
        ),
    }
}

/// The state in which an inbound substream follows the protocol `protocol`
/// that it has negotiated.
pub open spec fn negotiated<TRqUd>(
    protocol: Seq<char>,
    requests: Seq<Seq<char>>,
    ping: Seq<char>,
) -> SubstreamView<TRqUd> {
    if protocol == ping {
        SubstreamView::PingIn(Seq::empty())
    } else if requests.contains(protocol) {
        SubstreamView::RequestInRecv {
            request: FramedView::empty(MAX_FRAME_SIZE as nat),
            protocol,
        }
    } else {
        SubstreamView::NotificationsInHandshake {
            handshake: FramedView::empty(MAX_FRAME_SIZE as nat),
            protocol,
        }
    }
}

impl<TRqUd> SubstreamView<TRqUd> {
    /// The invariant of a substream at rest.
    pub open spec fn wf(self) -> bool {
        match self {
            SubstreamView::Poisoned => false,
            SubstreamView::InboundNegotiating(negotiation) => negotiation.wf(),
            SubstreamView::NotificationsOutNegotiating { negotiation, .. } => negotiation.wf(),
            SubstreamView::NotificationsOutHandshakeRecv { handshake } => reader_wf(handshake),
            SubstreamView::NotificationsInHandshake { handshake, .. } => reader_wf(handshake),
            SubstreamView::RequestOutNegotiating { negotiation, .. } => negotiation.wf(),
            SubstreamView::RequestOut { response, .. } => reader_wf(response),
            SubstreamView::RequestInRecv { request, .. } => reader_wf(request),
            SubstreamView::PingIn(payload) => payload.len() < PAYLOAD_SIZE,
            _ => true,
        }
    }

    /// When the substream times out: only a request that waits for its
    /// response does.
    pub open spec fn deadline(self) -> Option<u64> {
        match self {
            SubstreamView::RequestOutNegotiating { timeout, .. } => Some(timeout),
            SubstreamView::RequestOut { timeout, .. } => Some(timeout),
            _ => None,
        }
    }

    /// The user data of the request that the substream carries, if it carries
    /// one.
    pub open spec fn request_user_data(self) -> Option<TRqUd> {
        match self {
            SubstreamView::RequestOutNegotiating { user_data, .. } => Some(user_data),
            SubstreamView::RequestOut { user_data, .. } => Some(user_data),
            _ => None,
        }
    }

    /// The transition of a listener that negotiates.
    pub open spec fn step_inbound<TNotifUd>(
        negotiation: InProgressView,
        data: Seq<u8>,
        requests: Seq<Seq<char>>,
        ping: Seq<char>,
    ) -> StepView<TRqUd, TNotifUd> {
        match negotiation.read_write(data) {
            Err(_) => StepView::Stop { next: None, actions: seq![ActionView::Reset], event: None },
            Ok(step) => match step.negotiation {
                NegotiationView::InProgress(next) => StepView::Continue {
                    next: SubstreamView::InboundNegotiating(next),
                    read: step.read,
                    actions: seq![ActionView::Write(step.out)],
                },
                NegotiationView::Success(protocol) => StepView::Continue {
                    next: negotiated(protocol, requests, ping),
                    read: step.read,
                    actions: seq![ActionView::Write(step.out)],
                },
                NegotiationView::NotAvailable => StepView::Continue {
                    next: SubstreamView::NegotiationFailed,
                    read: step.read,
                    actions: seq![ActionView::Write(step.out), ActionView::Close],
                },
            },
        }
    }

    /// The transition of a dialer that negotiates a notifications protocol.
    pub open spec fn step_notifications_out<TNotifUd>(
        timeout: u64,
        negotiation: InProgressView,
        handshake: Seq<u8>,
        data: Seq<u8>,
    ) -> StepView<TRqUd, TNotifUd> {
        match negotiation.read_write(data) {
            Err(_) => StepView::Undefined,
            Ok(step) => match step.negotiation {
                NegotiationView::InProgress(next) => StepView::Continue {
                    next: SubstreamView::NotificationsOutNegotiating {
                        timeout,
                        negotiation: next,
                        handshake,
                    },
                    read: step.read,
                    actions: seq![ActionView::Write(step.out)],
                },
                NegotiationView::Success(_) => StepView::Continue {
                    next: SubstreamView::NotificationsOutHandshakeRecv {
                        handshake: FramedView::empty(MAX_FRAME_SIZE as nat),
                    },
                    read: step.read,
                    actions: seq![
                        ActionView::Write(step.out),
                        ActionView::Write(encode_usize_spec(handshake.len())),
                        ActionView::Write(handshake),
                    ],
                },
                NegotiationView::NotAvailable => StepView::Undefined,
            },
        }
    }

    /// The transition of a dialer that negotiates the protocol of a request.
    pub open spec fn step_request_out_negotiating<TNotifUd>(
        id: SubstreamId,
        timeout: u64,
        negotiation: InProgressView,
        request: Seq<u8>,
        user_data: TRqUd,
        data: Seq<u8>,
    ) -> StepView<TRqUd, TNotifUd> {
        match negotiation.read_write(data) {
            Err(e) => StepView::Stop {
                next: None,
                actions: seq![ActionView::Reset],
                event: Some(
                    EventView::Response {
                        response: Err(RequestError::NegotiationError(e)),
                        id,
                        user_data,
                    },
                ),
            },
            Ok(step) => match step.negotiation {
                NegotiationView::InProgress(next) => StepView::Continue {
                    next: SubstreamView::RequestOutNegotiating {
                        timeout,
                        negotiation: next,
                        request,
                        user_data,
                    },
                    read: step.read,
                    actions: seq![ActionView::Write(step.out)],
                },
                NegotiationView::Success(_) => StepView::Continue {
                    next: SubstreamView::RequestOut {
                        timeout,
                        user_data,
                        response: FramedView::empty(MAX_FRAME_SIZE as nat),
                    },
                    read: step.read,
                    actions: seq![
                        ActionView::Write(step.out),
                        ActionView::Write(encode_usize_spec(request.len())),
                        ActionView::Write(request),
                        ActionView::Close,
                    ],
                },
                NegotiationView::NotAvailable => StepView::Stop {
                    next: None,
                    actions: seq![ActionView::Reset],
                    event: Some(
                        EventView::Response {
                            response: Err(RequestError::ProtocolNotAvailable),
                            id,
                            user_data,
                        },
                    ),
                },
            },
        }
    }

    /// The transition of a request that waits for its response.
    pub open spec fn step_request_out<TNotifUd>(
        id: SubstreamId,
        timeout: u64,
        user_data: TRqUd,
        response: FramedView,
        data: Seq<u8>,
    ) -> StepView<TRqUd, TNotifUd> {
        let fed = response.feed(data);
        if let Some(e) = fed.error {
            StepView::Stop {
                next: None,
                actions: seq![ActionView::Reset],
                event: Some(
                    EventView::Response {
                        response: Err(RequestError::ResponseLebError(e)),
                        id,
                        user_data,
                    },
                ),
            }
        } else if fed.reader.is_complete() {
            StepView::Stop {
                next: Some(SubstreamView::NegotiationFailed),
                actions: Seq::empty(),
                event: Some(
                    EventView::Response { response: Ok(fed.reader.payload()), id, user_data },
                ),
            }
        } else {
            StepView::Continue {
                next: SubstreamView::RequestOut { timeout, user_data, response: fed.reader },
                read: fed.consumed,
                actions: Seq::empty(),
            }
        }
    }

    /// The transition of an inbound notifications substream that waits for
    /// the remote's handshake.
    pub open spec fn step_notifications_in<TNotifUd>(
        id: SubstreamId,
        handshake: FramedView,
        protocol: Seq<char>,
        data: Seq<u8>,
    ) -> StepView<TRqUd, TNotifUd> {
        let fed = handshake.feed(data);
        if fed.error is Some {
            StepView::Undefined
        } else if fed.reader.is_complete() {
            StepView::Stop {
                next: Some(SubstreamView::NotificationsInWait),
                actions: Seq::empty(),
                event: Some(
                    EventView::NotificationsInOpen {
                        id,
                        protocol,
                        handshake: fed.reader.payload(),
                    },
                ),
            }
        } else {
            StepView::Continue {
                next: SubstreamView::NotificationsInHandshake { handshake: fed.reader, protocol },
                read: fed.consumed,
                actions: Seq::empty(),
            }
        }
    }

    /// The transition of an outbound notifications substream that waits for
    /// the remote's handshake: none is defined once the handshake is whole.
    pub open spec fn step_notifications_out_handshake<TNotifUd>(
        handshake: FramedView,
        data: Seq<u8>,
    ) -> StepView<TRqUd, TNotifUd> {
        let fed = handshake.feed(data);
        if fed.error is Some || fed.reader.is_complete() {
            StepView::Undefined
        } else {
            StepView::Continue {
                next: SubstreamView::NotificationsOutHandshakeRecv { handshake: fed.reader },
                read: fed.consumed,
                actions: Seq::empty(),
            }
        }
    }

    /// One transition of the substream `id` on the non-empty `data` that the
    /// remote sent, on a connection that accepts the request-response
    /// protocols `requests` and the ping protocol `ping`.
    #[verifier::opaque]
    pub open spec fn step<TNotifUd>(
        self,
        id: SubstreamId,
        data: Seq<u8>,
        requests: Seq<Seq<char>>,
        ping: Seq<char>,
    ) -> StepView<TRqUd, TNotifUd> {
        match self {
            SubstreamView::Poisoned => StepView::Undefined,
            SubstreamView::InboundNegotiating(negotiation) => Self::step_inbound(
                negotiation,
                data,
                requests,
                ping,
            ),
            SubstreamView::NegotiationFailed => StepView::Continue {
                next: self,
                read: data.len(),
                actions: Seq::empty(),
            },
            SubstreamView::NotificationsOutNegotiating {
                timeout,
                negotiation,
                handshake,
            } => Self::step_notifications_out(timeout, negotiation, handshake, data),
            SubstreamView::NotificationsOutHandshakeRecv {
                handshake,
            } => Self::step_notifications_out_handshake(handshake, data),
            SubstreamView::NotificationsOut => StepView::Undefined,
            SubstreamView::NotificationsInHandshake {
                handshake,
                protocol,
            } => Self::step_notifications_in(id, handshake, protocol, data),
            SubstreamView::NotificationsInWait => StepView::Continue {
                next: self,
                read: data.len(),
                actions: Seq::empty(),
            },
            SubstreamView::RequestOutNegotiating {
                timeout,
                negotiation,
                request,
                user_data,
            } => Self::step_request_out_negotiating(
                id,
                timeout,
                negotiation,
                request,
                user_data,
                data,
            ),
            SubstreamView::RequestOut { timeout, user_data, response } => Self::step_request_out(
                id,
                timeout,
                user_data,
                response,
                data,
            ),
            SubstreamView::RequestInRecv { .. } => StepView::Continue {
                next: self,
                read: data.len(),
                actions: Seq::empty(),
            },
            SubstreamView::RequestInSend => StepView::Undefined,
            SubstreamView::PingIn(payload) => StepView::Continue {
                next: SubstreamView::PingIn(partial_payload(payload + data)),
                read: data.len(),
                actions: writes_of(whole_payloads(payload + data)),
            },
        }
    }

    /// What the bytes `data` received on the substream `id` lead to: the
    /// transitions that they cause, one after the other, until the data is
    /// used up, the substream is reset or an event is to be reported. `None`
    /// where the state machine defines no transition for them.
    pub open spec fn inject<TNotifUd>(
        self,
        id: SubstreamId,
        data: Seq<u8>,
        requests: Seq<Seq<char>>,
        ping: Seq<char>,
    ) -> Option<OutcomeView<TRqUd, TNotifUd>>
        decreases data.len(),
    {
        if data.len() == 0 {
            Some(OutcomeView { substream: Some(self), actions: Seq::empty(), event: None })
        } else {
            match self.step::<TNotifUd>(id, data, requests, ping) {
                StepView::Undefined => None,
                StepView::Stop { next, actions, event } => Some(
                    OutcomeView { substream: next, actions, event },
                ),
                StepView::Continue { next, read, actions } => {
                    if 0 < read <= data.len() {
                        after_actions(
                            actions,
                            next.inject::<TNotifUd>(id, data.skip(read as int), requests, ping),
                        )
                    } else {
                        None
                    }
                },
            }
        }
    }
}

impl<TRqUd> Substream<TRqUd> {
    /// The invariant of a substream at rest: it holds of every substream
    /// that this module hands out.
    pub open spec fn wf(&self) -> bool {
        &&& self@.wf()
        &&& match self {
            Substream::InboundNegotiating(negotiation) => negotiation.wf(),
            Substream::NotificationsOutNegotiating { negotiation, .. } => negotiation.wf(),
            Substream::NotificationsOutHandshakeRecv { handshake } => handshake.wf(),
            Substream::NotificationsInHandshake { handshake, .. } => handshake.wf(),
            Substream::RequestOutNegotiating { negotiation, .. } => negotiation.wf(),
            Substream::RequestOut { response, .. } => response.wf(),
            Substream::RequestInRecv { request, .. } => request.wf(),
            _ => true,
        }
    }
}

/// What the data received on a substream lead to.
pub struct Outcome<TRqUd, TNotifUd> {
    /// The substream afterwards, `None` if it was reset.
    pub substream: Option<Substream<TRqUd>>,
    /// What to do on the multiplexer's side of the substream, in this order.
    pub actions: Vec<Action>,
    /// The event to report.
    pub event: Option<Event<TRqUd, TNotifUd>>,
}

impl<TRqUd, TNotifUd> View for Outcome<TRqUd, TNotifUd> {
    type V = OutcomeView<TRqUd, TNotifUd>;

    open spec fn view(&self) -> OutcomeView<TRqUd, TNotifUd> {
        OutcomeView {
            substream: substream_view(self.substream),
            actions: actions_view(self.actions@),
            event: event_view(self.event),
        }
    }
}

impl<TRqUd, TNotifUd> Outcome<TRqUd, TNotifUd> {
    /// The substream that is left, if one is, meets its invariant.
    pub open spec fn wf(&self) -> bool {
        match self.substream {
            Some(substream) => substream.wf(),
            None => true,
        }
    }
}

/// The model of an outcome that may be undefined.
pub open spec fn outcome_view<TRqUd, TNotifUd>(outcome: Option<Outcome<TRqUd, TNotifUd>>) -> Option<
    OutcomeView<TRqUd, TNotifUd>,
> {
    match outcome {
        Some(o) => Some(o@),
        None => None,
    }
}

/// One transition, as the code takes it.
enum Step<TRqUd, TNotifUd> {
    Continue { next: Substream<TRqUd>, read: usize },
    Stop { next: Option<Substream<TRqUd>>, event: Option<Event<TRqUd, TNotifUd>> },
    Undefined,
}

impl<TRqUd, TNotifUd> Step<TRqUd, TNotifUd> {
    /// Whether the transition taken is `model`, on `available` bytes of data
    /// and with the list of actions grown from `before` to `after`.
    spec fn is_step(
        self,
        model: StepView<TRqUd, TNotifUd>,
        before: Seq<Action>,
        after: Seq<Action>,
        available: nat,
    ) -> bool {
        match (self, model) {
            (Step::Continue { next, read }, StepView::Continue { next: n, read: k, actions }) => {
                &&& next@ == n
                &&& next.wf()
                &&& read == k
                &&& 0 < read <= available
                &&& actions_view(after) == actions_view(before) + actions
            },
            (Step::Stop { next, event }, StepView::Stop { next: n, actions, event: e }) => {
                &&& substream_view(next) == n
                &&& (next matches Some(s) ==> s.wf())
                &&& event_view(event) == e
                &&& actions_view(after) == actions_view(before) + actions
            },
            (Step::Undefined, StepView::Undefined) => true,
            _ => false,
        }
    }
}

/// Appends `action` to `actions`.
fn push_action(actions: &mut Vec<Action>, action: Action)
    ensures
        actions_view(final(actions)@) == actions_view(old(actions)@).push(action@),
{
    actions.push(action);
    assert(actions_view(actions@) =~= actions_view(old(actions)@).push(action@));
}

/// Appends to `actions` the writes that send `payloads`.
fn push_writes(actions: &mut Vec<Action>, payloads: Vec<Vec<u8>>)
    ensures
        actions_view(final(actions)@) == actions_view(old(actions)@) + writes_of(
            payloads.deep_view(),
        ),
{
    let mut payloads = payloads;
    let ghost all = payloads.deep_view();
    let ghost before = actions_view(actions@);
    let mut i: usize = 0;
    proof {
        assert(before + writes_of(all.take(0)) =~= before);
    }
    while i < payloads.len()
        invariant
            i <= payloads@.len(),
            payloads@.len() == all.len(),
            forall|j: int| i <= j < all.len() ==> payloads@[j]@ == all[j],
            actions_view(actions@) == before + writes_of(all.take(i as int)),
        decreases payloads@.len() - i,
    {
        let mut payload: Vec<u8> = Vec::new();
        core::mem::swap(&mut payloads[i], &mut payload);
        push_action(actions, Action::Write(payload));
        i = i + 1;
        proof {
            assert(writes_of(all.take(i as int)) =~= writes_of(all.take(i - 1)).push(
                ActionView::Write(all[i - 1]),
            ));
            assert(actions_view(actions@) =~= before + writes_of(all.take(i as int)));
        }
    }
    proof {
        assert(all.take(i as int) =~= all);
    }
}

/// Whether `name` is one of `list`.
fn contains_name(list: &Vec<String>, name: &String) -> (found: bool)
    ensures
        found == names_of(list@).contains(name@),
{
    let mut i: usize = 0;
    while i < list.len()
        invariant
            i <= list@.len(),
            forall|j: int| 0 <= j < i ==> names_of(list@)[j] != name@,
        decreases list@.len() - i,
    {
        if list[i] == *name {
            assert(names_of(list@)[i as int] == name@);
            return true;
        }
        i = i + 1;
    }
    false
}

/// The state in which an inbound substream follows the protocol that it has
/// negotiated.
fn negotiated_state<TRqUd>(protocol: String, requests: &Vec<String>, ping: &String) -> (next:
    Substream<TRqUd>)
    ensures
        next@ == negotiated::<TRqUd>(protocol@, names_of(requests@), ping@),
        next.wf(),
{
    if protocol == *ping {
        Substream::PingIn(PingPayload::new())
    } else if contains_name(requests, &protocol) {
        Substream::RequestInRecv { request: Framed::new(MAX_FRAME_SIZE), protocol }
    } else {
        Substream::NotificationsInHandshake { handshake: Framed::new(MAX_FRAME_SIZE), protocol }
    }
}

/// Transition of [`Substream::InboundNegotiating`].
fn step_inbound<TRqUd, TNotifUd>(
    negotiation: InProgress,
    data: &[u8],
    requests: &Vec<String>,
    ping: &String,
    actions: &mut Vec<Action>,
) -> (r: Step<TRqUd, TNotifUd>)
    requires
        negotiation.wf(),
        data@.len() > 0,
    ensures
        r.is_step(
            SubstreamView::<TRqUd>::step_inbound::<TNotifUd>(
                negotiation@,
                data@,
                names_of(requests@),
                ping@,
            ),
            old(actions)@,
            final(actions)@,
            data@.len(),
        ),
{
    proof {
        negotiation.lemma_wf_view();
        lemma_read_write_bounds(negotiation@, data@);
    }
    match negotiation.read_write_vec(data) {
        Err(_) => {
            push_action(actions, Action::Reset);
            assert(actions_view(actions@) =~= actions_view(old(actions)@) + seq![
                ActionView::Reset,
            ]);
            Step::Stop { next: None, event: None }
        },
        Ok((Negotiation::InProgress(next), read, out)) => {
            proof {
                next.lemma_wf_view();
            }
            let ghost sent = out@;
            push_action(actions, Action::Write(out));
            assert(actions_view(actions@) =~= actions_view(old(actions)@) + seq![
                ActionView::Write(sent),
            ]);
            Step::Continue { next: Substream::InboundNegotiating(next), read }
        },
        Ok((Negotiation::Success(protocol), read, out)) => {
            let ghost sent = out@;
            push_action(actions, Action::Write(out));
            assert(actions_view(actions@) =~= actions_view(old(actions)@) + seq![
                ActionView::Write(sent),
            ]);
            Step::Continue { next: negotiated_state(protocol, requests, ping), read }
        },
        Ok((Negotiation::NotAvailable, read, out)) => {
            let ghost sent = out@;
            push_action(actions, Action::Write(out));
            push_action(actions, Action::Close);
            assert(actions_view(actions@) =~= actions_view(old(actions)@) + seq![
                ActionView::Write(sent),
                ActionView::Close,
            ]);
            Step::Continue { next: Substream::NegotiationFailed, read }
        },
    }
}

/// Transition of [`Substream::NotificationsOutNegotiating`].
fn step_notifications_out<TRqUd, TNotifUd>(
    timeout: u64,
    negotiation: InProgress,
    handshake: Vec<u8>,
    data: &[u8],
    actions: &mut Vec<Action>,
) -> (r: Step<TRqUd, TNotifUd>)
    requires
        negotiation.wf(),
        data@.len() > 0,
    ensures
        r.is_step(
            SubstreamView::<TRqUd>::step_notifications_out::<TNotifUd>(
                timeout,
                negotiation@,
                handshake@,
                data@,
            ),
            old(actions)@,
            final(actions)@,
            data@.len(),
        ),
{
    proof {
        negotiation.lemma_wf_view();
        lemma_read_write_bounds(negotiation@, data@);
    }
    match negotiation.read_write_vec(data) {
        Ok((Negotiation::InProgress(next), read, out)) => {
            proof {
                next.lemma_wf_view();
            }
            let ghost sent = out@;
            push_action(actions, Action::Write(out));
            assert(actions_view(actions@) =~= actions_view(old(actions)@) + seq![
                ActionView::Write(sent),
            ]);
            Step::Continue {
                next: Substream::NotificationsOutNegotiating {
                    timeout,
                    negotiation: next,
                    handshake,
                },
                read,
            }
        },
        Ok((Negotiation::Success(_), read, out)) => {
            let ghost sent = out@;
            let ghost greeting = handshake@;
            push_action(actions, Action::Write(out));
            push_action(actions, Action::Write(encode_usize(handshake.len())));
            push_action(actions, Action::Write(handshake));
            assert(actions_view(actions@) =~= actions_view(old(actions)@) + seq![
                ActionView::Write(sent),
                ActionView::Write(encode_usize_spec(greeting.len())),
                ActionView::Write(greeting),
            ]);
            Step::Continue {
                next: Substream::NotificationsOutHandshakeRecv {
                    handshake: Framed::new(MAX_FRAME_SIZE),
                },
                read,
            }
        },
        Ok((Negotiation::NotAvailable, _, _)) => Step::Undefined,
        Err(_) => Step::Undefined,
    }
}

/// Transition of [`Substream::RequestOutNegotiating`].
fn step_request_out_negotiating<TRqUd, TNotifUd>(
    id: SubstreamId,
    timeout: u64,
    negotiation: InProgress,
    request: Vec<u8>,
    user_data: TRqUd,
    data: &[u8],
    actions: &mut Vec<Action>,
) -> (r: Step<TRqUd, TNotifUd>)
    requires
        negotiation.wf(),
        data@.len() > 0,
    ensures
        r.is_step(
            SubstreamView::<TRqUd>::step_request_out_negotiating::<TNotifUd>(
                id,
                timeout,
                negotiation@,
                request@,
                user_data,
                data@,
            ),
            old(actions)@,
            final(actions)@,
            data@.len(),
        ),
{
    proof {
        negotiation.lemma_wf_view();
        lemma_read_write_bounds(negotiation@, data@);
    }
    match negotiation.read_write_vec(data) {
        Ok((Negotiation::InProgress(next), read, out)) => {
            proof {
                next.lemma_wf_view();
            }
            let ghost sent = out@;
            push_action(actions, Action::Write(out));
            assert(actions_view(actions@) =~= actions_view(old(actions)@) + seq![
                ActionView::Write(sent),
            ]);
            Step::Continue {
                next: Substream::RequestOutNegotiating {
                    timeout,
                    negotiation: next,
                    request,
                    user_data,
                },
                read,
            }
        },
        Ok((Negotiation::Success(_), read, out)) => {
            let ghost sent = out@;
            let ghost body = request@;
            push_action(actions, Action::Write(out));
            push_action(actions, Action::Write(encode_usize(request.len())));
            push_action(actions, Action::Write(request));
            push_action(actions, Action::Close);
            assert(actions_view(actions@) =~= actions_view(old(actions)@) + seq![
                ActionView::Write(sent),
                ActionView::Write(encode_usize_spec(body.len())),
                ActionView::Write(body),
                ActionView::Close,
            ]);
            Step::Continue {
                next: Substream::RequestOut {
                    timeout,
                    user_data,
                    response: Framed::new(MAX_FRAME_SIZE),
                },
                read,
            }
        },
        Ok((Negotiation::NotAvailable, _, _)) => {
            push_action(actions, Action::Reset);
            assert(actions_view(actions@) =~= actions_view(old(actions)@) + seq![
                ActionView::Reset,
            ]);
            Step::Stop {
                next: None,
                event: Some(
                    Event::Response {
                        response: Err(RequestError::ProtocolNotAvailable),
                        id,
                        user_data,
                    },
                ),
            }
        },
        Err(e) => {
            push_action(actions, Action::Reset);
            assert(actions_view(actions@) =~= actions_view(old(actions)@) + seq![
                ActionView::Reset,
            ]);
            Step::Stop {
                next: None,
                event: Some(
                    Event::Response {
                        response: Err(RequestError::NegotiationError(e)),
                        id,
                        user_data,
                    },
                ),
            }
        },
    }
}

/// Transition of [`Substream::RequestOut`].
fn step_request_out<TRqUd, TNotifUd>(
    id: SubstreamId,
    timeout: u64,
    user_data: TRqUd,
    response: Framed,
    data: &[u8],
    actions: &mut Vec<Action>,
) -> (r: Step<TRqUd, TNotifUd>)
    requires
        response.wf(),
        reader_wf(response@),
        data@.len() > 0,
    ensures
        r.is_step(
            SubstreamView::<TRqUd>::step_request_out::<TNotifUd>(
                id,
                timeout,
                user_data,
                response@,
                data@,
            ),
            old(actions)@,
            final(actions)@,
            data@.len(),
        ),
{
    let mut response = response;
    proof {
        lemma_feed_bounds(response@, data@);
    }
    let read = match response.inject_data(data) {
        Ok(n) => n,
        Err(e) => {
            push_action(actions, Action::Reset);
            assert(actions_view(actions@) =~= actions_view(old(actions)@) + seq![
                ActionView::Reset,
            ]);
            return Step::Stop {
                next: None,
                event: Some(
                    Event::Response {
                        response: Err(RequestError::ResponseLebError(e)),
                        id,
                        user_data,
                    },
                ),
            };
        },
    };
    assert(actions_view(actions@) =~= actions_view(old(actions)@) + Seq::<ActionView>::empty());
    match response.take_frame() {
        Some(frame) => Step::Stop {
            next: Some(Substream::NegotiationFailed),
            event: Some(Event::Response { response: Ok(frame), id, user_data }),
        },
        None => Step::Continue { next: Substream::RequestOut { timeout, user_data, response }, read },
    }
}

/// Transition of [`Substream::NotificationsInHandshake`].
fn step_notifications_in<TRqUd, TNotifUd>(
    id: SubstreamId,
    handshake: Framed,
    protocol: String,
    data: &[u8],
    actions: &mut Vec<Action>,
) -> (r: Step<TRqUd, TNotifUd>)
    requires
        handshake.wf(),
        reader_wf(handshake@),
        data@.len() > 0,
    ensures
        r.is_step(
            SubstreamView::<TRqUd>::step_notifications_in::<TNotifUd>(
                id,
                handshake@,
                protocol@,
                data@,
            ),
            old(actions)@,
            final(actions)@,
            data@.len(),
        ),
{
    let mut handshake = handshake;
    proof {
        lemma_feed_bounds(handshake@, data@);
    }
    let read = match handshake.inject_data(data) {
        Ok(n) => n,
        Err(_) => {
            return Step::Undefined;
        },
    };
    assert(actions_view(actions@) =~= actions_view(old(actions)@) + Seq::<ActionView>::empty());
    match handshake.take_frame() {
        Some(frame) => Step::Stop {
            next: Some(Substream::NotificationsInWait),
            event: Some(Event::NotificationsInOpen { id, protocol, handshake: frame }),
        },
        None => Step::Continue {
            next: Substream::NotificationsInHandshake { handshake, protocol },
            read,
        },
    }
}

/// Transition of [`Substream::NotificationsOutHandshakeRecv`].
fn step_notifications_out_handshake<TRqUd, TNotifUd>(
    handshake: Framed,
    data: &[u8],
    actions: &mut Vec<Action>,
) -> (r: Step<TRqUd, TNotifUd>)
    requires
        handshake.wf(),
        reader_wf(handshake@),
        data@.len() > 0,
    ensures
        r.is_step(
            SubstreamView::<TRqUd>::step_notifications_out_handshake::<TNotifUd>(
                handshake@,
                data@,
            ),
            old(actions)@,
            final(actions)@,
            data@.len(),
        ),
{
    let mut handshake = handshake;
    proof {
        lemma_feed_bounds(handshake@, data@);
    }
    let read = match handshake.inject_data(data) {
        Ok(n) => n,
        Err(_) => {
            return Step::Undefined;
        },
    };
    if handshake.is_complete() {
        return Step::Undefined;
    }
    assert(actions_view(actions@) =~= actions_view(old(actions)@) + Seq::<ActionView>::empty());
    Step::Continue { next: Substream::NotificationsOutHandshakeRecv { handshake }, read }
}

impl<TRqUd> Substream<TRqUd> {
    /// Takes one transition on the non-empty `data`.
    fn step<TNotifUd>(
        self,
        id: SubstreamId,
        data: &[u8],
        requests: &Vec<String>,
        ping: &String,
        actions: &mut Vec<Action>,
    ) -> (r: Step<TRqUd, TNotifUd>)
        requires
            self.wf(),
            data@.len() > 0,
        ensures
            r.is_step(
                self@.step::<TNotifUd>(id, data@, names_of(requests@), ping@),
                old(actions)@,
                final(actions)@,
                data@.len(),
            ),
    {
        reveal(SubstreamView::step);
        match self {
            Substream::Poisoned => Step::Undefined,
            Substream::InboundNegotiating(negotiation) => step_inbound(
                negotiation,
                data,
                requests,
                ping,
                actions,
            ),
            Substream::NegotiationFailed => {
                assert(actions_view(actions@) =~= actions_view(old(actions)@) + Seq::<
                    ActionView,
                >::empty());
                Step::Continue { next: Substream::NegotiationFailed, read: data.len() }
            },
            Substream::NotificationsOutNegotiating {
                timeout,
                negotiation,
                handshake,
            } => step_notifications_out(timeout, negotiation, handshake, data, actions),
            Substream::NotificationsOutHandshakeRecv {
                handshake,
            } => step_notifications_out_handshake(handshake, data, actions),
            Substream::NotificationsOut => Step::Undefined,
            Substream::NotificationsInHandshake { handshake, protocol } => step_notifications_in(
                id,
                handshake,
                protocol,
                data,
                actions,
            ),
            Substream::NotificationsInWait => {
                assert(actions_view(actions@) =~= actions_view(old(actions)@) + Seq::<
                    ActionView,
                >::empty());
                Step::Continue { next: Substream::NotificationsInWait, read: data.len() }
            },
            Substream::RequestOutNegotiating {
                timeout,
                negotiation,
                request,
                user_data,
            } => step_request_out_negotiating(
                id,
                timeout,
                negotiation,
                request,
                user_data,
                data,
                actions,
            ),
            Substream::RequestOut { timeout, user_data, response } => step_request_out(
                id,
                timeout,
                user_data,
                response,
                data,
                actions,
            ),
            Substream::RequestInRecv { request, protocol } => {
                assert(actions_view(actions@) =~= actions_view(old(actions)@) + Seq::<
                    ActionView,
                >::empty());
                Step::Continue { next: Substream::RequestInRecv { request, protocol }, read: data.len() }
            },
            Substream::RequestInSend => Step::Undefined,
            Substream::PingIn(payload) => {
                let mut payload = payload;
                let echoes = receive(&mut payload, data);
                push_writes(actions, echoes);
                Step::Continue { next: Substream::PingIn(payload), read: data.len() }
            },
        }
    }

    /// Advances the substream `id` with the bytes `data` that the remote sent
    /// on it, on a connection that accepts the request-response protocols
    /// `requests` and the ping protocol `ping`.
    ///
    /// The substream takes the data piece by piece, one transition each,
    /// until the data is used up, the substream is reset, or there is an event
    /// to report: what is left of the data is then dropped. The outcome lists
    /// what the multiplexer has to do for the substream, in order.
    ///
    /// Returns `None` where the data lead to a point for which the state
    /// machine defines no transition: the connection cannot go on.
    pub fn inject_data<TNotifUd>(
        self,
        id: SubstreamId,
        data: &[u8],
        requests: &Vec<String>,
        ping: &String,
    ) -> (r: Option<Outcome<TRqUd, TNotifUd>>)
        requires
            self.wf(),
        ensures
            outcome_view(r) == self@.inject::<TNotifUd>(id, data@, names_of(requests@), ping@),
            r matches Some(outcome) ==> outcome.wf(),
    {
        let ghost goal = self@.inject::<TNotifUd>(id, data@, names_of(requests@), ping@);
        let mut current = self;
        let mut actions: Vec<Action> = Vec::new();
        let mut position: usize = 0;
        proof {
            assert(data@.skip(0) =~= data@);
            let rest = current@.inject::<TNotifUd>(id, data@, names_of(requests@), ping@);
            if let Some(outcome) = rest {
                assert(actions_view(actions@) + outcome.actions =~= outcome.actions);
            }
        }
        while position < data.len()
            invariant
                position <= data@.len(),
                current.wf(),
                goal == self@.inject::<TNotifUd>(id, data@, names_of(requests@), ping@),
                goal == after_actions(
                    actions_view(actions@),
                    current@.inject::<TNotifUd>(
                        id,
                        data@.skip(position as int),
                        names_of(requests@),
                        ping@,
                    ),
                ),
            decreases data@.len() - position,
        {
            let rest = vstd::slice::slice_subrange(data, position, data.len());
            let ghost done = actions_view(actions@);
            let ghost state = current@;
            proof {
                assert(rest@ =~= data@.skip(position as int));
            }
            match current.step::<TNotifUd>(id, rest, requests, ping, &mut actions) {
                Step::Undefined => {
                    return None;
                },
                Step::Stop { next, event } => {
                    return Some(Outcome { substream: next, actions, event });
                },
                Step::Continue { next, read } => {
                    proof {
                        assert(rest@.skip(read as int) =~= data@.skip(position + read));
                        let after = next@.inject::<TNotifUd>(
                            id,
                            data@.skip(position + read),
                            names_of(requests@),
                            ping@,
                        );
                        if let Some(outcome) = after {
                            let taken = state.step::<TNotifUd>(
                                id,
                                rest@,
                                names_of(requests@),
                                ping@,
                            )->Continue_actions;
                            assert(done + (taken + outcome.actions) =~= actions_view(actions@)
                                + outcome.actions);
                        }
                    }
                    current = next;
                    position = position + read;
                },
            }
        }
        proof {
            assert(actions_view(actions@) + Seq::<ActionView>::empty() =~= actions_view(actions@));
        }
        Some(Outcome { substream: Some(current), actions, event: None })
    }
}

/// Whether a substream that was in the state `before` and is in the state
/// `after` still carries the same request with the same deadline, if it
/// carries one at all.
pub open spec fn keeps_request<TRqUd>(
    before: SubstreamView<TRqUd>,
    after: SubstreamView<TRqUd>,
) -> bool {
    &&& after.deadline() is Some ==> after.deadline() == before.deadline()
    &&& after.request_user_data() is Some ==> after.request_user_data()
        == before.request_user_data()
}

/// A transition gives a substream no request and no deadline that it did not
/// have, and every event that it reports is about that substream. The only
/// event about a substream that carries no request is the opening of an inbound
/// notifications substream.
pub proof fn lemma_step_keeps_request<TRqUd, TNotifUd>(
    state: SubstreamView<TRqUd>,
    id: SubstreamId,
    data: Seq<u8>,
    requests: Seq<Seq<char>>,
    ping: Seq<char>,
)
    ensures
        match state.step::<TNotifUd>(id, data, requests, ping) {
            StepView::Continue { next, .. } => keeps_request(state, next),
            StepView::Stop { next, event, .. } => {
                &&& next matches Some(after) ==> after.deadline() is None
                    && after.request_user_data() is None
                &&& event matches Some(e) ==> e.substream() == Some(id) && (e is Response
                    <==> state.request_user_data() is Some)
            },
            StepView::Undefined => true,
        },
{
    reveal(SubstreamView::step);
}

/// The data received on a substream give it no request and no deadline that
/// it did not have, and the event that they lead to, if any, is about that
/// substream.
pub proof fn lemma_inject_keeps_request<TRqUd, TNotifUd>(
    state: SubstreamView<TRqUd>,
    id: SubstreamId,
    data: Seq<u8>,
    requests: Seq<Seq<char>>,
    ping: Seq<char>,
)
    ensures
        match state.inject::<TNotifUd>(id, data, requests, ping) {
            Some(outcome) => {
                &&& outcome.substream matches Some(after) ==> keeps_request(state, after)
                &&& outcome.event matches Some(e) ==> e.substream() == Some(id)
                &&& outcome.event matches Some(e) ==> e is Response ==> state.request_user_data()
                    is Some
            },
            None => true,
        },
    decreases data.len(),
{
    if data.len() > 0 {
        lemma_step_keeps_request::<TRqUd, TNotifUd>(state, id, data, requests, ping);
        match state.step::<TNotifUd>(id, data, requests, ping) {
            StepView::Continue { next, read, .. } => {
                if 0 < read <= data.len() {
                    lemma_inject_keeps_request::<TRqUd, TNotifUd>(
                        next,
                        id,
                        data.skip(read as int),
                        requests,
                        ping,
                    );
                }
            },
            _ => {},
        }
    }
}

impl<TRqUd> Substream<TRqUd> {
    /// When the substream times out, if it does.
    pub fn deadline(&self) -> (deadline: Option<u64>)
        ensures
            deadline == self@.deadline(),
    {
        match self {
            Substream::RequestOutNegotiating { timeout, .. } => Some(*timeout),
            Substream::RequestOut { timeout, .. } => Some(*timeout),
            _ => None,
        }
    }

    /// The user data of the request that the substream carries, if it
    /// carries one.
    pub fn into_request_user_data(self) -> (user_data: Option<TRqUd>)
        ensures
            user_data == self@.request_user_data(),
    {
        match self {
            Substream::RequestOutNegotiating { user_data, .. } => Some(user_data),
            Substream::RequestOut { user_data, .. } => Some(user_data),
            _ => None,
        }
    }
}

impl<TRqUd> SubstreamView<TRqUd> {
    /// The protocol that an inbound substream has negotiated and reads a
    /// request or a handshake of.
    pub open spec fn protocol(self) -> Option<Seq<char>> {
        match self {
            SubstreamView::NotificationsInHandshake { protocol, .. } => Some(protocol),
            SubstreamView::RequestInRecv { protocol, .. } => Some(protocol),
            _ => None,
        }
    }

    /// The name under which a substream in this state is shown, for the
    /// states that have one.
    pub open spec fn name(self) -> Option<Seq<char>> {
        match self {
            SubstreamView::Poisoned => Some("poisoned"@),
            SubstreamView::NegotiationFailed => Some("incoming-negotiation-failed"@),
            SubstreamView::InboundNegotiating(_) => Some("incoming-negotiating"@),
            SubstreamView::NotificationsOut => Some("notifications-out"@),
            SubstreamView::NotificationsInHandshake { .. } => Some("notifications-in"@),
            SubstreamView::RequestOutNegotiating { .. } => Some("request-out"@),
            SubstreamView::RequestOut { .. } => Some("request-out"@),
            SubstreamView::RequestInRecv { .. } => Some("request-in"@),
            SubstreamView::PingIn(_) => Some("ping-in"@),
            _ => None,
        }
    }
}

impl<TRqUd> Substream<TRqUd> {
    /// The protocol that the substream has negotiated, if it is an inbound
    /// substream that reads a request or a handshake.
    pub fn protocol(&self) -> (protocol: Option<&String>)
        ensures
            match protocol {
                Some(name) => self@.protocol() == Some(name@),
                None => self@.protocol() is None,
            },
    {
        match self {
            Substream::NotificationsInHandshake { protocol, .. } => Some(protocol),
            Substream::RequestInRecv { protocol, .. } => Some(protocol),
            _ => None,
        }
    }

    /// The user data of the request that the substream carries, if it
    /// carries one.
    pub fn request_user_data(&self) -> (user_data: Option<&TRqUd>)
        ensures
            match user_data {
                Some(data) => self@.request_user_data() == Some(*data),
                None => self@.request_user_data() is None,
            },
    {
        match self {
            Substream::RequestOutNegotiating { user_data, .. } => Some(user_data),
            Substream::RequestOut { user_data, .. } => Some(user_data),
            _ => None,
        }
    }

    /// The name under which the substream is shown when a connection is
    /// printed for debugging. The states of an outbound notifications
    /// substream that negotiates or waits for a handshake, that of an inbound
    /// one that waits for the host, and that of a request to answer have none.
    pub fn name(&self) -> (name: Option<&'static str>)
        ensures
            match name {
                Some(shown) => self@.name() == Some(shown@),
                None => self@.name() is None,
            },
    {
        match self {
            Substream::Poisoned => Some("poisoned"),
            Substream::NegotiationFailed => Some("incoming-negotiation-failed"),
            Substream::InboundNegotiating(_) => Some("incoming-negotiating"),
            Substream::NotificationsOut => Some("notifications-out"),
            Substream::NotificationsInHandshake { .. } => Some("notifications-in"),
            Substream::RequestOutNegotiating { .. } => Some("request-out"),
            Substream::RequestOut { .. } => Some("request-out"),
            Substream::RequestInRecv { .. } => Some("request-in"),
            Substream::PingIn(_) => Some("ping-in"),
            _ => None,
        }
    }
}

/// The inbound substream on which the remote may negotiate any of
/// `offered`.
pub open spec fn listening<TRqUd>(offered: Seq<Seq<char>>) -> SubstreamView<TRqUd> {
    SubstreamView::InboundNegotiating(
        InProgressView::new(ConfigView::Listener { supported: offered }),
    )
}

/// What a listener answers to a dialer that asks for a protocol that it
/// supports: its handshake and the line of that protocol.
pub open spec fn acceptance(protocol: Seq<char>) -> Seq<u8> {
    frame_spec(handshake_line()) + frame_spec(protocol_line(protocol))
}

/// What a listener answers to a dialer that asks for a protocol that it does
/// not support: its handshake and the line that declines.
pub open spec fn refusal() -> Seq<u8> {
    frame_spec(handshake_line()) + frame_spec(na_line())
}

/// A substream that takes all of its data in one transition ends up where
/// that transition leads.
proof fn lemma_inject_single_step<TRqUd, TNotifUd>(
    state: SubstreamView<TRqUd>,
    id: SubstreamId,
    data: Seq<u8>,
    requests: Seq<Seq<char>>,
    ping: Seq<char>,
)
    requires
        data.len() > 0,
        state.step::<TNotifUd>(id, data, requests, ping) matches StepView::Continue { read, .. }
            && read == data.len(),
    ensures
        state.inject::<TNotifUd>(id, data, requests, ping) == Some(
            OutcomeView::<TRqUd, TNotifUd> {
                substream: Some(
                    state.step::<TNotifUd>(id, data, requests, ping)->Continue_next,
                ),
                actions: state.step::<TNotifUd>(id, data, requests, ping)->Continue_actions,
                event: None,
            },
        ),
{
    reveal_with_fuel(SubstreamView::inject, 2);
    let step = state.step::<TNotifUd>(id, data, requests, ping);
    assert(data.skip(data.len() as int).len() == 0);
    assert(step->Continue_actions + Seq::<ActionView>::empty() =~= step->Continue_actions);
}

/// A listener accepts a protocol that it offers: on the opening of a dialer
/// that asks for it, its inbound substream answers with its acceptance, and
/// goes on in the state in which it follows that protocol.
pub proof fn lemma_listener_accepts<TRqUd, TNotifUd>(
    id: SubstreamId,
    protocol: Seq<char>,
    offered: Seq<Seq<char>>,
    requests: Seq<Seq<char>>,
    ping: Seq<char>,
)
    requires
        offered.contains(protocol),
        protocol_line(protocol).len() <= MAX_FRAME_LENGTH,
        protocol_line(protocol) != na_line(),
    ensures
        listening::<TRqUd>(offered).inject::<TNotifUd>(
            id,
            (ConfigView::Dialer { requested: protocol }).opening(),
            requests,
            ping,
        ) == Some(
            OutcomeView::<TRqUd, TNotifUd> {
                substream: Some(negotiated(protocol, requests, ping)),
                actions: seq![ActionView::Write(acceptance(protocol))],
                event: None,
            },
        ),
{
    let opening = (ConfigView::Dialer { requested: protocol }).opening();
    lemma_negotiation_succeeds(protocol, offered, Seq::empty(), Seq::empty());
    assert(opening + Seq::<u8>::empty() =~= opening);
    reveal(SubstreamView::step);
    lemma_inject_single_step::<TRqUd, TNotifUd>(listening(offered), id, opening, requests, ping);
}

/// A listener declines a protocol that it does not offer: on the opening of
/// a dialer that asks for it, its inbound substream answers with its refusal,
/// closes its writing side, and from then on discards what it receives.
pub proof fn lemma_listener_declines<TRqUd, TNotifUd>(
    id: SubstreamId,
    protocol: Seq<char>,
    offered: Seq<Seq<char>>,
    requests: Seq<Seq<char>>,
    ping: Seq<char>,
    later: Seq<u8>,
)
    requires
        !offered.contains(protocol),
        protocol_line(protocol).len() <= MAX_FRAME_LENGTH,
    ensures
        listening::<TRqUd>(offered).inject::<TNotifUd>(
            id,
            (ConfigView::Dialer { requested: protocol }).opening(),
            requests,
            ping,
        ) == Some(
            OutcomeView::<TRqUd, TNotifUd> {
                substream: Some(SubstreamView::NegotiationFailed),
                actions: seq![ActionView::Write(refusal()), ActionView::Close],
                event: None,
            },
        ),
        SubstreamView::<TRqUd>::NegotiationFailed.inject::<TNotifUd>(id, later, requests, ping)
            == Some(
            OutcomeView::<TRqUd, TNotifUd> {
                substream: Some(SubstreamView::NegotiationFailed),
                actions: Seq::empty(),
                event: None,
            },
        ),
{
    let opening = (ConfigView::Dialer { requested: protocol }).opening();
    lemma_negotiation_declined(protocol, offered, Seq::empty(), Seq::empty());
    assert(opening + Seq::<u8>::empty() =~= opening);
    reveal(SubstreamView::step);
    lemma_inject_single_step::<TRqUd, TNotifUd>(listening(offered), id, opening, requests, ping);
    if later.len() > 0 {
        lemma_inject_single_step::<TRqUd, TNotifUd>(
            SubstreamView::NegotiationFailed,
            id,
            later,
            requests,
            ping,
        );
    }
}

/// A request is sent once the listener has accepted its protocol: on the
/// acceptance, the substream of the request sends the request behind its
/// length, closes its writing side and expects the response. It keeps its
/// deadline and its user data.
pub proof fn lemma_request_sent<TRqUd, TNotifUd>(
    id: SubstreamId,
    protocol: Seq<char>,
    requests: Seq<Seq<char>>,
    ping: Seq<char>,
    timeout: u64,
    request: Seq<u8>,
    user_data: TRqUd,
)
    requires
        protocol_line(protocol).len() <= MAX_FRAME_LENGTH,
        protocol_line(protocol) != na_line(),
    ensures
        (SubstreamView::RequestOutNegotiating {
            timeout,
            negotiation: dialing(protocol),
            request,
            user_data,
        }).inject::<TNotifUd>(id, acceptance(protocol), requests, ping) == Some(
            OutcomeView::<TRqUd, TNotifUd> {
                substream: Some(
                    SubstreamView::RequestOut {
                        timeout,
                        user_data,
                        response: FramedView::empty(MAX_FRAME_SIZE as nat),
                    },
                ),
                actions: seq![
                    ActionView::Write(Seq::empty()),
                    ActionView::Write(encode_usize_spec(request.len())),
                    ActionView::Write(request),
                    ActionView::Close,
                ],
                event: None,
            },
        ),
{
    let answer = acceptance(protocol);
    assert(seq![protocol][0] == protocol);
    lemma_negotiation_succeeds(protocol, seq![protocol], Seq::empty(), Seq::empty());
    assert(answer + Seq::<u8>::empty() =~= answer);
    reveal(SubstreamView::step);
    let asking = SubstreamView::RequestOutNegotiating {
        timeout,
        negotiation: dialing(protocol),
        request,
        user_data,
    };
    lemma_inject_single_step::<TRqUd, TNotifUd>(asking, id, answer, requests, ping);
}

/// A request fails where the listener declines its protocol: on the
/// refusal, the substream of the request is reset, and reports that the
/// protocol is not available, with the user data of the request.
pub proof fn lemma_request_declined<TRqUd, TNotifUd>(
    id: SubstreamId,
    protocol: Seq<char>,
    requests: Seq<Seq<char>>,
    ping: Seq<char>,
    timeout: u64,
    request: Seq<u8>,
    user_data: TRqUd,
)
    requires
        protocol_line(protocol).len() <= MAX_FRAME_LENGTH,
    ensures
        (SubstreamView::RequestOutNegotiating {
            timeout,
            negotiation: dialing(protocol),
            request,
            user_data,
        }).inject::<TNotifUd>(id, refusal(), requests, ping) == Some(
            OutcomeView::<TRqUd, TNotifUd> {
                substream: None,
                actions: seq![ActionView::Reset],
                event: Some(
                    EventView::Response {
                        response: Err(RequestError::ProtocolNotAvailable),
                        id,
                        user_data,
                    },
                ),
            },
        ),
{
    lemma_negotiation_declined(protocol, Seq::empty(), Seq::empty(), Seq::empty());
    assert(refusal() + Seq::<u8>::empty() =~= refusal());
    reveal(SubstreamView::step);
    reveal_with_fuel(SubstreamView::inject, 2);
}

/// A response is reported once it is whole: on the frame of a response, the
/// substream of a request that expects one reports that response with the
/// user data of the request, and is done with its request.
pub proof fn lemma_response_reported<TRqUd, TNotifUd>(
    id: SubstreamId,
    requests: Seq<Seq<char>>,
    ping: Seq<char>,
    timeout: u64,
    user_data: TRqUd,
    response: Seq<u8>,
)
    requires
        response.len() <= MAX_FRAME_SIZE,
    ensures
        (SubstreamView::RequestOut {
            timeout,
            user_data,
            response: FramedView::empty(MAX_FRAME_SIZE as nat),
        }).inject::<TNotifUd>(id, frame_spec(response), requests, ping) == Some(
            OutcomeView::<TRqUd, TNotifUd> {
                substream: Some(SubstreamView::NegotiationFailed),
                actions: Seq::empty(),
                event: Some(EventView::Response { response: Ok(response), id, user_data }),
            },
        ),
{
    lemma_frame_round_trip(MAX_FRAME_SIZE as nat, response, Seq::empty());
    assert(frame_spec(response) + Seq::<u8>::empty() =~= frame_spec(response));
    reveal(SubstreamView::step);
    reveal_with_fuel(SubstreamView::inject, 2);
}

/// The handshake of a notifications substream is sent once the listener has
/// accepted its protocol: on the acceptance, the substream sends its
/// handshake behind its length, and expects the handshake of the listener.
pub proof fn lemma_notifications_handshake_sent<TRqUd, TNotifUd>(
    id: SubstreamId,
    protocol: Seq<char>,
    requests: Seq<Seq<char>>,
    ping: Seq<char>,
    timeout: u64,
    handshake: Seq<u8>,
)
    requires
        protocol_line(protocol).len() <= MAX_FRAME_LENGTH,
        protocol_line(protocol) != na_line(),
    ensures
        (SubstreamView::<TRqUd>::NotificationsOutNegotiating {
            timeout,
            negotiation: dialing(protocol),
            handshake,
        }).inject::<TNotifUd>(id, acceptance(protocol), requests, ping) == Some(
            OutcomeView::<TRqUd, TNotifUd> {
                substream: Some(
                    SubstreamView::NotificationsOutHandshakeRecv {
                        handshake: FramedView::empty(MAX_FRAME_SIZE as nat),
                    },
                ),
                actions: seq![
                    ActionView::Write(Seq::empty()),
                    ActionView::Write(encode_usize_spec(handshake.len())),
                    ActionView::Write(handshake),
                ],
                event: None,
            },
        ),
{
    let answer = acceptance(protocol);
    assert(seq![protocol][0] == protocol);
    lemma_negotiation_succeeds(protocol, seq![protocol], Seq::empty(), Seq::empty());
    assert(answer + Seq::<u8>::empty() =~= answer);
    reveal(SubstreamView::step);
    let asking = SubstreamView::<TRqUd>::NotificationsOutNegotiating {
        timeout,
        negotiation: dialing(protocol),
        handshake,
    };
    lemma_inject_single_step::<TRqUd, TNotifUd>(asking, id, answer, requests, ping);
}

/// The opening of an inbound notifications substream is reported once the
/// handshake of the remote is whole: on the frame of that handshake, the
/// substream reports its opening with the protocol and the handshake, and
/// waits for the host.
pub proof fn lemma_notifications_opening_reported<TRqUd, TNotifUd>(
    id: SubstreamId,
    protocol: Seq<char>,
    requests: Seq<Seq<char>>,
    ping: Seq<char>,
    handshake: Seq<u8>,
)
    requires
        handshake.len() <= MAX_FRAME_SIZE,
    ensures
        (SubstreamView::<TRqUd>::NotificationsInHandshake {
            handshake: FramedView::empty(MAX_FRAME_SIZE as nat),
            protocol,
        }).inject::<TNotifUd>(id, frame_spec(handshake), requests, ping) == Some(
            OutcomeView::<TRqUd, TNotifUd> {
                substream: Some(SubstreamView::NotificationsInWait),
                actions: Seq::empty(),
                event: Some(EventView::NotificationsInOpen { id, protocol, handshake }),
            },
        ),
{
    lemma_frame_round_trip(MAX_FRAME_SIZE as nat, handshake, Seq::empty());
    assert(frame_spec(handshake) + Seq::<u8>::empty() =~= frame_spec(handshake));
    reveal(SubstreamView::step);
    reveal_with_fuel(SubstreamView::inject, 2);
}

/// An inbound ping substream sends back each whole payload of what it has
/// gathered and receives, in order, keeps the rest, and reports nothing.
pub proof fn lemma_ping_echo<TRqUd, TNotifUd>(
    id: SubstreamId,
    gathered: Seq<u8>,
    data: Seq<u8>,
    requests: Seq<Seq<char>>,
    ping: Seq<char>,
)
    requires
        gathered.len() < PAYLOAD_SIZE,
    ensures
        SubstreamView::<TRqUd>::PingIn(gathered).inject::<TNotifUd>(id, data, requests, ping)
            == Some(
            OutcomeView::<TRqUd, TNotifUd> {
                substream: Some(SubstreamView::PingIn(partial_payload(gathered + data))),
                actions: writes_of(whole_payloads(gathered + data)),
                event: None,
            },
        ),
{
    reveal(SubstreamView::step);
    if data.len() == 0 {
        assert(gathered + data =~= gathered);
        assert(partial_payload(gathered) =~= gathered);
        assert(writes_of(whole_payloads(gathered)) =~= Seq::<ActionView>::empty());
    } else {
        lemma_inject_single_step::<TRqUd, TNotifUd>(
            SubstreamView::PingIn(gathered),
            id,
            data,
            requests,
            ping,
        );
    }
}

} // verus!
