//! Little-endian base-128 lengths, and the length-prefixed frames built on them.
//!
//! A frame on the wire is the LEB128 encoding of the length of its payload,
//! followed by that payload. [`encode_usize`] produces the prefix, and a
//! [`Framed`] reader reassembles frames from the pieces in which they arrive.

use vstd::prelude::*;

verus! {

/// Largest number of bytes that a length prefix may span.
pub const MAX_LENGTH_DIGITS: u8 = 10;

/// The LEB128 encoding of `value`: its base-128 digits, least significant
/// first, each but the last with its high bit set.
pub open spec fn encode_usize_spec(value: nat) -> Seq<u8>
    decreases value,
{
    if value < 128 {
        seq![value as u8]
    } else {
        seq![(value % 128 + 128) as u8] + encode_usize_spec(value / 128)
    }
}

/// `128` to the power of `digits`: the weight of the digit at that position.
pub open spec fn pow128(digits: nat) -> nat
    decreases digits,
{
    if digits == 0 {
        1
    } else {
        128 * pow128((digits - 1) as nat)
    }
}

/// The wire form of a frame holding `payload`.
pub open spec fn frame_spec(payload: Seq<u8>) -> Seq<u8> {
    encode_usize_spec(payload.len()) + payload
}

/// Returns the LEB128 encoding of `value`.
pub fn encode_usize(value: usize) -> (out: Vec<u8>)
    ensures
        out@ == encode_usize_spec(value as nat),
{
    let mut out: Vec<u8> = Vec::new();
    let mut rest: usize = value;
    while rest >= 128
        invariant
            encode_usize_spec(value as nat) == out@ + encode_usize_spec(rest as nat),
        decreases rest,
    {
        let ghost before = out@;
        out.push((rest % 128 + 128) as u8);
        proof {
            assert(out@ + encode_usize_spec((rest / 128) as nat) =~= before + (seq![
                (rest % 128 + 128) as u8,
            ] + encode_usize_spec((rest / 128) as nat)));
        }
        rest = rest / 128;
    }
    let ghost before = out@;
    out.push(rest as u8);
    proof {
        assert(out@ =~= before + seq![rest as u8]);
    }
    out
}

/// Reason for which a [`Framed`] reader refuses the bytes it is given.
#[derive(Debug, Clone, Copy, PartialEq, Eq, Structural)]
pub enum FramedError {
    /// The length prefix spans more than [`MAX_LENGTH_DIGITS`] bytes.
    LengthPrefixTooLong,
    /// The length prefix announces a payload above the reader's limit.
    FrameTooLarge,
}

/// What a reader has seen of the frame that it is assembling.
pub enum FramedState {
    /// The length prefix is being read: `value` is what its first `digits`
    /// bytes denote.
    Length { value: nat, digits: nat },
    /// The prefix announced `expected` bytes, of which `received` have arrived.
    Body { expected: nat, received: Seq<u8> },
}

/// Mathematical model of a [`Framed`] reader.
pub struct FramedView {
    /// Largest payload that the reader accepts.
    pub max_len: nat,
    /// Progress on the current frame.
    pub state: FramedState,
}

/// Outcome of handing bytes to a reader, see [`FramedView::feed`].
pub struct Fed {
    /// The reader after the bytes that it took.
    pub reader: FramedView,
    /// How many bytes it took.
    pub consumed: nat,
    /// Why it refused the byte after those, if it did.
    pub error: Option<FramedError>,
}

impl FramedView {
    /// A reader that has seen nothing of its next frame.
    pub open spec fn empty(max_len: nat) -> FramedView {
        FramedView { max_len, state: FramedState::Length { value: 0, digits: 0 } }
    }

    /// Whether a whole frame has been assembled.
    pub open spec fn is_complete(self) -> bool {
        match self.state {
            FramedState::Length { .. } => false,
            FramedState::Body { expected, received } => received.len() == expected,
        }
    }

    /// The payload assembled so far; the whole frame once [`Self::is_complete`].
    pub open spec fn payload(self) -> Seq<u8> {
        match self.state {
            FramedState::Length { .. } => Seq::empty(),
            FramedState::Body { received, .. } => received,
        }
    }

    /// The invariant of a reader's model.
    pub open spec fn wf(self) -> bool {
        match self.state {
            FramedState::Length { value, digits } => value <= self.max_len && digits
                <= MAX_LENGTH_DIGITS,
            FramedState::Body { expected, received } => expected <= self.max_len && received.len()
                <= expected,
        }
    }

    /// The reader after one more byte of an incomplete frame.
    pub open spec fn push(self, byte: u8) -> Result<FramedView, FramedError> {
        match self.state {
            FramedState::Length { value, digits } => {
                let total = value + (byte % 128) * pow128(digits);
                if digits >= MAX_LENGTH_DIGITS {
                    Err(FramedError::LengthPrefixTooLong)
                } else if total > self.max_len {
                    Err(FramedError::FrameTooLarge)
                } else if byte >= 128 {
                    Ok(
                        FramedView {
                            max_len: self.max_len,
                            state: FramedState::Length { value: total as nat, digits: digits + 1 },
                        },
                    )
                } else {
                    Ok(
                        FramedView {
                            max_len: self.max_len,
                            state: FramedState::Body {
                                expected: total as nat,
                                received: Seq::empty(),
                            },
                        },
                    )
                }
            },
            FramedState::Body { expected, received } => Ok(
                FramedView {
                    max_len: self.max_len,
                    state: FramedState::Body { expected, received: received.push(byte) },
                },
            ),
        }
    }

    /// Hands `data` to the reader: it takes bytes until its frame is complete,
    /// the data is exhausted, or a byte makes the length prefix invalid.
    pub open spec fn feed(self, data: Seq<u8>) -> Fed
        decreases data.len(),
    {
        if data.len() == 0 || self.is_complete() {
            Fed { reader: self, consumed: 0, error: None }
        } else {
            match self.push(data[0]) {
                Err(e) => Fed { reader: self, consumed: 0, error: Some(e) },
                Ok(next) => {
                    let rest = next.feed(data.drop_first());
                    Fed { reader: rest.reader, consumed: rest.consumed + 1, error: rest.error }
                },
            }
        }
    }
}

/// What the bytes taken by [`FramedView::feed`] amount to: never more than was
/// offered, at least one byte of a non-empty offer to an incomplete reader that
/// accepts it, and all of the offer unless the frame became complete.
pub proof fn lemma_feed_bounds(reader: FramedView, data: Seq<u8>)
    requires
        reader.wf(),
    ensures
        reader.feed(data).consumed <= data.len(),
        reader.feed(data).reader.wf(),
        reader.feed(data).reader.max_len == reader.max_len,
        reader.feed(data).error is None ==> (reader.feed(data).consumed == data.len()
            || reader.feed(data).reader.is_complete()),
        reader.feed(data).error is None && data.len() > 0 && !reader.is_complete()
            ==> reader.feed(data).consumed >= 1,
        reader.feed(data).error is Some ==> !reader.feed(data).reader.is_complete(),
    decreases data.len(),
{
    if data.len() == 0 || reader.is_complete() {
    } else {
        match reader.push(data[0]) {
            Err(_) => {},
            Ok(next) => {
                lemma_feed_bounds(next, data.drop_first());
            },
        }
    }
}

/// Bounds on the weights of the digits that a length prefix may hold.
proof fn lemma_pow128_values()
    ensures
        pow128(0) == 1,
        pow128(9) == 0x8000_0000_0000_0000,
        pow128(10) == 0x40_0000_0000_0000_0000,
        forall|d: nat| d <= 9 ==> #[trigger] pow128(d) <= 0x8000_0000_0000_0000,
        forall|d: nat| #[trigger] pow128(d + 1) == 128 * pow128(d),
{
    reveal_with_fuel(pow128, 12);
    assert forall|d: nat| d <= 9 implies #[trigger] pow128(d) <= 0x8000_0000_0000_0000 by {
        if d == 0 {
        } else if d == 1 {
        } else if d == 2 {
        } else if d == 3 {
        } else if d == 4 {
        } else if d == 5 {
        } else if d == 6 {
        } else if d == 7 {
        } else if d == 8 {
        } else {
            assert(d == 9);
        }
    }
}

/// Where a reader stands in its frame.
enum Phase {
    /// Reading the length prefix: its value so far, the weight of the next
    /// digit, and the number of digits read.
    Length { value: usize, scale: u128, digits: u8 },
    /// Reading the payload.
    Body { expected: usize },
}

/// Accumulates the bytes of a stream into length-prefixed frames of at most a
/// given size.
pub struct Framed {
    max_len: usize,
    phase: Phase,
    buffer: Vec<u8>,
}

impl View for Framed {
    type V = FramedView;

    closed spec fn view(&self) -> FramedView {
        FramedView {
            max_len: self.max_len as nat,
            state: match self.phase {
                Phase::Length { value, digits, .. } => FramedState::Length {
                    value: value as nat,
                    digits: digits as nat,
                },
                Phase::Body { expected } => FramedState::Body {
                    expected: expected as nat,
                    received: self.buffer@,
                },
            },
        }
    }
}

impl Framed {
    /// The invariant of a reader: it holds of every reader that this module
    /// hands out.
    pub closed spec fn wf(&self) -> bool {
        &&& self@.wf()
        &&& match self.phase {
            Phase::Length { scale, digits, .. } => scale == pow128(digits as nat)
                && self.buffer@.len() == 0,
            Phase::Body { .. } => true,
        }
    }

    /// What [`Self::wf`] says of the model.
    pub proof fn lemma_wf_view(&self)
        requires
            self.wf(),
        ensures
            self@.wf(),
            self@.max_len <= usize::MAX,
    {
    }

    /// Creates a reader of frames of at most `max_len` bytes.
    pub fn new(max_len: usize) -> (reader: Framed)
        ensures
            reader.wf(),
            reader@ == FramedView::empty(max_len as nat),
    {
        proof {
            lemma_pow128_values();
        }
        Framed {
            max_len,
            phase: Phase::Length { value: 0, scale: 1, digits: 0 },
            buffer: Vec::new(),
        }
    }

    /// Takes one byte of an incomplete frame.
    fn push(&mut self, byte: u8) -> (r: Result<(), FramedError>)
        requires
            old(self).wf(),
            !old(self)@.is_complete(),
        ensures
            final(self).wf(),
            match r {
                Ok(()) => old(self)@.push(byte) == Ok::<FramedView, FramedError>(final(self)@),
                Err(e) => old(self)@.push(byte) == Err::<FramedView, FramedError>(e) && *final(self)
                    == *old(self),
            },
    {
        match self.phase {
            Phase::Length { value, scale, digits } => {
                if digits >= MAX_LENGTH_DIGITS {
                    return Err(FramedError::LengthPrefixTooLong);
                }
                proof {
                    lemma_pow128_values();
                }
                let digit: u128 = (byte % 128) as u128;
                assert(digit * scale <= 127 * 0x8000_0000_0000_0000) by (nonlinear_arith)
                    requires
                        digit <= 127,
                        scale <= 0x8000_0000_0000_0000,
                ;
                let total: u128 = value as u128 + digit * scale;
                if total > self.max_len as u128 {
                    return Err(FramedError::FrameTooLarge);
                }
                if byte >= 128 {
                    assert(pow128((digits + 1) as nat) == 128 * pow128(digits as nat));
                    self.phase =
                    Phase::Length { value: total as usize, scale: scale * 128, digits: digits + 1 };
                } else {
                    self.phase = Phase::Body { expected: total as usize };
                    assert(self.buffer@ =~= Seq::empty());
                }
                Ok(())
            },
            Phase::Body { .. } => {
                self.buffer.push(byte);
                Ok(())
            },
        }
    }

    /// Hands `data` to the reader, which takes bytes from its start until its
    /// frame is complete or the data is exhausted, and returns how many it took.
    ///
    /// A reader that holds a complete frame takes nothing until
    /// [`Self::take_frame`] has removed it. Where a byte makes the length
    /// prefix invalid, the reader keeps what it took before that byte.
    pub fn inject_data(&mut self, data: &[u8]) -> (r: Result<usize, FramedError>)
        requires
            old(self).wf(),
        ensures
            final(self).wf(),
            final(self)@ == old(self)@.feed(data@).reader,
            match r {
                Ok(n) => old(self)@.feed(data@).error is None && n == old(self)@.feed(
                    data@,
                ).consumed && n <= data@.len(),
                Err(e) => old(self)@.feed(data@).error == Some(e),
            },
    {
        let mut taken: usize = 0;
        proof {
            assert(data@.skip(0) =~= data@);
        }
        while taken < data.len() && !self.is_complete()
            invariant
                self.wf(),
                taken <= data@.len(),
                old(self)@.feed(data@).reader == self@.feed(data@.skip(taken as int)).reader,
                old(self)@.feed(data@).error == self@.feed(data@.skip(taken as int)).error,
                old(self)@.feed(data@).consumed == taken + self@.feed(
                    data@.skip(taken as int),
                ).consumed,
            decreases data@.len() - taken,
        {
            let ghost rest = data@.skip(taken as int);
            proof {
                assert(rest.len() > 0);
                assert(rest[0] == data@[taken as int]);
                assert(rest.drop_first() =~= data@.skip(taken + 1));
            }
            match self.push(data[taken]) {
                Ok(()) => {},
                Err(e) => {
                    return Err(e);
                },
            }
            taken = taken + 1;
        }
        Ok(taken)
    }

    /// Whether the reader holds a complete frame.
    pub fn is_complete(&self) -> (complete: bool)
        requires
            self.wf(),
        ensures
            complete == self@.is_complete(),
    {
        match self.phase {
            Phase::Length { .. } => false,
            Phase::Body { expected } => self.buffer.len() == expected,
        }
    }

    /// Removes the frame that the reader holds, if it is complete, and makes
    /// the reader ready for the next one.
    pub fn take_frame(&mut self) -> (frame: Option<Vec<u8>>)
        requires
            old(self).wf(),
        ensures
            final(self).wf(),
            match frame {
                Some(payload) => old(self)@.is_complete() && payload@ == old(self)@.payload()
                    && final(self)@ == FramedView::empty(old(self)@.max_len),
                None => !old(self)@.is_complete() && final(self)@ == old(self)@,
            },
    {
        if !self.is_complete() {
            return None;
        }
        proof {
            lemma_pow128_values();
        }
        let mut payload: Vec<u8> = Vec::new();
        core::mem::swap(&mut self.buffer, &mut payload);
        self.phase = Phase::Length { value: 0, scale: 1, digits: 0 };
        Some(payload)
    }
}

/// A number below `128` to the power of `digits` is encoded on at most that
/// many bytes.
proof fn lemma_encode_len(value: nat, digits: nat)
    requires
        digits >= 1,
        value < pow128(digits),
    ensures
        1 <= encode_usize_spec(value).len() <= digits,
    decreases value,
{
    if value >= 128 {
        if digits == 1 {
            assert(pow128(1) == 128) by {
                reveal_with_fuel(pow128, 2);
            }
        } else {
            assert(pow128(digits) == 128 * pow128((digits - 1) as nat));
            lemma_encode_len(value / 128, (digits - 1) as nat);
        }
    }
}

/// A reader that is reading a length prefix takes the encoding of a number
/// as the rest of that prefix.
proof fn lemma_feed_prefix(max_len: nat, value: nat, digits: nat, number: nat, rest: Seq<u8>)
    requires
        digits + encode_usize_spec(number).len() <= MAX_LENGTH_DIGITS,
        value + number * pow128(digits) <= max_len,
    ensures
        ({
            let reader = FramedView { max_len, state: FramedState::Length { value, digits } };
            let body = FramedView {
                max_len,
                state: FramedState::Body {
                    expected: value + number * pow128(digits),
                    received: Seq::empty(),
                },
            };
            let fed = reader.feed(encode_usize_spec(number) + rest);
            &&& fed.reader == body.feed(rest).reader
            &&& fed.error == body.feed(rest).error
            &&& fed.consumed == encode_usize_spec(number).len() + body.feed(rest).consumed
        }),
    decreases number,
{
    let reader = FramedView { max_len, state: FramedState::Length { value, digits } };
    let data = encode_usize_spec(number) + rest;
    let weight = pow128(digits);
    if number < 128 {
        assert(data[0] == number as u8);
        assert(data.drop_first() =~= rest);
    } else {
        let low = number % 128;
        let high = number / 128;
        assert(data[0] == (low + 128) as u8);
        assert(((low + 128) as u8) % 128 == low);
        assert(data.drop_first() =~= encode_usize_spec(high) + rest);
        assert(pow128(digits + 1) == 128 * weight);
        assert(low * weight + high * (128 * weight) == number * weight) by (nonlinear_arith)
            requires
                number == 128 * high + low,
        ;
        assert(low * weight <= number * weight) by (nonlinear_arith)
            requires
                low <= number,
                weight >= 0,
        ;
        lemma_feed_prefix(max_len, value + low * weight, digits + 1, high, rest);
    }
}

/// A reader that is reading a payload takes what is missing of it and no
/// more.
proof fn lemma_feed_body(
    max_len: nat,
    expected: nat,
    received: Seq<u8>,
    missing: Seq<u8>,
    rest: Seq<u8>,
)
    requires
        received.len() + missing.len() == expected,
    ensures
        ({
            let reader = FramedView { max_len, state: FramedState::Body { expected, received } };
            let fed = reader.feed(missing + rest);
            &&& fed.reader == (FramedView {
                max_len,
                state: FramedState::Body { expected, received: received + missing },
            })
            &&& fed.error is None
            &&& fed.consumed == missing.len()
        }),
    decreases missing.len(),
{
    let data = missing + rest;
    if missing.len() == 0 {
        assert(received + missing =~= received);
    } else {
        assert(data[0] == missing[0]);
        assert(data.drop_first() =~= missing.drop_first() + rest);
        lemma_feed_body(max_len, expected, received.push(missing[0]), missing.drop_first(), rest);
        assert(received.push(missing[0]) + missing.drop_first() =~= received + missing);
    }
}

/// What is written as a frame is read as that frame: a reader that has seen
/// nothing of its next frame, and is handed the wire form of a frame that it
/// has room for, followed by anything, takes exactly that wire form and then
/// holds the payload.
pub proof fn lemma_frame_round_trip(max_len: nat, payload: Seq<u8>, rest: Seq<u8>)
    requires
        payload.len() <= max_len,
        payload.len() <= u64::MAX,
    ensures
        ({
            let fed = FramedView::empty(max_len).feed(frame_spec(payload) + rest);
            &&& fed.error is None
            &&& fed.consumed == frame_spec(payload).len()
            &&& fed.reader.is_complete()
            &&& fed.reader.payload() == payload
            &&& fed.reader.max_len == max_len
        }),
{
    lemma_pow128_values();
    lemma_encode_len(payload.len(), 10);
    assert(frame_spec(payload) + rest =~= encode_usize_spec(payload.len()) + (payload + rest));
    lemma_feed_prefix(max_len, 0, 0, payload.len(), payload + rest);
    lemma_feed_body(max_len, payload.len(), Seq::empty(), payload, rest);
    assert(Seq::<u8>::empty() + payload =~= payload);
}

/// Bytes may arrive in any pieces: a reader that has taken all of a first
/// piece goes on with the second as it would have gone on with the two pieces
/// in one.
pub proof fn lemma_feed_in_pieces(reader: FramedView, first: Seq<u8>, second: Seq<u8>)
    requires
        reader.feed(first).error is None,
        reader.feed(first).consumed == first.len(),
    ensures
        reader.feed(first + second).reader == reader.feed(first).reader.feed(second).reader,
        reader.feed(first + second).error == reader.feed(first).reader.feed(second).error,
        reader.feed(first + second).consumed == first.len() + reader.feed(first).reader.feed(
            second,
        ).consumed,
    decreases first.len(),
{
    if first.len() == 0 {
        assert(first + second =~= second);
    } else {
        let all = first + second;
        assert(all[0] == first[0]);
        assert(all.drop_first() =~= first.drop_first() + second);
        let next = reader.push(first[0])->Ok_0;
        lemma_feed_in_pieces(next, first.drop_first(), second);
    }
}

/// A reader stops at the end of its frame: what follows the bytes over which
/// it has completed its frame, or met an invalid byte, changes nothing.
pub proof fn lemma_feed_stops(reader: FramedView, first: Seq<u8>, second: Seq<u8>)
    requires
        reader.feed(first).error is Some || reader.feed(first).reader.is_complete(),
    ensures
        reader.feed(first + second) == reader.feed(first),
    decreases first.len(),
{
    if first.len() == 0 || reader.is_complete() {
    } else {
        let all = first + second;
        assert(all[0] == first[0]);
        assert(all.drop_first() =~= first.drop_first() + second);
        if let Ok(next) = reader.push(first[0]) {
            lemma_feed_stops(next, first.drop_first(), second);
        }
    }
}

} // verus!
