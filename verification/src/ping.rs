//! The inbound side of the ping protocol.
//!
//! A ping is a payload of [`PAYLOAD_SIZE`] bytes, which the receiver sends
//! back unchanged. The bytes of a payload may arrive in any number of pieces:
//! a [`PingPayload`] gathers them, and [`receive`] hands back each payload as
//! soon as it is whole.

use vstd::prelude::*;

verus! {

/// Number of bytes in a ping payload.
pub const PAYLOAD_SIZE: usize = 32;

/// The bytes of a payload received so far. Holds an
/// `arrayvec::ArrayVec<[u8; 32]>`, whose contents [`payload_bytes`] names.
#[verifier::external_body]
pub struct PingPayload {
    bytes: arrayvec::ArrayVec<[u8; 32]>,
}

/// The bytes that a payload buffer holds, oldest first.
pub uninterp spec fn payload_bytes(payload: PingPayload) -> Seq<u8>;

impl View for PingPayload {
    type V = Seq<u8>;

    open spec fn view(&self) -> Seq<u8> {
        payload_bytes(*self)
    }
}

/// Calls `ArrayVec::new`, which returns a vector without elements.
#[verifier::external_body]
fn payload_new() -> (payload: PingPayload)
    ensures
        payload_bytes(payload) == Seq::<u8>::empty(),
{
    PingPayload { bytes: arrayvec::ArrayVec::new() }
}

/// Calls `ArrayVec::len`, the number of elements held.
#[verifier::external_body]
fn payload_len(payload: &PingPayload) -> (len: usize)
    ensures
        len == payload_bytes(*payload).len(),
{
    payload.bytes.len()
}

/// Calls `ArrayVec::push`, which appends the element to a vector that is not
/// full, and panics on one that is.
#[verifier::external_body]
fn payload_push(payload: &mut PingPayload, byte: u8)
    requires
        payload_bytes(*old(payload)).len() < 32,
    ensures
        payload_bytes(*final(payload)) == payload_bytes(*old(payload)).push(byte),
{
    payload.bytes.push(byte)
}

/// Calls `to_vec` on the slice of the elements held, which copies them in
/// order.
#[verifier::external_body]
fn payload_to_vec(payload: &PingPayload) -> (bytes: Vec<u8>)
    ensures
        bytes@ == payload_bytes(*payload),
{
    payload.bytes.to_vec()
}

/// Calls `ArrayVec::clear`, which removes every element.
#[verifier::external_body]
fn payload_clear(payload: &mut PingPayload)
    ensures
        payload_bytes(*final(payload)) == Seq::<u8>::empty(),
{
    payload.bytes.clear()
}

/// The whole payloads found in `stream`, in order.
pub open spec fn whole_payloads(stream: Seq<u8>) -> Seq<Seq<u8>> {
    Seq::new(
        stream.len() / PAYLOAD_SIZE as nat,
        |i: int| stream.subrange(PAYLOAD_SIZE * i, PAYLOAD_SIZE * i + PAYLOAD_SIZE),
    )
}

/// What follows the last whole payload of `stream`.
pub open spec fn partial_payload(stream: Seq<u8>) -> Seq<u8> {
    stream.skip(PAYLOAD_SIZE * (stream.len() / PAYLOAD_SIZE as nat))
}

impl PingPayload {
    /// Creates an empty buffer.
    pub fn new() -> (payload: PingPayload)
        ensures
            payload@ == Seq::<u8>::empty(),
    {
        payload_new()
    }

    /// Number of bytes gathered.
    pub fn len(&self) -> (len: usize)
        ensures
            len == self@.len(),
    {
        payload_len(self)
    }
}

/// Takes the bytes `data` received on a ping substream whose buffer is
/// `payload`, and returns the payloads to send back.
///
/// With the bytes gathered before the call put in front of `data`, the result
/// holds every whole payload of that stream, in order, and the buffer is left
/// with what follows the last of them.
pub fn receive(payload: &mut PingPayload, data: &[u8]) -> (echoes: Vec<Vec<u8>>)
    requires
        old(payload)@.len() < PAYLOAD_SIZE,
    ensures
        final(payload)@.len() < PAYLOAD_SIZE,
        final(payload)@ == partial_payload(old(payload)@ + data@),
        echoes.deep_view() == whole_payloads(old(payload)@ + data@),
{
    let mut echoes: Vec<Vec<u8>> = Vec::new();
    let mut i: usize = 0;
    let ghost before = payload@;
    proof {
        assert(before + data@.take(0) =~= before);
        assert(partial_payload(before) =~= before);
        assert(echoes.deep_view() =~= whole_payloads(before));
    }
    while i < data.len()
        invariant
            i <= data@.len(),
            before.len() < PAYLOAD_SIZE,
            payload@.len() < PAYLOAD_SIZE,
            (before + data@.take(i as int)).len() == PAYLOAD_SIZE * echoes@.len() + payload@.len(),
            payload@ == partial_payload(before + data@.take(i as int)),
            echoes.deep_view() == whole_payloads(before + data@.take(i as int)),
        decreases data@.len() - i,
    {
        let ghost stream = before + data@.take(i as int);
        let ghost next = before + data@.take(i + 1);
        let ghost count = echoes@.len();
        let ghost gathered = echoes.deep_view();
        proof {
            assert(next =~= stream.push(data@[i as int]));
            assert(stream.len() / PAYLOAD_SIZE as nat == count);
        }
        payload_push(payload, data[i]);
        proof {
            assert(payload@ =~= next.skip(PAYLOAD_SIZE * count));
        }
        if payload_len(payload) == PAYLOAD_SIZE {
            let echo = payload_to_vec(payload);
            echoes.push(echo);
            payload_clear(payload);
            proof {
                assert(next.len() / PAYLOAD_SIZE as nat == count + 1);
                assert(echo@ =~= next.subrange(PAYLOAD_SIZE * count, PAYLOAD_SIZE * count + 32));
                assert(payload@ =~= partial_payload(next));
                assert(echoes.deep_view().len() == count + 1);
                assert forall|k: int| 0 <= k < count + 1 implies #[trigger] echoes.deep_view()[k]
                    == whole_payloads(next)[k] by {
                    if k < count {
                        assert(echoes.deep_view()[k] == gathered[k]);
                        assert(gathered[k] == whole_payloads(stream)[k]);
                        assert(whole_payloads(stream)[k] =~= whole_payloads(next)[k]);
                    } else {
                        assert(echoes.deep_view()[k] == echoes@[k].deep_view());
                        assert(echoes@[k].deep_view() =~= echo@);
                    }
                }
                assert(echoes.deep_view() =~= whole_payloads(next));
            }
        } else {
            proof {
                assert(next.len() / PAYLOAD_SIZE as nat == count);
                assert(payload@ =~= partial_payload(next));
                assert forall|k: int| 0 <= k < count implies #[trigger] whole_payloads(stream)[k]
                    == whole_payloads(next)[k] by {
                    assert(whole_payloads(stream)[k] =~= whole_payloads(next)[k]);
                }
                assert(whole_payloads(stream) =~= whole_payloads(next));
            }
        }
        i = i + 1;
    }
    proof {
        assert(data@.take(i as int) =~= data@);
    }
    echoes
}

/// The payloads sent back for a stream that arrives in `pieces`, one call of
/// [`receive`] each, on a buffer that holds `gathered`.
pub open spec fn echoes_in_pieces(gathered: Seq<u8>, pieces: Seq<Seq<u8>>) -> Seq<Seq<u8>>
    decreases pieces.len(),
{
    if pieces.len() == 0 {
        Seq::empty()
    } else {
        whole_payloads(gathered + pieces[0]) + echoes_in_pieces(
            partial_payload(gathered + pieces[0]),
            pieces.drop_first(),
        )
    }
}

/// What the payloads of a stream and the part that follows them amount to.
pub proof fn lemma_payloads_of_stream(stream: Seq<u8>)
    ensures
        partial_payload(stream).len() == stream.len() % PAYLOAD_SIZE as nat,
        partial_payload(stream).len() < PAYLOAD_SIZE,
        whole_payloads(stream).len() == stream.len() / PAYLOAD_SIZE as nat,
        forall|i: int|
            0 <= i < whole_payloads(stream).len() ==> (#[trigger] whole_payloads(stream)[i])
                == stream.subrange(PAYLOAD_SIZE * i, PAYLOAD_SIZE * i + PAYLOAD_SIZE),
{
}

/// The payloads of a stream that goes on are those that it had, then those of
/// what was left over with what came after.
pub proof fn lemma_payloads_of_longer_stream(stream: Seq<u8>, more: Seq<u8>)
    ensures
        whole_payloads(stream + more) == whole_payloads(stream) + whole_payloads(
            partial_payload(stream) + more,
        ),
        partial_payload(stream + more) == partial_payload(partial_payload(stream) + more),
{
    let done = stream.len() / PAYLOAD_SIZE as nat;
    let left = partial_payload(stream);
    let tail = left + more;
    let all = stream + more;
    assert(all.len() / PAYLOAD_SIZE as nat == done + tail.len() / PAYLOAD_SIZE as nat);
    let joined = whole_payloads(stream) + whole_payloads(tail);
    assert(joined.len() == whole_payloads(all).len());
    assert forall|i: int| 0 <= i < joined.len() implies joined[i] == whole_payloads(all)[i] by {
        if i < done {
            assert(joined[i] == whole_payloads(stream)[i]);
            assert(whole_payloads(stream)[i] =~= whole_payloads(all)[i]);
        } else {
            assert(joined[i] == whole_payloads(tail)[i - done]);
            assert(whole_payloads(tail)[i - done] =~= whole_payloads(all)[i]);
        }
    }
    assert(joined =~= whole_payloads(all));
    assert(partial_payload(all) =~= partial_payload(tail));
}

/// However a stream is cut into pieces, the payloads sent back are the whole
/// payloads of the stream in order: with `gathered` empty and pieces that
/// total a multiple of the payload size, all of the stream.
pub proof fn lemma_echo_in_pieces(gathered: Seq<u8>, pieces: Seq<Seq<u8>>)
    requires
        gathered.len() < PAYLOAD_SIZE,
    ensures
        echoes_in_pieces(gathered, pieces) == whole_payloads(gathered + pieces.flatten()),
    decreases pieces.len(),
{
    if pieces.len() == 0 {
        assert(pieces.flatten() =~= Seq::<u8>::empty());
        assert(gathered + pieces.flatten() =~= gathered);
        assert(whole_payloads(gathered) =~= Seq::<Seq<u8>>::empty());
    } else {
        let first = pieces[0];
        let others = pieces.drop_first();
        let left = partial_payload(gathered + first);
        lemma_payloads_of_stream(gathered + first);
        lemma_echo_in_pieces(left, others);
        lemma_payloads_of_longer_stream(gathered + first, others.flatten());
        assert(pieces.flatten() =~= first + others.flatten());
        assert(gathered + pieces.flatten() =~= (gathered + first) + others.flatten());
    }
}

/// The payloads sent back, put end to end, are the stream that was received
/// up to its last whole payload.
pub proof fn lemma_echo_is_stream(stream: Seq<u8>)
    ensures
        whole_payloads(stream).flatten() + partial_payload(stream) == stream,
    decreases stream.len(),
{
    if stream.len() < PAYLOAD_SIZE {
        assert(whole_payloads(stream) =~= Seq::<Seq<u8>>::empty());
        assert(whole_payloads(stream).flatten() =~= Seq::<u8>::empty());
        assert(partial_payload(stream) =~= stream);
    } else {
        let first = stream.take(PAYLOAD_SIZE as int);
        let later = stream.skip(PAYLOAD_SIZE as int);
        lemma_echo_is_stream(later);
        assert(first + later =~= stream);
        assert(partial_payload(first) =~= Seq::<u8>::empty());
        assert(partial_payload(first) + later =~= later);
        lemma_payloads_of_longer_stream(first, later);
        assert(first.len() == PAYLOAD_SIZE);
        assert(whole_payloads(first).len() == 1);
        assert(whole_payloads(first)[0] =~= first);
        assert(whole_payloads(first) =~= seq![first]);
        assert(whole_payloads(stream) =~= seq![first] + whole_payloads(later));
        assert(whole_payloads(stream).drop_first() =~= whole_payloads(later));
        assert(whole_payloads(stream).flatten() =~= first + whole_payloads(later).flatten());
        assert(partial_payload(stream) == partial_payload(later));
        assert(whole_payloads(stream).flatten() + partial_payload(stream) =~= first + (
        whole_payloads(later).flatten() + partial_payload(later)));
    }
}

} // verus!
