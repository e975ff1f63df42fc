//! Building blocks of a light client for Substrate-based chains.
//!
//! - [`established`] holds the state machine of a fully established libp2p
//!   connection: its substreams, their timeouts, and what follows from what
//!   the multiplexer of the connection decodes. The cipher and the multiplexer
//!   themselves belong to the host.
//! - [`substream`] holds the state machine of one substream, [`ping`] the
//!   inbound side of the ping protocol, [`multistream_select`] the negotiation
//!   of protocols and [`leb128`] the framing that they all share.
//! - [`buffers`] keeps the count of what a read-write call has read and
//!   written.
//! - [`block`] holds the block types of the legacy wire messages, and
//!   [`codec`] the pieces of the SCALE encoding that they are made of.
//!
//! Times are numbers of milliseconds on a clock of the host's choosing.

pub mod block;
pub mod buffers;
mod bytes;
pub mod codec;
pub mod established;
pub mod leb128;
pub mod multistream_select;
pub mod ping;
pub mod substream;
