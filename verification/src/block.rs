//! Block, header and digest types exchanged in the legacy wire messages, with
//! their SCALE encoding.

use vstd::prelude::*;
use vstd::bytes::{
    lemma_auto_spec_u32_to_from_le_bytes,
    spec_u32_from_le_bytes,
    spec_u32_to_le_bytes,
    u32_from_le_bytes,
    u32_to_le_bytes,
};
use primitive_types::H256;
use crate::bytes::append_bytes;
use crate::codec::{
    byte_vec_bytes,
    byte_vec_parse,
    compact_u32_bytes,
    compact_u32_parse,
    compact_u32_reads_back,
    compact_u64_bytes,
    compact_u64_parse,
    compact_u64_reads_back,
    decode_byte_vec,
    decode_compact_u32,
    decode_compact_u64,
    decode_hash,
    encode_byte_vec,
    encode_compact_u32,
    encode_compact_u64,
    encode_hash,
    hash_bytes,
    lemma_byte_vec_reads_back,
};

verus! {

/// Opaque blob holding an extrinsic, without committing to its format.
#[derive(Debug, PartialEq, Eq, Clone, Default)]
pub struct Extrinsic(pub Vec<u8>);

/// Hash of a block.
#[derive(Debug, Clone, PartialEq, Eq)]
pub struct BlockHash(pub [u8; 32]);

/// Header of a block for a substrate chain.
#[derive(Debug, PartialEq, Eq, Clone)]
pub struct Header {
    /// The parent hash.
    pub parent_hash: H256,
    /// The block number.
    pub number: u64,
    /// The state trie merkle root
    pub state_root: H256,
    /// The merkle root of the extrinsics.
    pub extrinsics_root: H256,
    /// A chain-specific digest of data useful for light clients or
    /// referencing auxiliary data.
    pub digest: Digest<H256>,
}

/// Generic header digest.
#[derive(Debug, PartialEq, Eq, Clone)]
pub struct Digest<Hash> {
    /// A list of logs in the digest.
    pub logs: Vec<DigestItem<Hash>>,
}

/// Substrate changes trie configuration.
#[derive(Debug, Clone, Copy, PartialEq, Eq, Default)]
pub struct ChangesTrieConfiguration {
    /// Interval (in blocks) at which level1-digests are created. Digests are not
    /// created when this is less or equal to 1.
    pub digest_interval: u32,
    /// Maximal number of digest levels in hierarchy. 0 means that digests are not
    /// created at all (even level1 digests). 1 means only level1-digests are created.
    /// 2 means that every digest_interval^2 there will be a level2-digest, and so on.
    pub digest_levels: u32,
}

/// Available changes trie signals.
#[derive(Debug, PartialEq, Eq, Clone)]
pub enum ChangesTrieSignal {
    /// New changes trie configuration is enacted, starting from **next block**.
    NewConfiguration(Option<ChangesTrieConfiguration>),
}

/// Digest item that is able to encode/decode 'system' digest items and
/// provide opaque access to other items.
#[derive(Debug, PartialEq, Eq, Clone)]
pub enum DigestItem<Hash> {
    /// System digest item that contains the root of changes trie at given
    /// block.
    ChangesTrieRoot(Hash),
    /// A pre-runtime digest: a message from the consensus engine to the runtime.
    PreRuntime([u8; 4], Vec<u8>),
    /// A message from the runtime to the consensus engine.
    Consensus([u8; 4], Vec<u8>),
    /// A seal. Only used by native code, and never seen by runtimes.
    Seal([u8; 4], Vec<u8>),
    /// Digest item that contains signal from changes tries manager to the
    /// native code.
    ChangesTrieSignal(ChangesTrieSignal),
    /// Some other thing. Unsupported and experimental.
    Other(Vec<u8>),
}

/// A 'referencing view' for digest item. Does not own its contents.
#[derive(Debug, PartialEq, Eq, Clone)]
pub enum DigestItemRef<'a, Hash: 'a> {
    /// Reference to `DigestItem::ChangesTrieRoot`.
    ChangesTrieRoot(&'a Hash),
    /// A pre-runtime digest.
    PreRuntime(&'a [u8; 4], &'a Vec<u8>),
    /// A message from the runtime to the consensus engine.
    Consensus(&'a [u8; 4], &'a Vec<u8>),
    /// A seal.
    Seal(&'a [u8; 4], &'a Vec<u8>),
    /// Digest item that contains signal from changes tries manager to the
    /// native code.
    ChangesTrieSignal(&'a ChangesTrieSignal),
    /// Any 'non-system' digest item, opaque to the native code.
    Other(&'a Vec<u8>),
}

/// Type of the digest item: what the first byte of its encoding tells.
#[derive(Debug, Clone, Copy, PartialEq, Eq, Structural)]
pub enum DigestItemType {
    /// Tag of [`DigestItem::Other`].
    Other,
    /// Tag of [`DigestItem::ChangesTrieRoot`].
    ChangesTrieRoot,
    /// Tag of [`DigestItem::Consensus`].
    Consensus,
    /// Tag of [`DigestItem::Seal`].
    Seal,
    /// Tag of [`DigestItem::PreRuntime`].
    PreRuntime,
    /// Tag of [`DigestItem::ChangesTrieSignal`].
    ChangesTrieSignal,
}

/// Abstraction over a substrate block.
#[derive(Debug, PartialEq, Eq, Clone)]
pub struct Block {
    /// The block header.
    pub header: Header,
    /// The accompanying extrinsics.
    pub extrinsics: Vec<Extrinsic>,
}

/// A proof that some set of key-value pairs are included in the storage trie.
/// The proof contains the storage values so that the partial storage backend
/// can be reconstructed by a verifier that does not already have access to the
/// key-value pairs.
#[derive(Debug, PartialEq, Eq, Clone)]
pub struct StorageProof {
    trie_nodes: Vec<Vec<u8>>,
}

/// Reason for which bytes are refused: they do not start with the encoding
/// of a value of the type asked for.
#[derive(Debug, Clone, Copy, PartialEq, Eq)]
pub struct DecodeError;

/// Mathematical model of a [`DigestItem`] or of a [`DigestItemRef`] on hashes.
pub enum DigestItemView {
    /// Model of [`DigestItem::ChangesTrieRoot`], with the bytes of the hash.
    ChangesTrieRoot(Seq<u8>),
    /// Model of [`DigestItem::PreRuntime`].
    PreRuntime(Seq<u8>, Seq<u8>),
    /// Model of [`DigestItem::Consensus`].
    Consensus(Seq<u8>, Seq<u8>),
    /// Model of [`DigestItem::Seal`].
    Seal(Seq<u8>, Seq<u8>),
    /// Model of [`DigestItem::ChangesTrieSignal`].
    ChangesTrieSignal(ChangesTrieSignal),
    /// Model of [`DigestItem::Other`].
    Other(Seq<u8>),
}

/// Mathematical model of a [`Header`].
pub struct HeaderView {
    /// The bytes of the parent hash.
    pub parent_hash: Seq<u8>,
    /// The block number.
    pub number: u64,
    /// The bytes of the state trie merkle root.
    pub state_root: Seq<u8>,
    /// The bytes of the merkle root of the extrinsics.
    pub extrinsics_root: Seq<u8>,
    /// The logs of the digest.
    pub digest: Seq<DigestItemView>,
}

impl View for DigestItem<H256> {
    type V = DigestItemView;

    open spec fn view(&self) -> DigestItemView {
        match self {
            DigestItem::ChangesTrieRoot(hash) => DigestItemView::ChangesTrieRoot(hash_bytes(*hash)),
            DigestItem::PreRuntime(engine, data) => DigestItemView::PreRuntime(engine@, data@),
            DigestItem::Consensus(engine, data) => DigestItemView::Consensus(engine@, data@),
            DigestItem::Seal(engine, data) => DigestItemView::Seal(engine@, data@),
            DigestItem::ChangesTrieSignal(signal) => DigestItemView::ChangesTrieSignal(*signal),
            DigestItem::Other(data) => DigestItemView::Other(data@),
        }
    }
}

impl<'a> View for DigestItemRef<'a, H256> {
    type V = DigestItemView;

    open spec fn view(&self) -> DigestItemView {
        self.referent()@
    }
}

/// The models of a list of digest items.
pub open spec fn items_view(items: Seq<DigestItem<H256>>) -> Seq<DigestItemView> {
    Seq::new(items.len(), |i: int| items[i]@)
}

impl View for Header {
    type V = HeaderView;

    open spec fn view(&self) -> HeaderView {
        HeaderView {
            parent_hash: hash_bytes(self.parent_hash),
            number: self.number,
            state_root: hash_bytes(self.state_root),
            extrinsics_root: hash_bytes(self.extrinsics_root),
            digest: items_view(self.digest.logs@),
        }
    }
}

impl DigestItemType {
    /// The byte that stands for the type in an encoding.
    pub open spec fn tag_of(self) -> u8 {
        match self {
            DigestItemType::Other => 0,
            DigestItemType::ChangesTrieRoot => 2,
            DigestItemType::Consensus => 4,
            DigestItemType::Seal => 5,
            DigestItemType::PreRuntime => 6,
            DigestItemType::ChangesTrieSignal => 7,
        }
    }

    /// The type that the byte `tag` stands for.
    pub open spec fn of_tag(tag: u8) -> Option<DigestItemType> {
        if tag == 0 {
            Some(DigestItemType::Other)
        } else if tag == 2 {
            Some(DigestItemType::ChangesTrieRoot)
        } else if tag == 4 {
            Some(DigestItemType::Consensus)
        } else if tag == 5 {
            Some(DigestItemType::Seal)
        } else if tag == 6 {
            Some(DigestItemType::PreRuntime)
        } else if tag == 7 {
            Some(DigestItemType::ChangesTrieSignal)
        } else {
            None
        }
    }

    /// Returns the byte that stands for the type in an encoding.
    pub fn tag(&self) -> (tag: u8)
        ensures
            tag == self.tag_of(),
            Self::of_tag(tag) == Some(*self),
    {
        match self {
            DigestItemType::Other => 0,
            DigestItemType::ChangesTrieRoot => 2,
            DigestItemType::Consensus => 4,
            DigestItemType::Seal => 5,
            DigestItemType::PreRuntime => 6,
            DigestItemType::ChangesTrieSignal => 7,
        }
    }

    /// Returns the type that the byte `tag` stands for, if it stands for
    /// one.
    pub fn from_tag(tag: u8) -> (kind: Option<DigestItemType>)
        ensures
            kind == Self::of_tag(tag),
    {
        if tag == 0 {
            Some(DigestItemType::Other)
        } else if tag == 2 {
            Some(DigestItemType::ChangesTrieRoot)
        } else if tag == 4 {
            Some(DigestItemType::Consensus)
        } else if tag == 5 {
            Some(DigestItemType::Seal)
        } else if tag == 6 {
            Some(DigestItemType::PreRuntime)
        } else if tag == 7 {
            Some(DigestItemType::ChangesTrieSignal)
        } else {
            None
        }
    }
}

impl DigestItemView {
    /// The type of the item.
    pub open spec fn kind(self) -> DigestItemType {
        match self {
            DigestItemView::ChangesTrieRoot(_) => DigestItemType::ChangesTrieRoot,
            DigestItemView::PreRuntime(_, _) => DigestItemType::PreRuntime,
            DigestItemView::Consensus(_, _) => DigestItemType::Consensus,
            DigestItemView::Seal(_, _) => DigestItemType::Seal,
            DigestItemView::ChangesTrieSignal(_) => DigestItemType::ChangesTrieSignal,
            DigestItemView::Other(_) => DigestItemType::Other,
        }
    }

    /// The invariant of an item: a hash has 32 bytes, and an engine
    /// identifier has 4.
    pub open spec fn wf(self) -> bool {
        match self {
            DigestItemView::ChangesTrieRoot(hash) => hash.len() == 32,
            DigestItemView::PreRuntime(engine, _) => engine.len() == 4,
            DigestItemView::Consensus(engine, _) => engine.len() == 4,
            DigestItemView::Seal(engine, _) => engine.len() == 4,
            _ => true,
        }
    }

    /// Whether the item can be encoded: the length of its data fits 32 bits.
    pub open spec fn encodable(self) -> bool {
        match self {
            DigestItemView::PreRuntime(_, data) => data.len() <= u32::MAX,
            DigestItemView::Consensus(_, data) => data.len() <= u32::MAX,
            DigestItemView::Seal(_, data) => data.len() <= u32::MAX,
            DigestItemView::Other(data) => data.len() <= u32::MAX,
            _ => true,
        }
    }
}

/// The encoding of a changes trie configuration: its two fields, four bytes
/// each, least significant first.
pub open spec fn configuration_bytes(configuration: ChangesTrieConfiguration) -> Seq<u8> {
    spec_u32_to_le_bytes(configuration.digest_interval) + spec_u32_to_le_bytes(
        configuration.digest_levels,
    )
}

/// The encoding of a changes trie signal: the number of its variant, then
/// whether there is a configuration, then the configuration.
pub open spec fn signal_bytes(signal: ChangesTrieSignal) -> Seq<u8> {
    match signal {
        ChangesTrieSignal::NewConfiguration(None) => seq![0u8, 0u8],
        ChangesTrieSignal::NewConfiguration(Some(configuration)) => seq![0u8, 1u8]
            + configuration_bytes(configuration),
    }
}

/// The encoding of a digest item: the tag of its type, then its contents.
pub open spec fn item_bytes(item: DigestItemView) -> Seq<u8> {
    seq![item.kind().tag_of()] + match item {
        DigestItemView::ChangesTrieRoot(hash) => hash,
        DigestItemView::PreRuntime(engine, data) => engine + byte_vec_bytes(data),
        DigestItemView::Consensus(engine, data) => engine + byte_vec_bytes(data),
        DigestItemView::Seal(engine, data) => engine + byte_vec_bytes(data),
        DigestItemView::ChangesTrieSignal(signal) => signal_bytes(signal),
        DigestItemView::Other(data) => byte_vec_bytes(data),
    }
}

/// The encodings of digest items, one after the other.
pub open spec fn items_bytes(items: Seq<DigestItemView>) -> Seq<u8>
    decreases items.len(),
{
    if items.len() == 0 {
        Seq::empty()
    } else {
        items_bytes(items.drop_last()) + item_bytes(items.last())
    }
}

/// The encoding of a digest: the number of its logs in compact form, then
/// the logs.
pub open spec fn digest_bytes(logs: Seq<DigestItemView>) -> Seq<u8> {
    compact_u32_bytes(logs.len() as u32) + items_bytes(logs)
}

/// The encoding of a header: the parent hash, the number in compact form,
/// the two roots and the digest.
pub open spec fn header_bytes(header: HeaderView) -> Seq<u8> {
    header.parent_hash + compact_u64_bytes(header.number) + header.state_root
        + header.extrinsics_root + digest_bytes(header.digest)
}

impl HeaderView {
    /// The invariant of a header: each hash has 32 bytes, and each log meets
    /// its own invariant.
    pub open spec fn wf(self) -> bool {
        &&& self.parent_hash.len() == 32
        &&& self.state_root.len() == 32
        &&& self.extrinsics_root.len() == 32
        &&& forall|i: int| 0 <= i < self.digest.len() ==> (#[trigger] self.digest[i]).wf()
    }

    /// Whether the header can be encoded: the number of its logs fits 32
    /// bits, and each log can be encoded.
    pub open spec fn encodable(self) -> bool {
        &&& self.digest.len() <= u32::MAX
        &&& forall|i: int| 0 <= i < self.digest.len() ==> (#[trigger] self.digest[i]).encodable()
    }
}

/// The changes trie configuration that `input` starts with, and what
/// follows it.
pub open spec fn parse_configuration(input: Seq<u8>) -> Option<(ChangesTrieConfiguration, Seq<u8>)> {
    if input.len() < 8 {
        None
    } else {
        Some(
            (
                ChangesTrieConfiguration {
                    digest_interval: spec_u32_from_le_bytes(input.subrange(0, 4)),
                    digest_levels: spec_u32_from_le_bytes(input.subrange(4, 8)),
                },
                input.skip(8),
            ),
        )
    }
}

/// The changes trie signal that `input` starts with, and what follows it.
pub open spec fn parse_signal(input: Seq<u8>) -> Option<(ChangesTrieSignal, Seq<u8>)> {
    if input.len() < 2 || input[0] != 0 {
        None
    } else if input[1] == 0 {
        Some((ChangesTrieSignal::NewConfiguration(None), input.skip(2)))
    } else if input[1] == 1 {
        match parse_configuration(input.skip(2)) {
            Some((configuration, rest)) => Some(
                (ChangesTrieSignal::NewConfiguration(Some(configuration)), rest),
            ),
            None => None,
        }
    } else {
        None
    }
}

/// The engine identifier and the data that `input` starts with, and what
/// follows them.
pub open spec fn parse_engine_data(input: Seq<u8>) -> Option<(Seq<u8>, Seq<u8>, Seq<u8>)> {
    if input.len() < 4 {
        None
    } else {
        match byte_vec_parse(input.skip(4)) {
            Some((data, rest)) => Some((input.take(4), data, rest)),
            None => None,
        }
    }
}

/// The hash that `input` starts with, and what follows it.
pub open spec fn parse_hash(input: Seq<u8>) -> Option<(Seq<u8>, Seq<u8>)> {
    if input.len() < 32 {
        None
    } else {
        Some((input.take(32), input.skip(32)))
    }
}

/// The digest item that `input` starts with, and what follows it.
pub open spec fn parse_item(input: Seq<u8>) -> Option<(DigestItemView, Seq<u8>)> {
    if input.len() == 0 {
        None
    } else {
        let body = input.skip(1);
        match DigestItemType::of_tag(input[0]) {
            None => None,
            Some(DigestItemType::ChangesTrieRoot) => match parse_hash(body) {
                Some((hash, rest)) => Some((DigestItemView::ChangesTrieRoot(hash), rest)),
                None => None,
            },
            Some(DigestItemType::PreRuntime) => match parse_engine_data(body) {
                Some((engine, data, rest)) => Some((DigestItemView::PreRuntime(engine, data), rest)),
                None => None,
            },
            Some(DigestItemType::Consensus) => match parse_engine_data(body) {
                Some((engine, data, rest)) => Some((DigestItemView::Consensus(engine, data), rest)),
                None => None,
            },
            Some(DigestItemType::Seal) => match parse_engine_data(body) {
                Some((engine, data, rest)) => Some((DigestItemView::Seal(engine, data), rest)),
                None => None,
            },
            Some(DigestItemType::ChangesTrieSignal) => match parse_signal(body) {
                Some((signal, rest)) => Some((DigestItemView::ChangesTrieSignal(signal), rest)),
                None => None,
            },
            Some(DigestItemType::Other) => match byte_vec_parse(body) {
                Some((data, rest)) => Some((DigestItemView::Other(data), rest)),
                None => None,
            },
        }
    }
}

/// The items `parsed`, followed by those of `rest`.
pub open spec fn items_then(
    parsed: Seq<DigestItemView>,
    rest: Option<(Seq<DigestItemView>, Seq<u8>)>,
) -> Option<(Seq<DigestItemView>, Seq<u8>)> {
    match rest {
        Some((items, left)) => Some((parsed + items, left)),
        None => None,
    }
}

/// The `count` digest items that `input` starts with, and what follows
/// them.
pub open spec fn parse_items(input: Seq<u8>, count: nat) -> Option<(Seq<DigestItemView>, Seq<u8>)>
    decreases count,
{
    if count == 0 {
        Some((Seq::empty(), input))
    } else {
        match parse_item(input) {
            Some((item, rest)) => items_then(seq![item], parse_items(rest, (count - 1) as nat)),
            None => None,
        }
    }
}

/// The logs of the digest that `input` starts with, and what follows it.
pub open spec fn parse_digest(input: Seq<u8>) -> Option<(Seq<DigestItemView>, Seq<u8>)> {
    match compact_u32_parse(input) {
        Some((count, rest)) => parse_items(rest, count as nat),
        None => None,
    }
}

/// The header that `input` starts with, and what follows it.
pub open spec fn parse_header(input: Seq<u8>) -> Option<(HeaderView, Seq<u8>)> {
    match parse_hash(input) {
        None => None,
        Some((parent_hash, after_parent)) => match compact_u64_parse(after_parent) {
            None => None,
            Some((number, after_number)) => match parse_hash(after_number) {
                None => None,
                Some((state_root, after_state)) => match parse_hash(after_state) {
                    None => None,
                    Some((extrinsics_root, after_extrinsics)) => match parse_digest(
                        after_extrinsics,
                    ) {
                        None => None,
                        Some((digest, rest)) => Some(
                            (
                                HeaderView {
                                    parent_hash,
                                    number,
                                    state_root,
                                    extrinsics_root,
                                    digest,
                                },
                                rest,
                            ),
                        ),
                    },
                },
            },
        },
    }
}

/// The encodings of vectors of bytes, one after the other.
pub open spec fn blobs_bytes(blobs: Seq<Seq<u8>>) -> Seq<u8>
    decreases blobs.len(),
{
    if blobs.len() == 0 {
        Seq::empty()
    } else {
        blobs_bytes(blobs.drop_last()) + byte_vec_bytes(blobs.last())
    }
}

/// The encoding of a list of vectors of bytes: their number in compact form,
/// then the vectors.
pub open spec fn blob_list_bytes(blobs: Seq<Seq<u8>>) -> Seq<u8> {
    compact_u32_bytes(blobs.len() as u32) + blobs_bytes(blobs)
}

/// Whether a list of vectors of bytes can be encoded: their number and the
/// length of each fit 32 bits.
pub open spec fn blobs_encodable(blobs: Seq<Seq<u8>>) -> bool {
    &&& blobs.len() <= u32::MAX
    &&& forall|i: int| 0 <= i < blobs.len() ==> (#[trigger] blobs[i]).len() <= u32::MAX
}

/// The vectors `parsed`, followed by those of `rest`.
pub open spec fn blobs_then(parsed: Seq<Seq<u8>>, rest: Option<(Seq<Seq<u8>>, Seq<u8>)>) -> Option<
    (Seq<Seq<u8>>, Seq<u8>),
> {
    match rest {
        Some((blobs, left)) => Some((parsed + blobs, left)),
        None => None,
    }
}

/// The `count` vectors of bytes that `input` starts with, and what follows
/// them.
pub open spec fn parse_blobs(input: Seq<u8>, count: nat) -> Option<(Seq<Seq<u8>>, Seq<u8>)>
    decreases count,
{
    if count == 0 {
        Some((Seq::empty(), input))
    } else {
        match byte_vec_parse(input) {
            Some((blob, rest)) => blobs_then(seq![blob], parse_blobs(rest, (count - 1) as nat)),
            None => None,
        }
    }
}

/// The list of vectors of bytes that `input` starts with, and what follows
/// it.
pub open spec fn parse_blob_list(input: Seq<u8>) -> Option<(Seq<Seq<u8>>, Seq<u8>)> {
    match compact_u32_parse(input) {
        Some((count, rest)) => parse_blobs(rest, count as nat),
        None => None,
    }
}

/// The contents of a list of vectors of bytes.
pub open spec fn blobs_view(blobs: Seq<Vec<u8>>) -> Seq<Seq<u8>> {
    Seq::new(blobs.len(), |i: int| blobs[i]@)
}

/// The contents of a list of extrinsics.
pub open spec fn extrinsics_view(extrinsics: Seq<Extrinsic>) -> Seq<Seq<u8>> {
    Seq::new(extrinsics.len(), |i: int| extrinsics[i].0@)
}

/// The encoding of a block: its header, then its extrinsics.
pub open spec fn block_bytes(header: HeaderView, extrinsics: Seq<Seq<u8>>) -> Seq<u8> {
    header_bytes(header) + blob_list_bytes(extrinsics)
}

/// The header and the extrinsics of the block that `input` starts with, and
/// what follows it.
pub open spec fn parse_block(input: Seq<u8>) -> Option<(HeaderView, Seq<Seq<u8>>, Seq<u8>)> {
    match parse_header(input) {
        Some((header, after_header)) => match parse_blob_list(after_header) {
            Some((extrinsics, rest)) => Some((header, extrinsics, rest)),
            None => None,
        },
        None => None,
    }
}

/// The BLAKE2b hash of `data`, 32 bytes long and without key.
pub uninterp spec fn blake2b_256(data: Seq<u8>) -> Seq<u8>;

/// Calls `blake2_rfc::blake2b::blake2b` on `data`, without key and for a
/// result of 32 bytes, and returns the bytes of that result.
#[verifier::external_body]
fn hash_blake2b_256(data: &[u8]) -> (out: [u8; 32])
    ensures
        out@ == blake2b_256(data@),
{
    let result = blake2_rfc::blake2b::blake2b(32, &[], data);
    let mut out = [0; 32];
    out.copy_from_slice(result.as_bytes());
    out
}

impl<'a, Hash> DigestItemRef<'a, Hash> {
    /// The digest item that this view refers to.
    pub open spec fn referent(self) -> DigestItem<Hash> {
        match self {
            DigestItemRef::ChangesTrieRoot(v) => DigestItem::ChangesTrieRoot(*v),
            DigestItemRef::PreRuntime(v, s) => DigestItem::PreRuntime(*v, *s),
            DigestItemRef::Consensus(v, s) => DigestItem::Consensus(*v, *s),
            DigestItemRef::Seal(v, s) => DigestItem::Seal(*v, *s),
            DigestItemRef::ChangesTrieSignal(s) => DigestItem::ChangesTrieSignal(*s),
            DigestItemRef::Other(v) => DigestItem::Other(*v),
        }
    }
}

impl<Hash> DigestItem<Hash> {
    /// Returns a 'referencing view' for this digest item.
    pub fn dref<'a>(&'a self) -> (r: DigestItemRef<'a, Hash>)
        ensures
            r.referent() == *self,
    {
        match self {
            DigestItem::ChangesTrieRoot(v) => DigestItemRef::ChangesTrieRoot(v),
            DigestItem::PreRuntime(v, s) => DigestItemRef::PreRuntime(v, s),
            DigestItem::Consensus(v, s) => DigestItemRef::Consensus(v, s),
            DigestItem::Seal(v, s) => DigestItemRef::Seal(v, s),
            DigestItem::ChangesTrieSignal(s) => DigestItemRef::ChangesTrieSignal(s),
            DigestItem::Other(v) => DigestItemRef::Other(v),
        }
    }
}

impl ChangesTrieConfiguration {
    /// Appends the encoding of the configuration to `out`.
    fn encode_to(&self, out: &mut Vec<u8>)
        ensures
            final(out)@ == old(out)@ + configuration_bytes(*self),
    {
        let interval = u32_to_le_bytes(self.digest_interval);
        let levels = u32_to_le_bytes(self.digest_levels);
        append_bytes(out, interval.as_slice());
        append_bytes(out, levels.as_slice());
        assert(out@ =~= old(out)@ + configuration_bytes(*self));
    }

    /// Reads the configuration that `input` starts with.
    fn decode_from<'a>(input: &'a [u8]) -> (r: Option<(ChangesTrieConfiguration, &'a [u8])>)
        ensures
            match r {
                Some((configuration, rest)) => parse_configuration(input@) == Some(
                    (configuration, rest@),
                ),
                None => parse_configuration(input@) is None,
            },
    {
        if input.len() < 8 {
            return None;
        }
        let interval = vstd::slice::slice_subrange(input, 0, 4);
        let levels = vstd::slice::slice_subrange(input, 4, 8);
        let rest = vstd::slice::slice_subrange(input, 8, input.len());
        assert(rest@ =~= input@.skip(8));
        Some(
            (
                ChangesTrieConfiguration {
                    digest_interval: u32_from_le_bytes(interval),
                    digest_levels: u32_from_le_bytes(levels),
                },
                rest,
            ),
        )
    }
}

impl ChangesTrieConfiguration {
    /// Returns the encoding of the configuration: its two fields, four
    /// bytes each, least significant first.
    pub fn encode(&self) -> (out: Vec<u8>)
        ensures
            out@ == configuration_bytes(*self),
    {
        let mut out: Vec<u8> = Vec::new();
        self.encode_to(&mut out);
        assert(out@ =~= configuration_bytes(*self));
        out
    }

    /// Decodes the configuration that `input` starts with, and returns it
    /// with what follows it in `input`.
    pub fn decode<'a>(input: &'a [u8]) -> (r: Result<
        (ChangesTrieConfiguration, &'a [u8]),
        DecodeError,
    >)
        ensures
            match r {
                Ok((configuration, rest)) => parse_configuration(input@) == Some(
                    (configuration, rest@),
                ),
                Err(_) => parse_configuration(input@) is None,
            },
    {
        match Self::decode_from(input) {
            Some(decoded) => Ok(decoded),
            None => Err(DecodeError),
        }
    }
}

impl ChangesTrieSignal {
    /// Returns the encoding of the signal: the number of its variant, then
    /// whether there is a configuration, then the configuration.
    pub fn encode(&self) -> (out: Vec<u8>)
        ensures
            out@ == signal_bytes(*self),
    {
        let mut out: Vec<u8> = Vec::new();
        self.encode_to(&mut out);
        assert(out@ =~= signal_bytes(*self));
        out
    }

    /// Decodes the signal that `input` starts with, and returns it with what
    /// follows it in `input`.
    pub fn decode<'a>(input: &'a [u8]) -> (r: Result<(ChangesTrieSignal, &'a [u8]), DecodeError>)
        ensures
            match r {
                Ok((signal, rest)) => parse_signal(input@) == Some((signal, rest@)),
                Err(_) => parse_signal(input@) is None,
            },
    {
        match Self::decode_from(input) {
            Some(decoded) => Ok(decoded),
            None => Err(DecodeError),
        }
    }

    /// Appends the encoding of the signal to `out`.
    fn encode_to(&self, out: &mut Vec<u8>)
        ensures
            final(out)@ == old(out)@ + signal_bytes(*self),
    {
        out.push(0u8);
        match self {
            ChangesTrieSignal::NewConfiguration(None) => {
                out.push(0u8);
                assert(out@ =~= old(out)@ + signal_bytes(*self));
            },
            ChangesTrieSignal::NewConfiguration(Some(configuration)) => {
                out.push(1u8);
                configuration.encode_to(out);
                assert(out@ =~= old(out)@ + signal_bytes(*self));
            },
        }
    }

    /// Reads the signal that `input` starts with.
    fn decode_from<'a>(input: &'a [u8]) -> (r: Option<(ChangesTrieSignal, &'a [u8])>)
        ensures
            match r {
                Some((signal, rest)) => parse_signal(input@) == Some((signal, rest@)),
                None => parse_signal(input@) is None,
            },
    {
        if input.len() < 2 || input[0] != 0 {
            return None;
        }
        let body = vstd::slice::slice_subrange(input, 2, input.len());
        assert(body@ =~= input@.skip(2));
        if input[1] == 0 {
            Some((ChangesTrieSignal::NewConfiguration(None), body))
        } else if input[1] == 1 {
            match ChangesTrieConfiguration::decode_from(body) {
                Some((configuration, rest)) => Some(
                    (ChangesTrieSignal::NewConfiguration(Some(configuration)), rest),
                ),
                None => None,
            }
        } else {
            None
        }
    }
}

/// Appends to `out` the engine identifier `engine` and the encoding of
/// `data`.
fn encode_engine_data(engine: &[u8; 4], data: &Vec<u8>, out: &mut Vec<u8>)
    requires
        data@.len() <= u32::MAX,
    ensures
        final(out)@ == old(out)@ + (engine@ + byte_vec_bytes(data@)),
{
    append_bytes(out, engine.as_slice());
    let encoded = encode_byte_vec(data);
    append_bytes(out, encoded.as_slice());
    assert(out@ =~= old(out)@ + (engine@ + byte_vec_bytes(data@)));
}

/// Reads the engine identifier and the data that `input` starts with.
fn decode_engine_data<'a>(input: &'a [u8]) -> (r: Option<([u8; 4], Vec<u8>, &'a [u8])>)
    ensures
        match r {
            Some((engine, data, rest)) => parse_engine_data(input@) == Some(
                (engine@, data@, rest@),
            ),
            None => parse_engine_data(input@) is None,
        },
{
    if input.len() < 4 {
        return None;
    }
    let engine: [u8; 4] = [input[0], input[1], input[2], input[3]];
    assert(engine@ =~= input@.take(4));
    let body = vstd::slice::slice_subrange(input, 4, input.len());
    assert(body@ =~= input@.skip(4));
    let (data, rest) = decode_byte_vec(body);
    match data {
        Some(data) => Some((engine, data, rest)),
        None => None,
    }
}

impl<'a> DigestItemRef<'a, H256> {
    /// Appends the encoding of the item to `out`.
    fn encode_to(&self, out: &mut Vec<u8>)
        requires
            self@.encodable(),
        ensures
            final(out)@ == old(out)@ + item_bytes(self@),
    {
        match self {
            DigestItemRef::ChangesTrieRoot(changes_trie_root) => {
                out.push(DigestItemType::ChangesTrieRoot.tag());
                let hash = encode_hash(changes_trie_root);
                append_bytes(out, hash.as_slice());
            },
            DigestItemRef::Consensus(val, data) => {
                out.push(DigestItemType::Consensus.tag());
                encode_engine_data(val, data, out);
            },
            DigestItemRef::Seal(val, sig) => {
                out.push(DigestItemType::Seal.tag());
                encode_engine_data(val, sig, out);
            },
            DigestItemRef::PreRuntime(val, data) => {
                out.push(DigestItemType::PreRuntime.tag());
                encode_engine_data(val, data, out);
            },
            DigestItemRef::ChangesTrieSignal(changes_trie_signal) => {
                out.push(DigestItemType::ChangesTrieSignal.tag());
                changes_trie_signal.encode_to(out);
            },
            DigestItemRef::Other(val) => {
                out.push(DigestItemType::Other.tag());
                let encoded = encode_byte_vec(val);
                append_bytes(out, encoded.as_slice());
            },
        }
        assert(out@ =~= old(out)@ + item_bytes(self@));
    }

    /// Returns the encoding of the item: the tag of its type, then its
    /// contents.
    pub fn encode(&self) -> (out: Vec<u8>)
        requires
            self@.encodable(),
        ensures
            out@ == item_bytes(self@),
    {
        let mut out: Vec<u8> = Vec::new();
        self.encode_to(&mut out);
        assert(out@ =~= item_bytes(self@));
        out
    }
}

impl DigestItem<H256> {
    /// Returns the encoding of the item: the tag of its type, then its
    /// contents.
    pub fn encode(&self) -> (out: Vec<u8>)
        requires
            self@.encodable(),
        ensures
            out@ == item_bytes(self@),
    {
        self.dref().encode()
    }

    /// Reads the item that `input` starts with.
    fn decode_from<'a>(input: &'a [u8]) -> (r: Option<(DigestItem<H256>, &'a [u8])>)
        ensures
            match r {
                Some((item, rest)) => parse_item(input@) == Some((item@, rest@)),
                None => parse_item(input@) is None,
            },
    {
        if input.len() == 0 {
            return None;
        }
        let item_type = match DigestItemType::from_tag(input[0]) {
            Some(item_type) => item_type,
            None => {
                return None;
            },
        };
        let body = vstd::slice::slice_subrange(input, 1, input.len());
        assert(body@ =~= input@.skip(1));
        match item_type {
            DigestItemType::ChangesTrieRoot => {
                let (hash, rest) = decode_hash(body);
                match hash {
                    Some(hash) => Some((DigestItem::ChangesTrieRoot(hash), rest)),
                    None => None,
                }
            },
            DigestItemType::PreRuntime => match decode_engine_data(body) {
                Some((engine, data, rest)) => Some((DigestItem::PreRuntime(engine, data), rest)),
                None => None,
            },
            DigestItemType::Consensus => match decode_engine_data(body) {
                Some((engine, data, rest)) => Some((DigestItem::Consensus(engine, data), rest)),
                None => None,
            },
            DigestItemType::Seal => match decode_engine_data(body) {
                Some((engine, data, rest)) => Some((DigestItem::Seal(engine, data), rest)),
                None => None,
            },
            DigestItemType::ChangesTrieSignal => match ChangesTrieSignal::decode_from(body) {
                Some((signal, rest)) => Some((DigestItem::ChangesTrieSignal(signal), rest)),
                None => None,
            },
            DigestItemType::Other => {
                let (data, rest) = decode_byte_vec(body);
                match data {
                    Some(data) => Some((DigestItem::Other(data), rest)),
                    None => None,
                }
            },
        }
    }

    /// Decodes the item that `input` starts with, and returns it with what
    /// follows it in `input`.
    pub fn decode<'a>(input: &'a [u8]) -> (r: Result<(DigestItem<H256>, &'a [u8]), DecodeError>)
        ensures
            match r {
                Ok((item, rest)) => parse_item(input@) == Some((item@, rest@)),
                Err(_) => parse_item(input@) is None,
            },
    {
        match Self::decode_from(input) {
            Some(decoded) => Ok(decoded),
            None => Err(DecodeError),
        }
    }
}

impl Digest<H256> {
    /// Appends the encoding of the digest to `out`.
    fn encode_to(&self, out: &mut Vec<u8>)
        requires
            self.logs@.len() <= u32::MAX,
            forall|i: int| 0 <= i < self.logs@.len() ==> (#[trigger] self.logs@[i])@.encodable(),
        ensures
            final(out)@ == old(out)@ + digest_bytes(items_view(self.logs@)),
    {
        let count = encode_compact_u32(self.logs.len() as u32);
        append_bytes(out, count.as_slice());
        let ghost logs = items_view(self.logs@);
        let ghost start = out@;
        let mut i: usize = 0;
        proof {
            assert(logs.take(0) =~= Seq::empty());
            assert(start + items_bytes(logs.take(0)) =~= start);
        }
        while i < self.logs.len()
            invariant
                i <= self.logs@.len(),
                logs == items_view(self.logs@),
                forall|k: int| 0 <= k < self.logs@.len() ==> (#[trigger] self.logs@[k])@.encodable(),
                out@ == start + items_bytes(logs.take(i as int)),
            decreases self.logs@.len() - i,
        {
            proof {
                let next = logs.take(i + 1);
                assert(next.drop_last() =~= logs.take(i as int));
                assert(next.last() == self.logs@[i as int]@);
            }
            self.logs[i].dref().encode_to(out);
            i = i + 1;
            proof {
                assert(out@ =~= start + items_bytes(logs.take(i as int)));
            }
        }
        proof {
            assert(logs.take(i as int) =~= logs);
            assert(out@ =~= old(out)@ + digest_bytes(logs));
        }
    }

    /// Reads the digest that `input` starts with.
    fn decode_from<'a>(input: &'a [u8]) -> (r: Option<(Digest<H256>, &'a [u8])>)
        ensures
            match r {
                Some((digest, rest)) => parse_digest(input@) == Some(
                    (items_view(digest.logs@), rest@),
                ),
                None => parse_digest(input@) is None,
            },
    {
        let (count, body) = decode_compact_u32(input);
        let count = match count {
            Some(count) => count,
            None => {
                return None;
            },
        };
        let mut logs: Vec<DigestItem<H256>> = Vec::new();
        let mut rest = body;
        let mut i: u32 = 0;
        let ghost goal = parse_items(body@, count as nat);
        proof {
            assert(items_view(logs@) =~= Seq::empty());
            if let Some((items, left)) = goal {
                assert(items_view(logs@) + items =~= items);
            }
        }
        while i < count
            invariant
                i <= count,
                goal == parse_digest(input@),
                goal == items_then(items_view(logs@), parse_items(rest@, (count - i) as nat)),
            decreases count - i,
        {
            let ghost parsed = items_view(logs@);
            let ghost before = rest@;
            match DigestItem::decode_from(rest) {
                Some((item, left)) => {
                    logs.push(item);
                    rest = left;
                    i = i + 1;
                    proof {
                        assert(items_view(logs@) =~= parsed + seq![item@]);
                        if let Some((items, end)) = parse_items(left@, (count - i) as nat) {
                            assert(parsed + (seq![item@] + items) =~= items_view(logs@) + items);
                        }
                    }
                },
                None => {
                    return None;
                },
            }
        }
        proof {
            assert(items_view(logs@) + Seq::<DigestItemView>::empty() =~= items_view(logs@));
        }
        Some((Digest { logs }, rest))
    }
}

impl Header {
    /// Returns the encoding of the header: the parent hash, the number in
    /// compact form, the two roots and the digest.
    pub fn encode(&self) -> (out: Vec<u8>)
        requires
            self@.encodable(),
        ensures
            out@ == header_bytes(self@),
    {
        let mut out: Vec<u8> = Vec::new();
        let parent_hash = encode_hash(&self.parent_hash);
        append_bytes(&mut out, parent_hash.as_slice());
        let number = encode_compact_u64(self.number);
        append_bytes(&mut out, number.as_slice());
        let state_root = encode_hash(&self.state_root);
        append_bytes(&mut out, state_root.as_slice());
        let extrinsics_root = encode_hash(&self.extrinsics_root);
        append_bytes(&mut out, extrinsics_root.as_slice());
        proof {
            assert forall|i: int| 0 <= i < self.digest.logs@.len() implies (
            #[trigger] self.digest.logs@[i])@.encodable() by {
                assert(self@.digest[i] == self.digest.logs@[i]@);
            }
        }
        self.digest.encode_to(&mut out);
        assert(out@ =~= header_bytes(self@));
        out
    }

    /// Decodes the header that `input` starts with, and returns it with
    /// what follows it in `input`.
    pub fn decode<'a>(input: &'a [u8]) -> (r: Result<(Header, &'a [u8]), DecodeError>)
        ensures
            match r {
                Ok((header, rest)) => parse_header(input@) == Some((header@, rest@)),
                Err(_) => parse_header(input@) is None,
            },
    {
        let (parent_hash, input) = decode_hash(input);
        let parent_hash = match parent_hash {
            Some(hash) => hash,
            None => {
                return Err(DecodeError);
            },
        };
        let (number, input) = decode_compact_u64(input);
        let number = match number {
            Some(number) => number,
            None => {
                return Err(DecodeError);
            },
        };
        let (state_root, input) = decode_hash(input);
        let state_root = match state_root {
            Some(hash) => hash,
            None => {
                return Err(DecodeError);
            },
        };
        let (extrinsics_root, input) = decode_hash(input);
        let extrinsics_root = match extrinsics_root {
            Some(hash) => hash,
            None => {
                return Err(DecodeError);
            },
        };
        match Digest::decode_from(input) {
            Some((digest, rest)) => Ok(
                (Header { parent_hash, number, state_root, extrinsics_root, digest }, rest),
            ),
            None => Err(DecodeError),
        }
    }

    /// Returns the hash of the header, and thus also of the block: the
    /// BLAKE2b hash of its encoding.
    pub fn block_hash(&self) -> (hash: BlockHash)
        requires
            self@.encodable(),
        ensures
            hash.0@ == blake2b_256(header_bytes(self@)),
    {
        let encoded = self.encode();
        BlockHash(hash_blake2b_256(encoded.as_slice()))
    }
}

impl Extrinsic {
    /// Returns the encoding of the extrinsic: that of a vector of bytes.
    pub fn encode(&self) -> (out: Vec<u8>)
        requires
            self.0@.len() <= u32::MAX,
        ensures
            out@ == byte_vec_bytes(self.0@),
    {
        encode_byte_vec(&self.0)
    }

    /// Decodes the extrinsic that `input` starts with, and returns it with
    /// what follows it in `input`.
    pub fn decode<'a>(input: &'a [u8]) -> (r: Result<(Extrinsic, &'a [u8]), DecodeError>)
        ensures
            match r {
                Ok((extrinsic, rest)) => byte_vec_parse(input@) == Some((extrinsic.0@, rest@)),
                Err(_) => byte_vec_parse(input@) is None,
            },
    {
        let (data, rest) = decode_byte_vec(input);
        match data {
            Some(data) => Ok((Extrinsic(data), rest)),
            None => Err(DecodeError),
        }
    }
}

/// Reads the `count` vectors of bytes that `input` starts with.
fn decode_blobs<'a>(input: &'a [u8], count: u32) -> (r: Option<(Vec<Vec<u8>>, &'a [u8])>)
    ensures
        match r {
            Some((blobs, rest)) => parse_blobs(input@, count as nat) == Some(
                (blobs_view(blobs@), rest@),
            ),
            None => parse_blobs(input@, count as nat) is None,
        },
{
    let mut blobs: Vec<Vec<u8>> = Vec::new();
    let mut rest = input;
    let mut i: u32 = 0;
    let ghost goal = parse_blobs(input@, count as nat);
    proof {
        assert(blobs_view(blobs@) =~= Seq::empty());
        if let Some((all, left)) = goal {
            assert(blobs_view(blobs@) + all =~= all);
        }
    }
    while i < count
        invariant
            i <= count,
            goal == parse_blobs(input@, count as nat),
            goal == blobs_then(blobs_view(blobs@), parse_blobs(rest@, (count - i) as nat)),
        decreases count - i,
    {
        let ghost parsed = blobs_view(blobs@);
        let (blob, left) = decode_byte_vec(rest);
        match blob {
            Some(blob) => {
                blobs.push(blob);
                rest = left;
                i = i + 1;
                proof {
                    assert(blobs_view(blobs@) =~= parsed + seq![blob@]);
                    if let Some((others, end)) = parse_blobs(left@, (count - i) as nat) {
                        assert(parsed + (seq![blob@] + others) =~= blobs_view(blobs@) + others);
                    }
                }
            },
            None => {
                return None;
            },
        }
    }
    proof {
        assert(blobs_view(blobs@) + Seq::<Seq<u8>>::empty() =~= blobs_view(blobs@));
    }
    Some((blobs, rest))
}

impl StorageProof {
    /// The serialized nodes of the storage trie that the proof holds.
    pub closed spec fn nodes(&self) -> Seq<Seq<u8>> {
        blobs_view(self.trie_nodes@)
    }

    /// Creates a proof that holds the serialized nodes `trie_nodes`.
    pub fn new(trie_nodes: Vec<Vec<u8>>) -> (proof_: StorageProof)
        ensures
            proof_.nodes() == blobs_view(trie_nodes@),
    {
        StorageProof { trie_nodes }
    }

    /// Returns the serialized nodes that the proof holds.
    pub fn into_nodes(self) -> (trie_nodes: Vec<Vec<u8>>)
        ensures
            blobs_view(trie_nodes@) == self.nodes(),
    {
        self.trie_nodes
    }

    /// Returns the encoding of the proof: the number of its nodes in compact
    /// form, then the nodes as vectors of bytes.
    pub fn encode(&self) -> (out: Vec<u8>)
        requires
            blobs_encodable(self.nodes()),
        ensures
            out@ == blob_list_bytes(self.nodes()),
    {
        let mut out = encode_compact_u32(self.trie_nodes.len() as u32);
        let ghost nodes = blobs_view(self.trie_nodes@);
        let ghost start = out@;
        let mut i: usize = 0;
        proof {
            assert(nodes.take(0) =~= Seq::empty());
            assert(start + blobs_bytes(nodes.take(0)) =~= start);
        }
        while i < self.trie_nodes.len()
            invariant
                i <= self.trie_nodes@.len(),
                nodes == blobs_view(self.trie_nodes@),
                blobs_encodable(nodes),
                out@ == start + blobs_bytes(nodes.take(i as int)),
            decreases self.trie_nodes@.len() - i,
        {
            proof {
                let next = nodes.take(i + 1);
                assert(next.drop_last() =~= nodes.take(i as int));
                assert(next.last() == nodes[i as int]);
                assert(nodes[i as int] == self.trie_nodes@[i as int]@);
            }
            let encoded = encode_byte_vec(&self.trie_nodes[i]);
            append_bytes(&mut out, encoded.as_slice());
            i = i + 1;
            proof {
                assert(out@ =~= start + blobs_bytes(nodes.take(i as int)));
            }
        }
        proof {
            assert(nodes.take(i as int) =~= nodes);
        }
        out
    }

    /// Decodes the proof that `input` starts with, and returns it with what
    /// follows it in `input`.
    pub fn decode<'a>(input: &'a [u8]) -> (r: Result<(StorageProof, &'a [u8]), DecodeError>)
        ensures
            match r {
                Ok((proof_, rest)) => parse_blob_list(input@) == Some((proof_.nodes(), rest@)),
                Err(_) => parse_blob_list(input@) is None,
            },
    {
        let (count, body) = decode_compact_u32(input);
        let count = match count {
            Some(count) => count,
            None => {
                return Err(DecodeError);
            },
        };
        match decode_blobs(body, count) {
            Some((trie_nodes, rest)) => Ok((StorageProof { trie_nodes }, rest)),
            None => Err(DecodeError),
        }
    }
}

impl Block {
    /// Returns the encoding of the block: its header, then the number of
    /// its extrinsics in compact form and the extrinsics.
    pub fn encode(&self) -> (out: Vec<u8>)
        requires
            self.header@.encodable(),
            blobs_encodable(extrinsics_view(self.extrinsics@)),
        ensures
            out@ == block_bytes(self.header@, extrinsics_view(self.extrinsics@)),
    {
        let mut out = self.header.encode();
        let count = encode_compact_u32(self.extrinsics.len() as u32);
        append_bytes(&mut out, count.as_slice());
        let ghost extrinsics = extrinsics_view(self.extrinsics@);
        let ghost start = out@;
        let mut i: usize = 0;
        proof {
            assert(extrinsics.take(0) =~= Seq::empty());
            assert(start + blobs_bytes(extrinsics.take(0)) =~= start);
        }
        while i < self.extrinsics.len()
            invariant
                i <= self.extrinsics@.len(),
                extrinsics == extrinsics_view(self.extrinsics@),
                blobs_encodable(extrinsics),
                out@ == start + blobs_bytes(extrinsics.take(i as int)),
            decreases self.extrinsics@.len() - i,
        {
            proof {
                let next = extrinsics.take(i + 1);
                assert(next.drop_last() =~= extrinsics.take(i as int));
                assert(next.last() == extrinsics[i as int]);
                assert(extrinsics[i as int] == self.extrinsics@[i as int].0@);
            }
            let encoded = encode_byte_vec(&self.extrinsics[i].0);
            append_bytes(&mut out, encoded.as_slice());
            i = i + 1;
            proof {
                assert(out@ =~= start + blobs_bytes(extrinsics.take(i as int)));
            }
        }
        proof {
            assert(extrinsics.take(i as int) =~= extrinsics);
            assert(out@ =~= block_bytes(self.header@, extrinsics));
        }
        out
    }

    /// Decodes the block that `input` starts with, and returns it with what
    /// follows it in `input`.
    pub fn decode<'a>(input: &'a [u8]) -> (r: Result<(Block, &'a [u8]), DecodeError>)
        ensures
            match r {
                Ok((block, rest)) => parse_block(input@) == Some(
                    (block.header@, extrinsics_view(block.extrinsics@), rest@),
                ),
                Err(_) => parse_block(input@) is None,
            },
    {
        let (header, input) = match Header::decode(input) {
            Ok(decoded) => decoded,
            Err(e) => {
                return Err(e);
            },
        };
        let (count, body) = decode_compact_u32(input);
        let count = match count {
            Some(count) => count,
            None => {
                return Err(DecodeError);
            },
        };
        let (mut blobs, rest) = match decode_blobs(body, count) {
            Some(decoded) => decoded,
            None => {
                return Err(DecodeError);
            },
        };
        let ghost contents = blobs_view(blobs@);
        let mut extrinsics: Vec<Extrinsic> = Vec::new();
        let mut i: usize = 0;
        while i < blobs.len()
            invariant
                i <= blobs@.len(),
                blobs@.len() == contents.len(),
                extrinsics@.len() == i,
                forall|j: int| i <= j < contents.len() ==> blobs@[j]@ == contents[j],
                forall|j: int| 0 <= j < i ==> extrinsics@[j].0@ == contents[j],
            decreases blobs@.len() - i,
        {
            let mut blob: Vec<u8> = Vec::new();
            core::mem::swap(&mut blobs[i], &mut blob);
            extrinsics.push(Extrinsic(blob));
            i = i + 1;
        }
        proof {
            assert(extrinsics_view(extrinsics@) =~= contents);
        }
        Ok((Block { header, extrinsics }, rest))
    }

    /// Returns the hash of the block: that of its header.
    pub fn block_hash(&self) -> (hash: BlockHash)
        requires
            self.header@.encodable(),
        ensures
            hash.0@ == blake2b_256(header_bytes(self.header@)),
    {
        self.header.block_hash()
    }
}


/// The encoding of a changes trie configuration reads back: whatever
/// follows it, it is parsed as that configuration, and what follows is left.
pub proof fn lemma_configuration_reads_back(configuration: ChangesTrieConfiguration, rest: Seq<u8>)
    ensures
        parse_configuration(configuration_bytes(configuration) + rest) == Some(
            (configuration, rest),
        ),
{
    lemma_auto_spec_u32_to_from_le_bytes();
    let interval = spec_u32_to_le_bytes(configuration.digest_interval);
    let levels = spec_u32_to_le_bytes(configuration.digest_levels);
    let input = configuration_bytes(configuration) + rest;
    assert(input.subrange(0, 4) =~= interval);
    assert(input.subrange(4, 8) =~= levels);
    assert(input.skip(8) =~= rest);
}

/// The encoding of a changes trie signal reads back.
pub proof fn lemma_signal_reads_back(signal: ChangesTrieSignal, rest: Seq<u8>)
    ensures
        parse_signal(signal_bytes(signal) + rest) == Some((signal, rest)),
{
    let input = signal_bytes(signal) + rest;
    match signal {
        ChangesTrieSignal::NewConfiguration(None) => {
            assert(input.skip(2) =~= rest);
        },
        ChangesTrieSignal::NewConfiguration(Some(configuration)) => {
            lemma_configuration_reads_back(configuration, rest);
            assert(input.skip(2) =~= configuration_bytes(configuration) + rest);
        },
    }
}

/// Where the compact encoding reads back, so does the encoding of a digest
/// item.
pub proof fn lemma_item_reads_back(item: DigestItemView, rest: Seq<u8>)
    requires
        compact_u32_reads_back(),
        item.wf(),
        item.encodable(),
    ensures
        parse_item(item_bytes(item) + rest) == Some((item, rest)),
{
    let input = item_bytes(item) + rest;
    let body = input.skip(1);
    assert(input[0] == item.kind().tag_of());
    match item {
        DigestItemView::ChangesTrieRoot(hash) => {
            assert(body =~= hash + rest);
            assert(body.take(32) =~= hash);
            assert(body.skip(32) =~= rest);
        },
        DigestItemView::PreRuntime(engine, data) => {
            lemma_byte_vec_reads_back(data, rest);
            assert(body =~= engine + (byte_vec_bytes(data) + rest));
            assert(body.take(4) =~= engine);
            assert(body.skip(4) =~= byte_vec_bytes(data) + rest);
        },
        DigestItemView::Consensus(engine, data) => {
            lemma_byte_vec_reads_back(data, rest);
            assert(body =~= engine + (byte_vec_bytes(data) + rest));
            assert(body.take(4) =~= engine);
            assert(body.skip(4) =~= byte_vec_bytes(data) + rest);
        },
        DigestItemView::Seal(engine, data) => {
            lemma_byte_vec_reads_back(data, rest);
            assert(body =~= engine + (byte_vec_bytes(data) + rest));
            assert(body.take(4) =~= engine);
            assert(body.skip(4) =~= byte_vec_bytes(data) + rest);
        },
        DigestItemView::ChangesTrieSignal(signal) => {
            lemma_signal_reads_back(signal, rest);
            assert(body =~= signal_bytes(signal) + rest);
        },
        DigestItemView::Other(data) => {
            lemma_byte_vec_reads_back(data, rest);
            assert(body =~= byte_vec_bytes(data) + rest);
        },
    }
}

/// The encodings of digest items start with that of the first.
proof fn lemma_items_bytes_from_first(items: Seq<DigestItemView>)
    requires
        items.len() > 0,
    ensures
        items_bytes(items) == item_bytes(items.first()) + items_bytes(items.drop_first()),
    decreases items.len(),
{
    if items.len() == 1 {
        assert(items.drop_last() =~= Seq::<DigestItemView>::empty());
        assert(items.drop_first() =~= Seq::<DigestItemView>::empty());
        assert(items_bytes(items) =~= item_bytes(items.first()) + items_bytes(
            items.drop_first(),
        ));
    } else {
        lemma_items_bytes_from_first(items.drop_last());
        assert(items.drop_last().drop_first() =~= items.drop_first().drop_last());
        assert(items.drop_last().first() == items.first());
        assert(items.drop_first().last() == items.last());
        assert(items_bytes(items) =~= item_bytes(items.first()) + items_bytes(
            items.drop_first(),
        ));
    }
}

/// Where the compact encoding reads back, so do the encodings of digest
/// items, one after the other.
pub proof fn lemma_items_read_back(items: Seq<DigestItemView>, rest: Seq<u8>)
    requires
        compact_u32_reads_back(),
        forall|i: int| 0 <= i < items.len() ==> (#[trigger] items[i]).wf() && items[i].encodable(),
    ensures
        parse_items(items_bytes(items) + rest, items.len()) == Some((items, rest)),
    decreases items.len(),
{
    if items.len() == 0 {
        assert(items_bytes(items) + rest =~= rest);
        assert(items =~= Seq::<DigestItemView>::empty());
    } else {
        let first = items.first();
        let others = items.drop_first();
        lemma_items_bytes_from_first(items);
        assert(items_bytes(items) + rest =~= item_bytes(first) + (items_bytes(others) + rest));
        lemma_item_reads_back(first, items_bytes(others) + rest);
        assert forall|i: int| 0 <= i < others.len() implies (#[trigger] others[i]).wf()
            && others[i].encodable() by {
            assert(others[i] == items[i + 1]);
        }
        lemma_items_read_back(others, rest);
        assert(seq![first] + others =~= items);
    }
}

/// Where the compact encoding reads back, so does the encoding of a header:
/// whatever follows it, it is parsed as that header, and what follows is
/// left.
pub proof fn lemma_header_reads_back(header: HeaderView, rest: Seq<u8>)
    requires
        compact_u32_reads_back(),
        compact_u64_reads_back(),
        header.wf(),
        header.encodable(),
    ensures
        parse_header(header_bytes(header) + rest) == Some((header, rest)),
{
    let input = header_bytes(header) + rest;
    let digest = digest_bytes(header.digest) + rest;
    let after_extrinsics = digest;
    let after_state = header.extrinsics_root + after_extrinsics;
    let after_number = header.state_root + after_state;
    let after_parent = compact_u64_bytes(header.number) + after_number;
    assert(input =~= header.parent_hash + after_parent);
    assert(input.take(32) =~= header.parent_hash);
    assert(input.skip(32) =~= after_parent);
    assert(compact_u64_parse(compact_u64_bytes(header.number) + after_number) == Some(
        (header.number, after_number),
    ));
    assert(after_number.take(32) =~= header.state_root);
    assert(after_number.skip(32) =~= after_state);
    assert(after_state.take(32) =~= header.extrinsics_root);
    assert(after_state.skip(32) =~= after_extrinsics);
    let count = header.digest.len() as u32;
    assert(digest =~= compact_u32_bytes(count) + (items_bytes(header.digest) + rest));
    assert(compact_u32_parse(compact_u32_bytes(count) + (items_bytes(header.digest) + rest))
        == Some((count, items_bytes(header.digest) + rest)));
    lemma_items_read_back(header.digest, rest);
}


/// The encodings of vectors of bytes start with that of the first.
proof fn lemma_blobs_bytes_from_first(blobs: Seq<Seq<u8>>)
    requires
        blobs.len() > 0,
    ensures
        blobs_bytes(blobs) == byte_vec_bytes(blobs.first()) + blobs_bytes(blobs.drop_first()),
    decreases blobs.len(),
{
    if blobs.len() == 1 {
        assert(blobs.drop_last() =~= Seq::<Seq<u8>>::empty());
        assert(blobs.drop_first() =~= Seq::<Seq<u8>>::empty());
        assert(blobs_bytes(blobs) =~= byte_vec_bytes(blobs.first()) + blobs_bytes(
            blobs.drop_first(),
        ));
    } else {
        lemma_blobs_bytes_from_first(blobs.drop_last());
        assert(blobs.drop_last().drop_first() =~= blobs.drop_first().drop_last());
        assert(blobs.drop_last().first() == blobs.first());
        assert(blobs.drop_first().last() == blobs.last());
        assert(blobs_bytes(blobs) =~= byte_vec_bytes(blobs.first()) + blobs_bytes(
            blobs.drop_first(),
        ));
    }
}

/// Where the compact encoding reads back, so do the encodings of vectors of
/// bytes, one after the other.
proof fn lemma_blobs_read_back(blobs: Seq<Seq<u8>>, rest: Seq<u8>)
    requires
        compact_u32_reads_back(),
        forall|i: int| 0 <= i < blobs.len() ==> (#[trigger] blobs[i]).len() <= u32::MAX,
    ensures
        parse_blobs(blobs_bytes(blobs) + rest, blobs.len()) == Some((blobs, rest)),
    decreases blobs.len(),
{
    if blobs.len() == 0 {
        assert(blobs_bytes(blobs) + rest =~= rest);
        assert(blobs =~= Seq::<Seq<u8>>::empty());
    } else {
        let first = blobs.first();
        let others = blobs.drop_first();
        lemma_blobs_bytes_from_first(blobs);
        assert(blobs_bytes(blobs) + rest =~= byte_vec_bytes(first) + (blobs_bytes(others)
            + rest));
        lemma_byte_vec_reads_back(first, blobs_bytes(others) + rest);
        assert forall|i: int| 0 <= i < others.len() implies (#[trigger] others[i]).len()
            <= u32::MAX by {
            assert(others[i] == blobs[i + 1]);
        }
        lemma_blobs_read_back(others, rest);
        assert(seq![first] + others =~= blobs);
    }
}

/// Where the compact encoding reads back, so does the encoding of a list of
/// vectors of bytes, which is that of a storage proof and of the extrinsics
/// of a block.
pub proof fn lemma_blob_list_reads_back(blobs: Seq<Seq<u8>>, rest: Seq<u8>)
    requires
        compact_u32_reads_back(),
        blobs_encodable(blobs),
    ensures
        parse_blob_list(blob_list_bytes(blobs) + rest) == Some((blobs, rest)),
{
    let count = blobs.len() as u32;
    assert(blob_list_bytes(blobs) + rest =~= compact_u32_bytes(count) + (blobs_bytes(blobs)
        + rest));
    assert(compact_u32_parse(compact_u32_bytes(count) + (blobs_bytes(blobs) + rest)) == Some(
        (count, blobs_bytes(blobs) + rest),
    ));
    lemma_blobs_read_back(blobs, rest);
}

/// Where the compact encoding reads back, so does the encoding of a block.
pub proof fn lemma_block_reads_back(header: HeaderView, extrinsics: Seq<Seq<u8>>, rest: Seq<u8>)
    requires
        compact_u32_reads_back(),
        compact_u64_reads_back(),
        header.wf(),
        header.encodable(),
        blobs_encodable(extrinsics),
    ensures
        parse_block(block_bytes(header, extrinsics) + rest) == Some((header, extrinsics, rest)),
{
    assert(block_bytes(header, extrinsics) + rest =~= header_bytes(header) + (blob_list_bytes(
        extrinsics,
    ) + rest));
    lemma_header_reads_back(header, blob_list_bytes(extrinsics) + rest);
    lemma_blob_list_reads_back(extrinsics, rest);
}

} // verus!
