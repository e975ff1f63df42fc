use parity_scale_codec::{Compact, Encode};
use primitive_types::H256;
use substrate_lite::block::{
    Block, BlockHash, ChangesTrieConfiguration, ChangesTrieSignal, DecodeError, Digest,
    DigestItem, DigestItemRef, DigestItemType, Extrinsic, Header, StorageProof,
};

fn header(number: u64, logs: Vec<DigestItem<H256>>) -> Header {
    Header {
        parent_hash: H256::repeat_byte(0x11),
        number,
        state_root: H256::repeat_byte(0x22),
        extrinsics_root: H256::repeat_byte(0x33),
        digest: Digest { logs },
    }
}

fn all_kinds() -> Vec<DigestItem<H256>> {
    vec![
        DigestItem::ChangesTrieRoot(H256::repeat_byte(0x44)),
        DigestItem::PreRuntime(*b"BABE", vec![1, 2, 3]),
        DigestItem::Consensus(*b"FRNK", vec![]),
        DigestItem::Seal(*b"BABE", vec![0xff; 70]),
        DigestItem::ChangesTrieSignal(ChangesTrieSignal::NewConfiguration(None)),
        DigestItem::ChangesTrieSignal(ChangesTrieSignal::NewConfiguration(Some(
            ChangesTrieConfiguration { digest_interval: 4, digest_levels: 0x0102_0304 },
        ))),
        DigestItem::Other(vec![9]),
    ]
}

#[test]
fn dref_refers_to_the_same_contents() {
    let hash = H256::repeat_byte(0x44);
    assert_eq!(
        DigestItem::ChangesTrieRoot(hash).dref(),
        DigestItemRef::ChangesTrieRoot(&hash)
    );
    let data = vec![1u8, 2, 3];
    let engine = *b"BABE";
    assert_eq!(
        DigestItem::<H256>::PreRuntime(engine, data.clone()).dref(),
        DigestItemRef::PreRuntime(&engine, &data)
    );
    assert_eq!(
        DigestItem::<H256>::Consensus(engine, data.clone()).dref(),
        DigestItemRef::Consensus(&engine, &data)
    );
    assert_eq!(
        DigestItem::<H256>::Seal(engine, data.clone()).dref(),
        DigestItemRef::Seal(&engine, &data)
    );
    let signal = ChangesTrieSignal::NewConfiguration(None);
    assert_eq!(
        DigestItem::<H256>::ChangesTrieSignal(signal.clone()).dref(),
        DigestItemRef::ChangesTrieSignal(&signal)
    );
    assert_eq!(DigestItem::<H256>::Other(data.clone()).dref(), DigestItemRef::Other(&data));
}

#[test]
fn dref_works_for_any_type_of_hash() {
    let item: DigestItem<u8> = DigestItem::ChangesTrieRoot(5);
    assert_eq!(item.dref(), DigestItemRef::ChangesTrieRoot(&5));
}

#[test]
fn digest_item_types_have_their_tags() {
    assert_eq!(DigestItemType::Other.tag(), 0);
    assert_eq!(DigestItemType::ChangesTrieRoot.tag(), 2);
    assert_eq!(DigestItemType::Consensus.tag(), 4);
    assert_eq!(DigestItemType::Seal.tag(), 5);
    assert_eq!(DigestItemType::PreRuntime.tag(), 6);
    assert_eq!(DigestItemType::ChangesTrieSignal.tag(), 7);
    for tag in 0..=255u8 {
        match DigestItemType::from_tag(tag) {
            Some(kind) => assert_eq!(kind.tag(), tag),
            None => assert!(![0, 2, 4, 5, 6, 7].contains(&tag)),
        }
    }
}

#[test]
fn digest_items_encode_as_tag_and_contents() {
    assert_eq!(
        DigestItem::<H256>::PreRuntime(*b"BABE", vec![1, 2, 3]).encode(),
        vec![6, b'B', b'A', b'B', b'E', 12, 1, 2, 3]
    );
    assert_eq!(
        DigestItem::<H256>::Consensus(*b"FRNK", vec![]).encode(),
        vec![4, b'F', b'R', b'N', b'K', 0]
    );
    assert_eq!(
        DigestItem::<H256>::Seal(*b"BABE", vec![7]).encode(),
        vec![5, b'B', b'A', b'B', b'E', 4, 7]
    );
    assert_eq!(DigestItem::<H256>::Other(vec![9]).encode(), vec![0, 4, 9]);
    let mut root = vec![2];
    root.extend_from_slice(&[0x44; 32]);
    assert_eq!(DigestItem::ChangesTrieRoot(H256::repeat_byte(0x44)).encode(), root);
    assert_eq!(
        DigestItem::<H256>::ChangesTrieSignal(ChangesTrieSignal::NewConfiguration(None)).encode(),
        vec![7, 0, 0]
    );
    assert_eq!(
        DigestItem::<H256>::ChangesTrieSignal(ChangesTrieSignal::NewConfiguration(Some(
            ChangesTrieConfiguration { digest_interval: 4, digest_levels: 0x0102_0304 }
        )))
        .encode(),
        vec![7, 0, 1, 4, 0, 0, 0, 4, 3, 2, 1]
    );
}

#[test]
fn digest_item_data_is_encoded_as_the_codec_encodes_it() {
    let data = vec![0x5a; 300];
    let engine = *b"BABE";
    let mut expected = vec![6];
    expected.extend((engine, data.clone()).encode());
    assert_eq!(DigestItem::<H256>::PreRuntime(engine, data.clone()).encode(), expected);
    assert_eq!(DigestItemRef::<H256>::PreRuntime(&engine, &data).encode(), expected);
    assert_eq!(expected[5..7], [0xb1, 0x04]);
}

#[test]
fn digest_items_decode_to_what_was_encoded() {
    for item in all_kinds() {
        let mut encoded = item.encode();
        encoded.extend_from_slice(&[0xaa, 0xbb]);
        let (decoded, rest) = DigestItem::decode(&encoded).unwrap();
        assert_eq!(decoded, item);
        assert_eq!(rest, &[0xaa, 0xbb]);
    }
}

#[test]
fn digest_item_with_an_unknown_tag_is_refused() {
    for tag in [1u8, 3, 8, 255] {
        assert_eq!(DigestItem::decode(&[tag, 0, 0, 0, 0, 0, 0, 0, 0, 0]), Err(DecodeError));
    }
}

#[test]
fn truncated_digest_item_is_refused() {
    assert_eq!(DigestItem::decode(&[]), Err(DecodeError));
    for item in all_kinds() {
        let encoded = item.encode();
        for len in 0..encoded.len() {
            assert_eq!(DigestItem::decode(&encoded[..len]), Err(DecodeError));
        }
    }
}

#[test]
fn changes_trie_signal_with_an_unknown_variant_is_refused() {
    assert_eq!(DigestItem::decode(&[7, 1, 0]), Err(DecodeError));
    assert_eq!(DigestItem::decode(&[7, 0, 2]), Err(DecodeError));
}

#[test]
fn header_encodes_its_fields_in_order() {
    let mut expected = vec![0x11; 32];
    expected.push(0x04);
    expected.extend_from_slice(&[0x22; 32]);
    expected.extend_from_slice(&[0x33; 32]);
    expected.push(0x00);
    assert_eq!(header(1, vec![]).encode(), expected);
}

#[test]
fn header_number_is_encoded_in_compact_form() {
    for (number, compact) in [
        (0u64, vec![0x00]),
        (63, vec![0xfc]),
        (64, vec![0x01, 0x01]),
        (16383, vec![0xfd, 0xff]),
        (16384, vec![0x02, 0x00, 0x01, 0x00]),
        (1 << 30, vec![0x03, 0x00, 0x00, 0x00, 0x40]),
        (u64::MAX, vec![0x13, 0xff, 0xff, 0xff, 0xff, 0xff, 0xff, 0xff, 0xff]),
    ] {
        let encoded = header(number, vec![]).encode();
        assert_eq!(encoded[32..encoded.len() - 65], compact[..]);
        assert_eq!(Compact(number).encode(), compact);
    }
}

#[test]
fn header_digest_is_encoded_as_count_and_items() {
    let logs = all_kinds();
    let encoded = header(5, logs.clone()).encode();
    let mut expected = vec![(logs.len() as u8) << 2];
    for item in &logs {
        expected.extend(item.encode());
    }
    assert_eq!(encoded[97..], expected[..]);
}

#[test]
fn header_decodes_to_what_was_encoded() {
    for number in [0u64, 1, 64, 16384, 1 << 30, 1 << 40, u64::MAX] {
        let source = header(number, all_kinds());
        let mut encoded = source.encode();
        encoded.extend_from_slice(&[1, 2, 3]);
        let (decoded, rest) = Header::decode(&encoded).unwrap();
        assert_eq!(decoded, source);
        assert_eq!(rest, &[1, 2, 3]);
    }
}

#[test]
fn truncated_header_is_refused() {
    let encoded = header(16384, all_kinds()).encode();
    for len in 0..encoded.len() {
        assert!(matches!(Header::decode(&encoded[..len]), Err(DecodeError)));
    }
}

#[test]
fn header_with_a_number_not_in_shortest_form_is_refused() {
    let mut encoded = vec![0x11; 32];
    encoded.extend_from_slice(&[0x01, 0x00]);
    encoded.extend_from_slice(&[0x22; 32]);
    encoded.extend_from_slice(&[0x33; 32]);
    encoded.push(0x00);
    assert!(matches!(Header::decode(&encoded), Err(DecodeError)));
}

#[test]
fn header_with_more_logs_announced_than_present_is_refused() {
    let mut encoded = header(1, vec![]).encode();
    let last = encoded.len() - 1;
    encoded[last] = 0x04;
    assert!(matches!(Header::decode(&encoded), Err(DecodeError)));
}

#[test]
fn block_hash_is_the_blake2b_hash_of_the_encoded_header() {
    let header = header(77, all_kinds());
    let expected = blake2_rfc::blake2b::blake2b(32, &[], &header.encode());
    let BlockHash(hash) = header.block_hash();
    assert_eq!(&hash[..], expected.as_bytes());
    assert_ne!(&hash[..], &header.encode()[..32]);
}

#[test]
fn block_hash_of_a_known_header() {
    let header = Header {
        parent_hash: H256::zero(),
        number: 0,
        state_root: H256::zero(),
        extrinsics_root: H256::zero(),
        digest: Digest { logs: vec![] },
    };
    assert_eq!(header.encode(), vec![0u8; 98]);
    let expected = blake2_rfc::blake2b::blake2b(32, &[], &[0u8; 98]);
    assert_eq!(&header.block_hash().0[..], expected.as_bytes());
}

#[test]
fn block_hash_differs_between_headers() {
    assert_ne!(header(1, vec![]).block_hash(), header(2, vec![]).block_hash());
    assert_eq!(header(1, vec![]).block_hash(), header(1, vec![]).block_hash());
}

#[test]
fn block_is_hashed_by_its_header() {
    let block = Block {
        header: header(3, all_kinds()),
        extrinsics: vec![Extrinsic(vec![1, 2, 3]), Extrinsic(vec![])],
    };
    assert_eq!(block.block_hash(), block.header.block_hash());
    assert_eq!(block.block_hash(), header(3, all_kinds()).block_hash());
}

#[test]
fn cloned_header_is_the_same_header() {
    let source = header(9, all_kinds());
    let copy = source.clone();
    assert_eq!(copy, source);
    assert_eq!(copy.encode(), source.encode());
}

#[test]
fn changes_trie_configuration_encodes_as_two_integers() {
    let configuration = ChangesTrieConfiguration { digest_interval: 0x0a0b_0c0d, digest_levels: 1 };
    assert_eq!(configuration.encode(), vec![0x0d, 0x0c, 0x0b, 0x0a, 1, 0, 0, 0]);
    assert_eq!(configuration.encode(), (0x0a0b_0c0du32, 1u32).encode());
    let (decoded, rest) =
        ChangesTrieConfiguration::decode(&[0x0d, 0x0c, 0x0b, 0x0a, 1, 0, 0, 0, 0x77]).unwrap();
    assert_eq!(decoded, configuration);
    assert_eq!(rest, &[0x77]);
    assert_eq!(ChangesTrieConfiguration::decode(&[0; 7]), Err(DecodeError));
}

#[test]
fn changes_trie_signal_encodes_its_variant_and_its_option() {
    let none = ChangesTrieSignal::NewConfiguration(None);
    assert_eq!(none.encode(), vec![0, 0]);
    let some = ChangesTrieSignal::NewConfiguration(Some(ChangesTrieConfiguration {
        digest_interval: 2,
        digest_levels: 3,
    }));
    assert_eq!(some.encode(), vec![0, 1, 2, 0, 0, 0, 3, 0, 0, 0]);
    assert_eq!(ChangesTrieSignal::decode(&some.encode()), Ok((some, &[][..])));
    assert_eq!(ChangesTrieSignal::decode(&[0, 0, 5]), Ok((none, &[5][..])));
    assert_eq!(ChangesTrieSignal::decode(&[1, 0]), Err(DecodeError));
    assert_eq!(ChangesTrieSignal::decode(&[0, 2]), Err(DecodeError));
    assert_eq!(ChangesTrieSignal::decode(&[0]), Err(DecodeError));
}

#[test]
fn extrinsic_encodes_as_a_vector_of_bytes() {
    assert_eq!(Extrinsic(vec![1, 2, 3]).encode(), vec![12, 1, 2, 3]);
    assert_eq!(Extrinsic(vec![]).encode(), vec![0]);
    assert_eq!(Extrinsic(vec![9; 100]).encode(), vec![9u8; 100].encode());
    let (decoded, rest) = Extrinsic::decode(&[8, 0xaa, 0xbb, 0xcc]).unwrap();
    assert_eq!(decoded, Extrinsic(vec![0xaa, 0xbb]));
    assert_eq!(rest, &[0xcc]);
    assert_eq!(Extrinsic::decode(&[8, 0xaa]), Err(DecodeError));
    assert_eq!(Extrinsic::decode(&[]), Err(DecodeError));
}

#[test]
fn storage_proof_encodes_as_a_list_of_vectors() {
    let nodes = vec![vec![1u8, 2], vec![], vec![3u8; 70]];
    let proof = StorageProof::new(nodes.clone());
    let encoded = proof.encode();
    assert_eq!(encoded, nodes.encode());
    assert_eq!(encoded[..5], [12, 8, 1, 2, 0]);
    let (decoded, rest) = StorageProof::decode(&encoded).unwrap();
    assert!(rest.is_empty());
    assert_eq!(decoded, proof);
    assert_eq!(decoded.into_nodes(), nodes);
    assert_eq!(StorageProof::new(vec![]).encode(), vec![0]);
    for len in 0..encoded.len() {
        assert!(StorageProof::decode(&encoded[..len]).is_err());
    }
}

#[test]
fn block_encodes_as_its_header_and_its_extrinsics() {
    let block = Block {
        header: header(3, all_kinds()),
        extrinsics: vec![Extrinsic(vec![1, 2, 3]), Extrinsic(vec![])],
    };
    let mut expected = block.header.encode();
    expected.extend_from_slice(&[8, 12, 1, 2, 3, 0]);
    assert_eq!(block.encode(), expected);
    let mut encoded = block.encode();
    encoded.push(0x55);
    let (decoded, rest) = Block::decode(&encoded).unwrap();
    assert_eq!(decoded, block);
    assert_eq!(rest, &[0x55]);
    for len in 0..expected.len() {
        assert!(Block::decode(&expected[..len]).is_err());
    }
}
