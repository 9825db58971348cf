use searchfs::codec::{
    decode_doc_gaps, decode_position_gaps, decode_postings, decode_u64s, encode_doc_gaps,
    encode_position_gaps, encode_postings, encode_u64s, BincodePostingCodec,
    CompressedPostingCodec, PostingCodec,
};
use searchfs::postings::{DocId, Position, Postings};

#[test]
fn doc_gap_encoding_roundtrip() {
    let doc_ids = vec![1, 5, 9, 13, 20];

    let gaps = encode_doc_gaps(&doc_ids);
    let decoded = decode_doc_gaps(&gaps);

    assert_eq!(gaps, vec![1, 4, 4, 4, 7]);
    assert_eq!(decoded, doc_ids);
}

#[test]
fn position_gap_encoding_roundtrip() {
    let positions = vec![0, 3, 7, 10];

    let gaps = encode_position_gaps(&positions);
    let decoded = decode_position_gaps(&gaps);

    assert_eq!(gaps, vec![0, 3, 4, 3]);
    assert_eq!(decoded, positions);
}

#[test]
fn gap_encoding_handles_empty_inputs() {
    let doc_ids: Vec<DocId> = Vec::new();
    let positions: Vec<Position> = Vec::new();

    assert!(encode_doc_gaps(&doc_ids).is_empty());
    assert!(decode_doc_gaps(&doc_ids).is_empty());

    assert!(encode_position_gaps(&positions).is_empty());
    assert!(decode_position_gaps(&positions).is_empty());
}

#[test]
fn varint_roundtrip_small_values() {
    let values = vec![0, 1, 2, 10, 127];

    let bytes = encode_u64s(&values);
    let decoded = decode_u64s(&bytes).unwrap();

    assert_eq!(decoded, values);
}

#[test]
fn varint_roundtrip_large_values() {
    let values = vec![128, 255, 300, 16_384, 1_000_000];

    let bytes = encode_u64s(&values);
    let decoded = decode_u64s(&bytes).unwrap();

    assert_eq!(decoded, values);
}

#[test]
fn varint_rejects_truncated_input() {
    let bytes = vec![0x80];

    assert_eq!(decode_u64s(&bytes), None);
}

#[test]
fn varint_uses_fewer_bytes_for_small_numbers() {
    let small = encode_u64s(&[1, 2, 3, 4]);
    let raw_u64_bytes = 4 * std::mem::size_of::<u64>();

    assert!(small.len() < raw_u64_bytes);
}

#[test]
fn compressed_postings_roundtrip() {
    let postings = Postings::from_pairs(vec![(1, vec![0, 2, 5]), (5, vec![1]), (9, vec![3, 7])]);

    let compressed = encode_postings(&postings);
    let decoded = decode_postings(&compressed).unwrap();

    assert_eq!(decoded, postings);
}

#[test]
fn compressed_postings_handles_empty_postings() {
    let postings = Postings::new();

    let compressed = encode_postings(&postings);
    let decoded = decode_postings(&compressed).unwrap();

    assert!(decoded.is_empty());
}

#[test]
fn compressed_postings_rejects_truncated_bytes() {
    let postings = Postings::from_pairs(vec![(1, vec![0, 2, 5]), (5, vec![1])]);

    let mut compressed = encode_postings(&postings);
    compressed.bytes.pop();

    assert_eq!(decode_postings(&compressed), None);
}

#[test]
fn bincode_posting_codec_roundtrip() {
    let postings = Postings::from_pairs(vec![(1, vec![0, 2, 5]), (5, vec![1]), (9, vec![3, 7])]);

    let codec = BincodePostingCodec;
    let bytes = codec.encode(&postings).unwrap();
    let decoded = codec.decode(&bytes).unwrap();

    assert_eq!(decoded, postings);
}

#[test]
fn compressed_posting_codec_roundtrip() {
    let postings = Postings::from_pairs(vec![(1, vec![0, 2, 5]), (5, vec![1]), (9, vec![3, 7])]);

    let codec = CompressedPostingCodec;
    let bytes = codec.encode(&postings).unwrap();
    let decoded = codec.decode(&bytes).unwrap();

    assert_eq!(decoded, postings);
}
