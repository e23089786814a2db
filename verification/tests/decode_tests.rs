use afterlife_core::decode::{
    decode_erc1155_transfer_batch, decode_erc1155_transfer_single, decode_erc721_transfer,
    decode_log, encode_batch_data, topic_batch, topic_single, topic_transfer, DecodeError,
    RawLog,
};
use afterlife_core::event::{parse_json_u256_array, u256_vec_to_json_decimal, Event};
use afterlife_core::u256::U256;

fn word_u64(v: u64) -> Vec<u8> {
    U256::from_u64(v).to_be_bytes()
}

fn addr_topic(byte: u8) -> Vec<u8> {
    let mut t = vec![0u8; 12];
    t.extend(std::iter::repeat(byte).take(20));
    t
}

#[test]
fn decodes_erc721_transfer() {
    let log = RawLog {
        topics: vec![topic_transfer(), addr_topic(0xaa), addr_topic(0xbb), word_u64(7)],
        data: vec![],
    };
    let t = decode_erc721_transfer(&log).unwrap();
    assert_eq!(t.from, vec![0xaa; 20]);
    assert_eq!(t.to, vec![0xbb; 20]);
    assert_eq!(t.token_id, U256::from_u64(7));
    let n = decode_log(&log).unwrap();
    assert_eq!(n.operator, vec![0xaa; 20]);
    assert_eq!(n.from, vec![0xaa; 20]);
    assert_eq!(n.to, vec![0xbb; 20]);
    assert_eq!(n.ids, vec![U256::from_u64(7)]);
    assert_eq!(n.values, vec![U256::from_u64(1)]);
}

#[test]
fn decodes_erc1155_single() {
    let mut data = word_u64(5);
    data.extend(word_u64(9));
    let log = RawLog {
        topics: vec![topic_single(), addr_topic(0x01), addr_topic(0xaa), addr_topic(0xbb)],
        data,
    };
    let (id, value) = decode_erc1155_transfer_single(&log).unwrap();
    assert_eq!(id, U256::from_u64(5));
    assert_eq!(value, U256::from_u64(9));
    let n = decode_log(&log).unwrap();
    assert_eq!(n.operator, vec![0x01; 20]);
    assert_eq!(n.from, vec![0xaa; 20]);
    assert_eq!(n.to, vec![0xbb; 20]);
}

#[test]
fn single_with_short_data_is_malformed() {
    let mut data = word_u64(5);
    data.extend(word_u64(9));
    data.pop();
    let log = RawLog {
        topics: vec![topic_single(), addr_topic(0x01), addr_topic(0xaa), addr_topic(0xbb)],
        data,
    };
    assert_eq!(decode_log(&log).unwrap_err(), DecodeError::MalformedData);
}

#[test]
fn batch_round_trips_byte_for_byte() {
    let ids = vec![U256::from_u64(1), U256::from_u64(2), U256::from_u64(300)];
    let values = vec![U256::from_u64(10), U256::from_u64(5), U256::from_u64(1)];
    let payload = encode_batch_data(&ids, &values);
    let log = RawLog {
        topics: vec![topic_batch(), addr_topic(0x01), addr_topic(0xaa), addr_topic(0xbb)],
        data: payload.clone(),
    };
    let (dids, dvalues) = decode_erc1155_transfer_batch(&log).unwrap();
    assert_eq!(dids, ids);
    assert_eq!(dvalues, values);
    // re-encoding what was decoded gives the identical payload
    let again = encode_batch_data(&dids, &dvalues);
    assert_eq!(again, payload);
}

#[test]
fn batch_length_mismatch_is_rejected() {
    // two offsets, an id array of one element, a value array of none
    let mut data = word_u64(64);
    data.extend(word_u64(128));
    data.extend(word_u64(1));
    data.extend(word_u64(42));
    data.extend(word_u64(0));
    let log = RawLog {
        topics: vec![topic_batch(), addr_topic(0x01), addr_topic(0xaa), addr_topic(0xbb)],
        data,
    };
    assert_eq!(decode_log(&log).unwrap_err(), DecodeError::LengthMismatch);
}

#[test]
fn unknown_topic_is_reported() {
    let log = RawLog { topics: vec![vec![1u8; 32]], data: vec![] };
    assert_eq!(decode_log(&log).unwrap_err(), DecodeError::UnknownTopic);
}

#[test]
fn empty_topics_are_malformed() {
    let log = RawLog { topics: vec![], data: vec![] };
    assert_eq!(decode_log(&log).unwrap_err(), DecodeError::MalformedData);
}

#[test]
fn u256_renders_decimals_beyond_u64() {
    // 2^64 stored big-endian
    let mut bytes = vec![0u8; 32];
    bytes[23] = 1;
    let v = U256::from_be_slice(&bytes, 0);
    assert_eq!(v.to_decimal(), b"18446744073709551616".to_vec());
    assert_eq!(U256::from_u64(0).to_decimal(), b"0".to_vec());
    assert_eq!(U256::from_u64(1205).to_decimal(), b"1205".to_vec());
}

#[test]
fn json_array_renders_and_parses_back() {
    let vals = vec![U256::from_u64(1), U256::from_u64(99), U256::from_u64(104)];
    let rendered = u256_vec_to_json_decimal(&vals);
    assert_eq!(rendered, b"[\"1\",\"99\",\"104\"]".to_vec());
    let parsed = parse_json_u256_array(&rendered).unwrap();
    assert_eq!(parsed, vals);
    // a value beyond u64 survives the trip
    let mut bytes = vec![0u8; 32];
    bytes[15] = 1;
    let big = U256::from_be_slice(&bytes, 0);
    let r2 = u256_vec_to_json_decimal(&vec![big]);
    assert_eq!(r2, b"[\"340282366920938463463374607431768211456\"]".to_vec());
    assert_eq!(parse_json_u256_array(&r2).unwrap(), vec![big]);
}

#[test]
fn json_parser_only_accepts_canonical_arrays() {
    assert!(parse_json_u256_array(&b"[]".to_vec()).is_some());
    assert!(parse_json_u256_array(&b"[1]".to_vec()).is_none());
    assert!(parse_json_u256_array(&b"[\"01\"]".to_vec()).is_none());
    assert!(parse_json_u256_array(&b"[\"1\",]".to_vec()).is_none());
    assert!(parse_json_u256_array(&b"[\"1\" ]".to_vec()).is_none());
    assert!(parse_json_u256_array(&b"".to_vec()).is_none());
    assert!(parse_json_u256_array(&b"[\"\"]".to_vec()).is_none());
}

#[test]
fn event_new_checks_the_pairing() {
    let contract = afterlife_core::config::Contract {
        name: b"afterlife".to_vec(),
        address: b"0xcccccccccccccccccccccccccccccccccccccccc".to_vec(),
        startblock: 0,
        kind: b"ERC1155".to_vec(),
    };
    let bad = Event::new(
        contract,
        b"0xaa".to_vec(),
        b"0xaa".to_vec(),
        b"0xbb".to_vec(),
        vec![U256::from_u64(1)],
        vec![],
        10,
        b"0xhash".to_vec(),
    );
    assert!(bad.is_err());
}
