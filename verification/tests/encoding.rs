use chess_store::hexcode::hex_decode;
use chess_store::openings::{encode_batch, Opening};

fn entry(mov: &[u8]) -> Opening {
    Opening { hash: 1, mov: mov.to_vec(), white: 1, black: 0, draw: 0 }
}

#[test]
fn moves_encode_to_lowercase_hex() {
    let batch = vec![entry(&[1, 2, 3, 15, 16])];
    let encoded = encode_batch(&batch);
    assert_eq!(encoded.len(), 1);
    assert_eq!(encoded[0].mov_hex, "0102030f10");
    assert_eq!(encoded[0].hash, 1);
    assert_eq!(encoded[0].white, 1);
    assert_eq!(encoded[0].black, 0);
    assert_eq!(encoded[0].draw, 0);
}

#[test]
fn zero_and_quote_bytes_encode_and_decode_exactly() {
    let mov = [0x00u8, b'\'', b'"', 0xff];
    let batch = vec![entry(&mov)];
    let encoded = encode_batch(&batch);
    assert_eq!(encoded[0].mov_hex, "002722ff");
    let decoded = hex_decode(&encoded[0].mov_hex).unwrap();
    assert_eq!(decoded, mov.to_vec());
}

#[test]
fn empty_move_encodes_to_empty_text() {
    let batch = vec![entry(&[])];
    let encoded = encode_batch(&batch);
    assert_eq!(encoded[0].mov_hex, "");
    assert_eq!(hex_decode(""), Some(Vec::new()));
}

#[test]
fn batch_encoding_keeps_order_and_counters() {
    let batch = vec![
        Opening { hash: 7, mov: vec![0xab], white: 2, black: 3, draw: 4 },
        Opening { hash: 8, mov: vec![0xcd, 0xef], white: 5, black: 6, draw: 7 },
    ];
    let encoded = encode_batch(&batch);
    assert_eq!(encoded.len(), 2);
    assert_eq!(encoded[0].mov_hex, "ab");
    assert_eq!(encoded[1].mov_hex, "cdef");
    assert_eq!((encoded[1].hash, encoded[1].white, encoded[1].black, encoded[1].draw), (8, 5, 6, 7));
}

#[test]
fn decode_rejects_text_no_bytes_render_to() {
    assert_eq!(hex_decode("0g"), None);
    assert_eq!(hex_decode("abc"), None);
    assert_eq!(hex_decode("AB"), None);
    assert_eq!(hex_decode("zz"), None);
}

#[test]
fn every_byte_value_round_trips() {
    let all: Vec<u8> = (0u8..=255).collect();
    let batch = vec![Opening { hash: 0, mov: all.clone(), white: 0, black: 0, draw: 0 }];
    let encoded = encode_batch(&batch);
    assert_eq!(encoded[0].mov_hex.len(), 512);
    assert_eq!(hex_decode(&encoded[0].mov_hex), Some(all));
}
