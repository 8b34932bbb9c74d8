use replay_store::codec::{decode, encode, CodecError, InputStoredDb, LabelTypeStoredDb};
use replay_store::hexcode::{input_to_hex, label_to_hex};

fn bits(v: &[f32]) -> Vec<u32> {
    v.iter().map(|x| x.to_bits()).collect()
}

#[test]
fn encode_is_little_endian_concatenation() {
    let v: Vec<u32> = vec![0x0403_0201, 0x0807_0605];
    let b = encode(&v);
    assert_eq!(b, vec![0x01, 0x02, 0x03, 0x04, 0x05, 0x06, 0x07, 0x08]);
}

#[test]
fn decode_reads_back_words() {
    let b: Vec<u8> = vec![0x01, 0x02, 0x03, 0x04, 0x05, 0x06, 0x07, 0x08];
    let v = decode(&b, 2).unwrap();
    assert_eq!(v, vec![0x0403_0201, 0x0807_0605]);
}

#[test]
fn round_trip_is_bit_for_bit() {
    let v = bits(&[1.0, -2.5, 0.0, 3.25, f32::MIN_POSITIVE, -0.0]);
    let b = encode(&v);
    assert_eq!(b.len(), 4 * v.len());
    let w = decode(&b, v.len()).unwrap();
    assert_eq!(w, v);
}

#[test]
fn decode_rejects_wrong_length() {
    let b: Vec<u8> = vec![0x01, 0x02, 0x03];
    assert_eq!(decode(&b, 1), Err(CodecError::LengthMismatch));
    let b2: Vec<u8> = vec![0x01, 0x02, 0x03, 0x04];
    assert_eq!(decode(&b2, 2), Err(CodecError::LengthMismatch));
    assert!(decode(&b2, 1).is_ok());
}

#[test]
fn label_payload_round_trip() {
    let label = bits(&[0.5, 1.5, -3.0, 42.0]);
    let payload = encode(&label);
    let back = LabelTypeStoredDb::decode(&payload).unwrap().into_inner();
    assert_eq!(back, label);
}

#[test]
fn label_payload_rejects_wrong_length() {
    let payload = vec![0u8; 15];
    assert!(LabelTypeStoredDb::decode(&payload).is_err());
}

#[test]
fn input_payload_splits_at_fixed_offset() {
    let chrono = bits(&[1.0, 2.0]);
    let series = bits(&[3.0, 4.0, 5.0, 6.0, 7.0, 8.0]);
    let mut payload = encode(&chrono);
    payload.extend_from_slice(&encode(&series));
    let (c, s) = InputStoredDb::decode(&payload).unwrap().into_inner();
    assert_eq!(c, chrono);
    assert_eq!(s, series);
}

#[test]
fn input_payload_rejects_wrong_length() {
    assert!(InputStoredDb::decode(&vec![0u8; 31]).is_err());
    assert!(InputStoredDb::decode(&vec![0u8; 32]).is_ok());
}

#[test]
fn label_to_hex_renders_payload_bytes() {
    let label: Vec<u32> = vec![0x0403_0201, 0x0000_00ff, 0xdead_beef, 0];
    let s = label_to_hex(&label);
    assert_eq!(s, "01020304ff000000efbeadde00000000");
}

#[test]
fn label_to_hex_matches_crate_rendering() {
    let label = bits(&[0.1, 0.2, 0.3, 0.4]);
    assert_eq!(label_to_hex(&label), hex::encode(encode(&label)));
}

#[test]
fn input_to_hex_concatenates_both_parts() {
    let chrono: Vec<u32> = vec![0x0403_0201, 0x0807_0605];
    let series: Vec<u32> = vec![1, 2, 3, 4, 5, 6];
    let input = (chrono.clone(), series.clone());
    let joined = input_to_hex(&input);
    let mut expected = label_to_hex(&chrono);
    expected.push_str(&label_to_hex(&series));
    assert_eq!(joined, expected);
    assert!(joined.starts_with("0102030405060708"));
}
