use coretex::api::{check_put_reply, decode_value_length, encode_get_request, encode_put_request};
use coretex::error::ErrorKind;

#[test]
fn a_put_request_is_tag_lengths_key_value() {
    let frame = encode_put_request(b"k", b"vv").unwrap();
    let mut expected = b"PUT ".to_vec();
    expected.extend_from_slice(&[0, 0, 0, 1]);
    expected.extend_from_slice(&[0, 0, 0, 2]);
    expected.extend_from_slice(b"k");
    expected.extend_from_slice(b"vv");
    assert_eq!(frame, expected);
}

#[test]
fn lengths_are_big_endian() {
    let key = vec![7u8; 0x0102];
    let frame = encode_get_request(&key).unwrap();
    assert_eq!(&frame[..4], b"GET ");
    assert_eq!(&frame[4..8], &[0, 0, 1, 2]);
    assert_eq!(&frame[8..], key.as_slice());
    let frame = encode_put_request(&key, &vec![1u8; 0x030000]).unwrap();
    assert_eq!(&frame[4..8], &(0x0102u32).to_be_bytes());
    assert_eq!(&frame[8..12], &[0, 3, 0, 0]);
    assert_eq!(frame.len(), 12 + 0x0102 + 0x030000);
}

#[test]
fn empty_keys_and_values_are_framed() {
    assert_eq!(encode_get_request(b"").unwrap(), b"GET \0\0\0\0".to_vec());
    assert_eq!(encode_put_request(b"", b"").unwrap(), b"PUT \0\0\0\0\0\0\0\0".to_vec());
}

#[test]
fn only_ok_acknowledges_a_put() {
    assert!(check_put_reply(b"OK").is_ok());
    for reply in [&b"NO"[..], b"ok", b"O", b"OKK", b""] {
        assert_eq!(check_put_reply(reply).unwrap_err().kind(), ErrorKind::Storage);
    }
}

#[test]
fn a_zero_length_means_an_absent_key() {
    assert_eq!(decode_value_length(&[0, 0, 0, 0]), None);
    assert_eq!(decode_value_length(&[0, 0, 0, 5]), Some(5));
    assert_eq!(decode_value_length(&[0, 0, 1, 2]), Some(0x0102));
    assert_eq!(decode_value_length(&[1, 2, 3, 4]), Some(0x01020304));
    assert_eq!(decode_value_length(&[255, 255, 255, 255]), Some(u32::MAX));
    for n in [1u32, 255, 256, 65_535, 65_536, 0xdead_beef] {
        assert_eq!(decode_value_length(&n.to_be_bytes()), Some(n));
    }
}
