use privdev_dp_comp::codec::{
    encode_client_message, encode_server_message, frame_message, frame_payload_len,
    parse_client_message, parse_server_message, ClientMessage, ServerMessage,
};
use privdev_dp_comp::party::UpdateSearchRange;

#[test]
fn frame_carries_its_length() {
    let payload = vec![7u8, 8, 9];
    let framed = frame_message(&payload);
    assert_eq!(framed.len(), 7);
    assert_eq!(&framed[0..4], &[3, 0, 0, 0]);
    assert_eq!(&framed[4..], &payload[..]);
    assert_eq!(frame_payload_len(&framed), 3);
}

#[test]
fn frame_length_is_little_endian() {
    let payload = vec![0u8; 0x01020304];
    let framed = frame_message(&payload);
    assert_eq!(&framed[0..4], &[0x04, 0x03, 0x02, 0x01]);
    assert_eq!(frame_payload_len(&framed) as usize, payload.len());
}

#[test]
fn client_message_round_trip() {
    let m = ClientMessage::MsgCiphertext(vec![1, 2, 3], vec![]);
    let data = encode_client_message(&m);
    assert_eq!(parse_client_message(&data), Some(m));

    let m = ClientMessage::MsgPartialDecryption(vec![255, 0], vec![42; 300]);
    let data = encode_client_message(&m);
    assert_eq!(parse_client_message(&data), Some(m));
}

#[test]
fn server_message_round_trip() {
    let m = ServerMessage::MsgDecryptRequest(vec![9, 9, 9], vec![1]);
    let data = encode_server_message(&m);
    assert_eq!(parse_server_message(&data), Some(m));

    for u in [
        UpdateSearchRange::FoundK,
        UpdateSearchRange::SearchBelow,
        UpdateSearchRange::SearchAbove,
        UpdateSearchRange::Abort,
    ] {
        let m = ServerMessage::MsgUpdateSearchRange(u);
        let data = encode_server_message(&m);
        assert_eq!(parse_server_message(&data), Some(m));
    }
}

#[test]
fn truncated_and_garbled_messages_are_rejected() {
    assert_eq!(parse_client_message(&Vec::new()), None);
    // tag alone, no blobs
    assert_eq!(parse_client_message(&vec![0u8]), None);
    // announced blob longer than the data
    assert_eq!(parse_client_message(&vec![0u8, 5, 0, 0, 0, 1]), None);
    // unknown tag
    assert_eq!(parse_client_message(&vec![9u8, 0, 0, 0, 0, 0, 0, 0, 0]), None);
    // trailing bytes after the second blob
    let mut data = encode_client_message(&ClientMessage::MsgCiphertext(vec![1], vec![2]));
    data.push(0);
    assert_eq!(parse_client_message(&data), None);
    // a verdict message needs exactly two bytes
    assert_eq!(parse_server_message(&vec![1u8]), None);
    assert_eq!(parse_server_message(&vec![1u8, 7]), None);
    assert_eq!(parse_server_message(&vec![1u8, 0, 0]), None);
}
