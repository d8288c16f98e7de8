use swampyer::errors::WampError;
use swampyer::transport::{
    check_handshake, encode_frame, handshake_request, FrameReader, MAGIC, MAX_FRAME_EXPONENT,
    SERIALIZER_CBOR,
};

#[test]
fn handshake_announces_size_and_serializer() {
    assert_eq!(handshake_request(MAX_FRAME_EXPONENT, SERIALIZER_CBOR), vec![0x7f, 0x33, 0, 0]);
    assert_eq!(handshake_request(0x0f, 0x01), vec![0x7f, 0xf1, 0, 0]);
}

#[test]
fn accepted_handshake_gives_the_peer_frame_limit() {
    assert_eq!(check_handshake(&[MAGIC, 0x33, 0, 0], SERIALIZER_CBOR), Ok(4096));
    assert_eq!(check_handshake(&[MAGIC, 0x03, 0, 0], SERIALIZER_CBOR), Ok(512));
    assert_eq!(check_handshake(&[MAGIC, 0xf3, 0, 0], SERIALIZER_CBOR), Ok(1 << 24));
}

#[test]
fn mismatched_handshake_is_a_connection_failure() {
    // the peer echoes another serializer
    assert_eq!(check_handshake(&[MAGIC, 0x31, 0, 0], SERIALIZER_CBOR), Err(WampError::ConnectionFailure));
    // another magic byte
    assert_eq!(check_handshake(&[0x7e, 0x33, 0, 0], SERIALIZER_CBOR), Err(WampError::ConnectionFailure));
    // a short answer
    assert_eq!(check_handshake(&[MAGIC, 0x33], SERIALIZER_CBOR), Err(WampError::ConnectionFailure));
}

#[test]
fn frame_header_carries_big_endian_length() {
    assert_eq!(encode_frame(&[], 4096).unwrap(), vec![0, 0, 0, 0]);
    assert_eq!(encode_frame(&[9, 8, 7], 4096).unwrap(), vec![0, 0, 0, 3, 9, 8, 7]);
    let big = vec![1u8; 300];
    let framed = encode_frame(&big, 4096).unwrap();
    assert_eq!(&framed[..4], &[0, 0, 0x01, 0x2c]);
    assert_eq!(framed.len(), 304);
}

#[test]
fn oversized_payload_is_refused() {
    assert_eq!(encode_frame(&vec![0u8; 4097], 4096), Err(WampError::FrameError));
    assert_eq!(encode_frame(&vec![0u8; 70000], 100000), Err(WampError::FrameError));
}

#[test]
fn frames_come_back_whatever_the_chunking() {
    for size in [0usize, 1, 2, 3, 4, 5, 255, 256, 1000, 4095, 4096] {
        let payload: Vec<u8> = (0..size).map(|i| (i % 251) as u8).collect();
        let frame = encode_frame(&payload, 4096).unwrap();
        for chunk in [1usize, 3, 7, 4096, 10000] {
            let mut reader = FrameReader::new(4096);
            let mut got = None;
            for piece in frame.chunks(chunk) {
                assert!(got.is_none());
                reader.push_bytes(piece);
                got = reader.next_frame().unwrap();
            }
            if frame.is_empty() {
                got = reader.next_frame().unwrap();
            }
            assert_eq!(got, Some(payload.clone()), "size {} chunk {}", size, chunk);
            assert_eq!(reader.next_frame().unwrap(), None);
        }
    }
}

#[test]
fn bytes_of_the_next_frame_wait_for_the_next_call() {
    let mut wire = encode_frame(&[1, 2], 4096).unwrap();
    wire.extend(encode_frame(&[3], 4096).unwrap());
    wire.extend_from_slice(&[0, 0]);
    let mut reader = FrameReader::new(4096);
    reader.push_bytes(&wire);
    assert_eq!(reader.next_frame().unwrap(), Some(vec![1, 2]));
    assert_eq!(reader.next_frame().unwrap(), Some(vec![3]));
    assert_eq!(reader.next_frame().unwrap(), None);
    reader.push_bytes(&[0, 1, 42]);
    assert_eq!(reader.next_frame().unwrap(), Some(vec![42]));
}

#[test]
fn bad_frame_headers_are_frame_errors() {
    let mut reader = FrameReader::new(16);
    reader.push_bytes(&[0, 0, 0, 17]);
    assert_eq!(reader.next_frame(), Err(WampError::FrameError));
    let mut reader = FrameReader::new(16);
    reader.push_bytes(&[1, 0, 0, 1, 5]);
    assert_eq!(reader.next_frame(), Err(WampError::FrameError));
}
