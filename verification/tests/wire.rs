use novadb::protocol::{encode_request, read_request, read_response, write_response, ErrorCode, Request, Response};
use novadb::varint::{read_varint, write_varint, MAX_VARINT_BYTES};

#[test]
fn boundary_values_round_trip_minimally() {
    for value in [0, 1, 127, 128, 255, 16_384, u64::from(u32::MAX), u64::MAX] {
        let mut bytes = Vec::new();
        write_varint(value, &mut bytes);
        assert_eq!(read_varint(&bytes).unwrap(), (value, bytes.len()));
        assert!(bytes.len() <= MAX_VARINT_BYTES);
        if bytes.len() > 1 {
            assert_ne!(bytes.last(), Some(&0));
        }
    }
}

#[test]
fn protocol_round_trips_and_rejects_corruption_and_limits() {
    let request = Request {
        request_id: 42,
        query: "students.get {}".to_owned(),
    };
    let encoded = encode_request(&request).unwrap();
    assert_eq!(read_request(&encoded, 100).unwrap(), request);
    assert!(read_request(&encoded, 2).is_err());
    let mut corrupt = encoded;
    let last = corrupt.len() - 1;
    corrupt[last] ^= 1;
    assert!(read_request(&corrupt, 100).is_err());
}

#[test]
fn varint_exact_encodings() {
    let mut bytes = Vec::new();
    write_varint(300, &mut bytes);
    assert_eq!(bytes, vec![0xac, 0x02]);
    assert!(read_varint(&[0x80]).is_err());
    assert_eq!(read_varint(&[0x05, 0xff]).unwrap(), (5, 1));
}

#[test]
fn responses_round_trip_with_error_codes() {
    let response = Response {
        request_id: 9,
        outcome: Err((ErrorCode::Parse, "bad query".to_owned())),
    };
    let mut out = Vec::new();
    write_response(&mut out, &response).unwrap();
    assert_eq!(read_response(&out, 100).unwrap(), response);
    assert_eq!(out[6], 2);
}
