use connect_core::chat::{
    accept_response, frame_request, header_valid, validate_headers, ChatRequest, RequestMux,
};
use connect_core::codec::{
    decode_request, decode_response, decode_varint, encode_response, encode_varint_into,
    ResponseFrame,
};
use connect_core::errors::SendError;

fn wire_request() -> ChatRequest {
    ChatRequest {
        method: "POST".to_owned(),
        path: "/v1/verification/session".to_owned(),
        body: Some(b"{\"number\":\"+18005550101\"}".to_vec()),
        headers: vec!["content-type: application/json".to_owned()],
    }
}

#[test]
fn varint_round_trips_and_is_minimal() {
    for value in [0u64, 1, 127, 128, 300, 16_383, 16_384, u64::MAX] {
        let mut bytes = Vec::new();
        encode_varint_into(&mut bytes, value);
        let (decoded, end) = decode_varint(&bytes, 0).expect("round trip");
        assert_eq!(decoded, value);
        assert_eq!(end, bytes.len());
    }
    // Exact encodings.
    let mut bytes = Vec::new();
    encode_varint_into(&mut bytes, 300);
    assert_eq!(bytes, vec![0xAC, 0x02]);
    // A non-minimal encoding is rejected.
    assert_eq!(decode_varint(&[0x80, 0x00], 0), None);
    // A truncated encoding is rejected.
    assert_eq!(decode_varint(&[0x80], 0), None);
    assert_eq!(decode_varint(&[], 0), None);
}

#[test]
fn request_ids_are_assigned_in_submission_order() {
    let mut mux = RequestMux::new();
    assert_eq!(mux.submit(), 0);
    assert_eq!(mux.submit(), 1);
    assert_eq!(mux.submit(), 2);
    assert!(mux.complete(1));
    assert!(!mux.complete(1));
    assert!(mux.complete(0));
    assert!(mux.complete(2));
    assert!(!mux.complete(7));
}

#[test]
fn framed_request_round_trips_through_the_codec() {
    let req = wire_request();
    let mut mux = RequestMux::new();
    let (bytes, id) = frame_request(&req, &mut mux);
    assert_eq!(id, 0);
    let frame = decode_request(&bytes).expect("well formed");
    assert_eq!(frame.verb, b"POST".to_vec());
    assert_eq!(frame.path, b"/v1/verification/session".to_vec());
    assert_eq!(frame.body, Some(b"{\"number\":\"+18005550101\"}".to_vec()));
    assert_eq!(frame.headers, vec![b"content-type: application/json".to_vec()]);
    assert_eq!(frame.id, 0);
}

#[test]
fn truncated_request_frame_is_rejected() {
    let req = wire_request();
    let mut mux = RequestMux::new();
    let (bytes, _) = frame_request(&req, &mut mux);
    assert!(decode_request(&bytes[..bytes.len() - 1]).is_none());
    assert!(decode_request(&[]).is_none());
}

#[test]
fn response_round_trips_through_the_codec() {
    let frame = ResponseFrame {
        status: 200,
        message: Some(b"OK".to_vec()),
        body: Some(b"content".to_vec()),
        headers: vec![b"content-type: application/octet-stream".to_vec()],
        id: 5,
    };
    let bytes = encode_response(&frame);
    let decoded = decode_response(&bytes).expect("well formed");
    assert_eq!(decoded.status, 200);
    assert_eq!(decoded.message, Some(b"OK".to_vec()));
    assert_eq!(decoded.body, Some(b"content".to_vec()));
    assert_eq!(decoded.headers, vec![b"content-type: application/octet-stream".to_vec()]);
    assert_eq!(decoded.id, 5);
}

#[test]
fn response_is_matched_by_request_id() {
    let frame = ResponseFrame { status: 200, message: None, body: None, headers: vec![], id: 7 };
    let bytes = encode_response(&frame);
    let resp = accept_response(&bytes, 7).expect("matched");
    assert_eq!(resp.status, 200);
    // A mismatched ID is invalid incoming data.
    assert_eq!(accept_response(&bytes, 8), Err(SendError::IncomingDataInvalid));
    // Garbage is invalid incoming data.
    assert_eq!(accept_response(b"junk", 7), Err(SendError::IncomingDataInvalid));
}

#[test]
fn oversized_status_is_invalid_incoming_data() {
    let frame =
        ResponseFrame { status: 70_000, message: None, body: None, headers: vec![], id: 0 };
    let bytes = encode_response(&frame);
    assert_eq!(accept_response(&bytes, 0), Err(SendError::IncomingDataInvalid));
}

#[test]
fn header_lines_need_a_name_and_a_colon() {
    assert!(header_valid("content-type: application/json"));
    assert!(!header_valid("no colon here"));
    assert!(!header_valid(":starts-with-colon"));
    assert!(!header_valid(""));

    let good = wire_request();
    assert_eq!(validate_headers(&good), Ok(()));

    let bad = ChatRequest { headers: vec!["bogus".to_owned()], ..wire_request() };
    assert_eq!(validate_headers(&bad), Err(SendError::RequestHasInvalidHeader));
}

#[test]
fn header_lines_split_at_the_first_colon_and_trim() {
    let (name, value) =
        connect_core::chat::split_header_line(b"content-type: application/json").expect("has colon");
    assert_eq!(name, b"content-type".to_vec());
    assert_eq!(value, b"application/json".to_vec());

    let (name, value) =
        connect_core::chat::split_header_line(b"  x-retry : 42 : 7 ").expect("has colon");
    assert_eq!(name, b"x-retry".to_vec());
    assert_eq!(value, b"42 : 7".to_vec());

    assert!(connect_core::chat::split_header_line(b"no colon").is_none());
}
