use ngram::message::{Request, Response};

// --- exact byte layout ---

#[test]
fn publish_encodes_tag_length_then_text() {
    let r = Request::Publish { doc: b"abc".to_vec() };
    assert_eq!(r.to_bytes(), vec![0u8, 3, b'a', b'b', b'c']);
}

#[test]
fn search_encodes_tag_length_then_text() {
    let r = Request::Search { word: b"cat".to_vec() };
    assert_eq!(r.to_bytes(), vec![1u8, 3, b'c', b'a', b't']);
}

#[test]
fn retrieve_encodes_tag_then_big_endian_id() {
    let r = Request::Retrieve { id: 0x0102030405060708 };
    assert_eq!(r.to_bytes(), vec![2u8, 1, 2, 3, 4, 5, 6, 7, 8]);
}

#[test]
fn publish_success_encodes_tag_then_big_endian_id() {
    let r = Response::PublishSuccess(7);
    assert_eq!(r.to_bytes(), vec![0u8, 0, 0, 0, 0, 0, 0, 0, 7]);
}

#[test]
fn search_success_encodes_count_then_ids() {
    let r = Response::SearchSuccess(vec![1, 0x0100]);
    assert_eq!(
        r.to_bytes(),
        vec![1u8, 2, 0, 0, 0, 0, 0, 0, 0, 1, 0, 0, 0, 0, 0, 0, 1, 0]
    );
}

#[test]
fn retrieve_success_encodes_tag_length_then_text() {
    let r = Response::RetrieveSuccess(b"hi".to_vec());
    assert_eq!(r.to_bytes(), vec![2u8, 2, b'h', b'i']);
}

#[test]
fn failure_encodes_as_the_tag_alone() {
    assert_eq!(Response::Failure.to_bytes(), vec![3u8]);
}

// --- round trips ---

#[test]
fn request_round_trip_publish() {
    let r = Request::Publish { doc: b"the cat sat".to_vec() };
    let bytes = r.to_bytes();
    assert_eq!(Request::from_bytes(&bytes), Some(r));
}

#[test]
fn request_round_trip_search() {
    let r = Request::Search { word: b"cat".to_vec() };
    let bytes = r.to_bytes();
    assert_eq!(Request::from_bytes(&bytes), Some(r));
}

#[test]
fn request_round_trip_search_empty_word() {
    let r = Request::Search { word: Vec::new() };
    let bytes = r.to_bytes();
    assert_eq!(Request::from_bytes(&bytes), Some(r));
}

#[test]
fn request_round_trip_retrieve() {
    let r = Request::Retrieve { id: u64::MAX };
    let bytes = r.to_bytes();
    assert_eq!(Request::from_bytes(&bytes), Some(r));
}

#[test]
fn response_round_trip_publish_success() {
    let r = Response::PublishSuccess(0);
    let bytes = r.to_bytes();
    assert_eq!(Response::from_bytes(&bytes), Some(r));
}

#[test]
fn response_round_trip_search_success() {
    let r = Response::SearchSuccess(vec![0, 1, u64::MAX, 42]);
    let bytes = r.to_bytes();
    assert_eq!(Response::from_bytes(&bytes), Some(r));
}

#[test]
fn response_round_trip_search_success_empty() {
    let r = Response::SearchSuccess(Vec::new());
    let bytes = r.to_bytes();
    assert_eq!(Response::from_bytes(&bytes), Some(r));
}

#[test]
fn response_round_trip_retrieve_success() {
    let r = Response::RetrieveSuccess(b"a book".to_vec());
    let bytes = r.to_bytes();
    assert_eq!(Response::from_bytes(&bytes), Some(r));
}

#[test]
fn response_round_trip_failure() {
    let bytes = Response::Failure.to_bytes();
    assert_eq!(Response::from_bytes(&bytes), Some(Response::Failure));
}

// --- the 255-byte boundary ---

#[test]
fn text_of_length_255_round_trips() {
    let doc = vec![b'x'; 255];
    let r = Request::Publish { doc };
    assert!(r.is_encodable());
    let bytes = r.to_bytes();
    assert_eq!(bytes.len(), 2 + 255);
    assert_eq!(Request::from_bytes(&bytes), Some(r));
}

#[test]
fn text_of_length_256_is_not_encodable() {
    let r = Request::Publish { doc: vec![b'x'; 256] };
    assert!(!r.is_encodable());
    let r = Request::Search { word: vec![b'x'; 256] };
    assert!(!r.is_encodable());
    let r = Response::RetrieveSuccess(vec![b'x'; 256]);
    assert!(!r.is_encodable());
    let r = Response::SearchSuccess(vec![0u64; 256]);
    assert!(!r.is_encodable());
}

#[test]
fn checked_encoding_accepts_255_and_rejects_256() {
    let fits = Request::Publish { doc: vec![b'x'; 255] };
    assert_eq!(fits.try_to_bytes(), Some(fits.to_bytes()));
    let too_long = Request::Publish { doc: vec![b'x'; 256] };
    assert_eq!(too_long.try_to_bytes(), None);
    let too_wide = Response::SearchSuccess(vec![0u64; 256]);
    assert_eq!(too_wide.try_to_bytes(), None);
    let fits = Response::RetrieveSuccess(vec![b'x'; 255]);
    assert_eq!(fits.try_to_bytes(), Some(fits.to_bytes()));
}

#[test]
fn ids_of_count_255_round_trip() {
    let r = Response::SearchSuccess((0..255u64).collect());
    assert!(r.is_encodable());
    let bytes = r.to_bytes();
    assert_eq!(bytes.len(), 2 + 255 * 8);
    assert_eq!(Response::from_bytes(&bytes), Some(r));
}

// --- malformed input decodes to absence, never a fault ---

#[test]
fn empty_input_decodes_to_none() {
    assert_eq!(Request::from_bytes(&[]), None);
    assert_eq!(Response::from_bytes(&[]), None);
}

#[test]
fn unknown_tag_decodes_to_none() {
    assert_eq!(Request::from_bytes(&[9, 1, 2]), None);
    assert_eq!(Response::from_bytes(&[9, 1, 2]), None);
}

#[test]
fn truncated_fields_decode_to_none() {
    // Publish: declared 5 text bytes, only 2 present.
    assert_eq!(Request::from_bytes(&[0, 5, b'a', b'b']), None);
    // Search: not even the length byte.
    assert_eq!(Request::from_bytes(&[1]), None);
    // Retrieve: id cut short.
    assert_eq!(Request::from_bytes(&[2, 0, 0, 0]), None);
    // PublishSuccess: id cut short.
    assert_eq!(Response::from_bytes(&[0, 1, 2]), None);
    // SearchSuccess: two ids declared, one present.
    assert_eq!(Response::from_bytes(&[1, 2, 0, 0, 0, 0, 0, 0, 0, 1]), None);
    // RetrieveSuccess: not even the length byte.
    assert_eq!(Response::from_bytes(&[2]), None);
}

#[test]
fn terminal_fields_consume_to_the_end_of_the_message() {
    // The declared length of a Search word is read but the word runs to the
    // end of the message.
    let decoded = Request::from_bytes(&[1, 1, b'c', b'a', b't']);
    assert_eq!(decoded, Some(Request::Search { word: b"cat".to_vec() }));
    let decoded = Response::from_bytes(&[2, 1, b'h', b'i']);
    assert_eq!(decoded, Some(Response::RetrieveSuccess(b"hi".to_vec())));
}

#[test]
fn trailing_bytes_after_fixed_fields_are_ignored() {
    let decoded = Request::from_bytes(&[0, 1, b'a', b'z', b'z']);
    assert_eq!(decoded, Some(Request::Publish { doc: b"a".to_vec() }));
    let decoded = Request::from_bytes(&[2, 0, 0, 0, 0, 0, 0, 0, 5, 9]);
    assert_eq!(decoded, Some(Request::Retrieve { id: 5 }));
    let decoded = Response::from_bytes(&[3, 7]);
    assert_eq!(decoded, Some(Response::Failure));
}
