use ngram::archive::Archive;
use ngram::message::{Request, Response};
use ngram::server::{apply_request, handle_message};

#[test]
fn apply_request_serves_each_variant() {
    let mut archive = Archive::new();
    let resp = apply_request(&mut archive, Request::Publish { doc: b"the cat sat".to_vec() });
    assert_eq!(resp, Response::PublishSuccess(0));
    let resp = apply_request(&mut archive, Request::Search { word: b"cat".to_vec() });
    assert_eq!(resp, Response::SearchSuccess(vec![0]));
    let resp = apply_request(&mut archive, Request::Retrieve { id: 0 });
    assert_eq!(resp, Response::RetrieveSuccess(b"the cat sat".to_vec()));
    let resp = apply_request(&mut archive, Request::Retrieve { id: 99 });
    assert_eq!(resp, Response::Failure);
}

#[test]
fn handle_message_round_trips_whole_messages() {
    let mut archive = Archive::new();
    let publish = Request::Publish { doc: b"the cat sat".to_vec() }.to_bytes();
    let out = handle_message(&mut archive, &publish);
    assert_eq!(Response::from_bytes(&out), Some(Response::PublishSuccess(0)));

    let search = Request::Search { word: b"cat".to_vec() }.to_bytes();
    let out = handle_message(&mut archive, &search);
    assert_eq!(Response::from_bytes(&out), Some(Response::SearchSuccess(vec![0])));

    let retrieve = Request::Retrieve { id: 0 }.to_bytes();
    let out = handle_message(&mut archive, &retrieve);
    assert_eq!(
        Response::from_bytes(&out),
        Some(Response::RetrieveSuccess(b"the cat sat".to_vec()))
    );
}

#[test]
fn handle_message_answers_an_unknown_id_with_failure() {
    let mut archive = Archive::new();
    let retrieve = Request::Retrieve { id: 99 }.to_bytes();
    let out = handle_message(&mut archive, &retrieve);
    assert_eq!(out, vec![3u8]);
}

#[test]
fn handle_message_answers_malformed_bytes_with_failure() {
    let mut archive = Archive::new();
    assert_eq!(handle_message(&mut archive, &[]), vec![3u8]);
    assert_eq!(handle_message(&mut archive, &[9, 1, 2]), vec![3u8]);
    assert_eq!(handle_message(&mut archive, &[0, 5, b'a']), vec![3u8]);
    // A malformed publish stores nothing.
    let search = Request::Search { word: b"a".to_vec() }.to_bytes();
    assert_eq!(
        Response::from_bytes(&handle_message(&mut archive, &search)),
        Some(Response::SearchSuccess(Vec::new()))
    );
}

#[test]
fn handle_message_answers_an_oversized_result_with_failure() {
    // 256 one-word documents match, one more than the count byte can hold.
    let mut archive = Archive::new();
    for _ in 0..256 {
        let publish = Request::Publish { doc: b"cat".to_vec() }.to_bytes();
        handle_message(&mut archive, &publish);
    }
    let search = Request::Search { word: b"cat".to_vec() }.to_bytes();
    assert_eq!(handle_message(&mut archive, &search), vec![3u8]);
}
