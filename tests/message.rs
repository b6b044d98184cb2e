use ngram::message::Request;
use ngram::message::Response;

fn round_trip_request(r: Request) {
    let bytes = r.to_bytes();
    assert_eq!(Request::from_bytes(&bytes), Some(r));
}

fn round_trip_response(r: Response) {
    let bytes = r.to_bytes();
    assert_eq!(Response::from_bytes(&bytes), Some(r));
}

#[test]
fn publish_request_layout() {
    let bytes = Request::Publish { doc: "hi".to_string() }.to_bytes();
    assert_eq!(bytes, vec![0x01, 0, 0, 0, 0, 0, 0, 0, 2, b'h', b'i']);
    assert_eq!(
        Request::from_bytes(&bytes),
        Some(Request::Publish { doc: "hi".to_string() })
    );
}

#[test]
fn failure_response_layout() {
    let bytes = Response::Failure.to_bytes();
    assert_eq!(bytes, vec![0x04]);
    assert_eq!(Response::from_bytes(&bytes), Some(Response::Failure));
}

#[test]
fn search_and_retrieve_request_layout() {
    assert_eq!(
        Request::Search { word: "ab".to_string() }.to_bytes(),
        vec![0x02, 0, 0, 0, 0, 0, 0, 0, 2, b'a', b'b']
    );
    assert_eq!(
        Request::Retrieve { id: 0x0102 }.to_bytes(),
        vec![0x03, 0, 0, 0, 0, 0, 0, 1, 2]
    );
}

#[test]
fn response_layouts() {
    assert_eq!(
        Response::PublishSuccess(7).to_bytes(),
        vec![0x01, 0, 0, 0, 0, 0, 0, 0, 7]
    );
    assert_eq!(
        Response::SearchSuccess(vec![1, 256]).to_bytes(),
        vec![0x02, 0, 0, 0, 0, 0, 0, 0, 2, 0, 0, 0, 0, 0, 0, 0, 1, 0, 0, 0, 0, 0, 0, 1, 0]
    );
    assert_eq!(
        Response::RetrieveSuccess("é".to_string()).to_bytes(),
        vec![0x03, 0, 0, 0, 0, 0, 0, 0, 2, 0xc3, 0xa9]
    );
}

#[test]
fn requests_round_trip() {
    round_trip_request(Request::Publish { doc: String::new() });
    round_trip_request(Request::Publish { doc: "The Quick Fox\njumps".to_string() });
    round_trip_request(Request::Search { word: String::new() });
    round_trip_request(Request::Search { word: "naïve".to_string() });
    round_trip_request(Request::Retrieve { id: 0 });
    round_trip_request(Request::Retrieve { id: usize::MAX });
}

#[test]
fn responses_round_trip() {
    round_trip_response(Response::PublishSuccess(0));
    round_trip_response(Response::PublishSuccess(usize::MAX));
    round_trip_response(Response::SearchSuccess(vec![]));
    round_trip_response(Response::SearchSuccess(vec![0, 5, usize::MAX]));
    round_trip_response(Response::RetrieveSuccess(String::new()));
    round_trip_response(Response::RetrieveSuccess("quick brown fox".to_string()));
    round_trip_response(Response::Failure);
}

#[test]
fn malformed_requests_fail() {
    assert_eq!(Request::from_bytes(&[]), None);
    assert_eq!(Request::from_bytes(&[0x09, 0, 0, 0, 0, 0, 0, 0, 0]), None);
    // truncated length field
    assert_eq!(Request::from_bytes(&[0x01, 0, 0, 0]), None);
    // declared length longer than the text that follows
    assert_eq!(Request::from_bytes(&[0x01, 0, 0, 0, 0, 0, 0, 0, 5, b'h']), None);
    // trailing bytes after a whole frame
    assert_eq!(Request::from_bytes(&[0x03, 0, 0, 0, 0, 0, 0, 0, 1, 0]), None);
    // text that is not UTF-8
    assert_eq!(Request::from_bytes(&[0x02, 0, 0, 0, 0, 0, 0, 0, 1, 0xff]), None);
}

#[test]
fn malformed_responses_fail() {
    assert_eq!(Response::from_bytes(&[]), None);
    assert_eq!(Response::from_bytes(&[0x05]), None);
    assert_eq!(Response::from_bytes(&[0x04, 0]), None);
    assert_eq!(Response::from_bytes(&[0x01, 0, 0]), None);
    // count of two, one identifier
    assert_eq!(
        Response::from_bytes(&[0x02, 0, 0, 0, 0, 0, 0, 0, 2, 0, 0, 0, 0, 0, 0, 0, 1]),
        None
    );
    assert_eq!(Response::from_bytes(&[0x03, 0, 0, 0, 0, 0, 0, 0, 1, 0x80]), None);
}

#[test]
fn request_bytes_needed_walks_a_frame() {
    let bytes = Request::Publish { doc: "hi".to_string() }.to_bytes();
    assert_eq!(Request::bytes_needed(&bytes[..0]), Some(1));
    assert_eq!(Request::bytes_needed(&bytes[..1]), Some(8));
    assert_eq!(Request::bytes_needed(&bytes[..9]), Some(2));
    assert_eq!(Request::bytes_needed(&bytes), Some(0));
    assert_eq!(Request::bytes_needed(&[0x03, 0, 0]), Some(6));
    assert_eq!(Request::bytes_needed(&[0x07]), None);
    // a declared length over the bound is refused before it is read
    assert_eq!(
        Request::bytes_needed(&[0x01, 0xff, 0, 0, 0, 0, 0, 0, 0]),
        None
    );
}

#[test]
fn response_bytes_needed_walks_a_frame() {
    let bytes = Response::SearchSuccess(vec![3, 4]).to_bytes();
    assert_eq!(Response::bytes_needed(&bytes[..1]), Some(8));
    assert_eq!(Response::bytes_needed(&bytes[..9]), Some(16));
    assert_eq!(Response::bytes_needed(&bytes), Some(0));
    assert_eq!(Response::bytes_needed(&[0x04]), Some(0));
    assert_eq!(Response::bytes_needed(&[0x01, 0]), Some(7));
    assert_eq!(Response::bytes_needed(&[0x03, 0, 0, 0, 0, 0, 0, 0, 3]), Some(3));
    assert_eq!(Response::bytes_needed(&[0x00]), None);
}
