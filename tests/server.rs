use ngram::message::Request;
use ngram::message::Response;
use ngram::server::process_message;
use ngram::server::Server;
use ngram::server::ServerState;

#[test]
fn process_message_serves_each_request() {
    let mut db = ngram::database::Database::new();
    let db = &mut db;
    assert_eq!(
        process_message(db, Request::Publish { doc: "Hello world".to_string() }),
        Response::PublishSuccess(0)
    );
    assert_eq!(
        process_message(db, Request::Search { word: "HELLO".to_string() }),
        Response::SearchSuccess(vec![0])
    );
    assert_eq!(
        process_message(db, Request::Retrieve { id: 0 }),
        Response::RetrieveSuccess("Hello world".to_string())
    );
    assert_eq!(
        process_message(db, Request::Retrieve { id: 5 }),
        Response::Failure
    );
}

#[test]
fn handle_request_answers_frames_only() {
    let mut state = ServerState::new();
    let publish = Request::Publish { doc: "a b".to_string() }.to_bytes();
    assert_eq!(
        state.handle_request(&publish),
        Some(Response::PublishSuccess(0).to_bytes())
    );
    let search = Request::Search { word: "B".to_string() }.to_bytes();
    assert_eq!(
        state.handle_request(&search),
        Some(Response::SearchSuccess(vec![0]).to_bytes())
    );
    assert_eq!(state.handle_request(&[0x01, 0, 0]), None);
    assert_eq!(state.handle_request(&[0x09]), None);
    assert_eq!(state.database().len(), 1);
    let retrieve = Request::Retrieve { id: 3 }.to_bytes();
    assert_eq!(
        state.handle_request(&retrieve),
        Some(Response::Failure.to_bytes())
    );
}

#[test]
fn stop_sets_the_flag() {
    let mut server = Server::new();
    assert!(!server.is_stopped());
    assert!(!server.state().is_stopped());
    assert_eq!(server.state().database().len(), 0);
    server.stop();
    assert!(server.is_stopped());
    assert!(server.state().is_stopped());
}
