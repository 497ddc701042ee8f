use base64::prelude::{Engine, BASE64_STANDARD};
use nesso::payload_text::Base64Error;
use nesso::server::{find_queue, shutting_down_code, ApiError, PopAction, PopReply, PopRequest, PopResponse, PopSession, PushRequest, QueueListResponse, QueueSource, SyncQuery, Wake};
use nesso::storage::engine::{EngineError, ErrorKind};
use nesso::storage::record::{OpType, Record};

const SEC: u128 = 1_000_000_000;

fn answer(error: ApiError) -> (u16, String, String) {
    let (status, body) = error.into_response();
    (status, body.error, body.message)
}

#[test]
fn test_errors_and_their_answers() {
    let text = |s: &str| s.to_string();
    assert_eq!(answer(ApiError::NotFound(text("a"))), (404, text("not_found"), text("a")));
    assert_eq!(answer(ApiError::Conflict(text("b"))), (409, text("conflict"), text("b")));
    assert_eq!(answer(ApiError::BadRequest(text("c"))), (400, text("bad_request"), text("c")));
    assert_eq!(answer(ApiError::Internal(text("d"))), (500, text("internal_error"), text("d")));
}

#[test]
fn test_failures_of_the_engine_and_their_answers() {
    assert_eq!(
        answer(ApiError::from_engine(&EngineError::NotLeased)),
        (404, "not_found".to_string(), "Task not found or not leased".to_string())
    );
    assert_eq!(
        answer(ApiError::from_engine(&EngineError::LeasedToAnother)),
        (409, "conflict".to_string(), "Task leased to another consumer".to_string())
    );
    assert_eq!(answer(ApiError::from_engine(&EngineError::RecordNotFound)).0, 500);
    assert_eq!(answer(ApiError::from_engine(&EngineError::AppendFailed)).0, 500);
    assert_eq!(answer(ApiError::from_kind(ErrorKind::InvalidData, "x".to_string())).0, 500);
}

#[test]
fn test_looking_for_a_queue() {
    assert_eq!(find_queue("q", true, false).unwrap(), QueueSource::Open);
    assert_eq!(find_queue("q", true, true).unwrap(), QueueSource::Open);
    assert_eq!(find_queue("q", false, true).unwrap(), QueueSource::OnDisk);
    assert_eq!(
        answer(find_queue("orders", false, false).unwrap_err()),
        (404, "not_found".to_string(), "Queue 'orders' not found".to_string())
    );
}

fn push(payload: &str) -> PushRequest {
    PushRequest { payload: payload.to_string(), priority: 5 }
}

#[test]
fn test_payload_of_a_push() {
    let payload = BASE64_STANDARD.encode(b"hello_nesso_http");
    assert_eq!(push(&payload).payload_bytes().unwrap(), b"hello_nesso_http");
    assert_eq!(push("").payload_bytes().unwrap(), b"");
    assert_eq!(push("aGk=").payload_bytes().unwrap(), b"hi");
}

#[test]
fn test_payloads_that_are_not_base64() {
    for text in ["aGk", "aG!k", "a", "aGl=", "====", "aGk=x", "\u{e4}bcd"] {
        let complaint = BASE64_STANDARD.decode(text).unwrap_err();
        assert_eq!(
            answer(push(text).payload_bytes().unwrap_err()),
            (400, "bad_request".to_string(), format!("Invalid base64 payload: {}", complaint))
        );
    }
}

#[test]
fn test_base64_complaints() {
    assert_eq!(
        Base64Error::InvalidByte { offset: 2, byte: 33 }.message(),
        "Invalid symbol 33, offset 2."
    );
    assert_eq!(Base64Error::InvalidLength { length: 1 }.message(), "Invalid input length: 1");
    assert_eq!(
        Base64Error::InvalidLastSymbol { offset: 10, byte: 120 }.message(),
        "Invalid last symbol 120, offset 10."
    );
    assert_eq!(Base64Error::InvalidPadding.message(), "Invalid padding");
}

#[test]
fn test_answer_with_a_task() {
    let record = Record::new(7, OpType::Created, 9, vec![0, 1, 2, 250, 255]);
    let response = PopResponse::new(&record, 2);
    assert_eq!((response.id, response.priority, response.retries), (7, 9, 2));
    assert_eq!(response.payload, "AAEC+v8=");
    assert_eq!(push(&response.payload).payload_bytes().unwrap(), record.payload());
}

#[test]
fn test_every_payload_comes_back_from_its_text() {
    for len in 0..100usize {
        let payload: Vec<u8> = (0..len).map(|i| (i * 37 + len) as u8).collect();
        let record = Record::new(1, OpType::Created, 0, payload.clone());
        let text = PopResponse::new(&record, 0).payload;
        assert_eq!(text, BASE64_STANDARD.encode(&payload));
        assert_eq!(push(&text).payload_bytes().unwrap(), payload);
    }
}

#[test]
fn test_queues_are_listed_in_order() {
    let names = ["beta", "alpha", "Zeta", "alpha2", "", "\u{fc}ber", "alpha"];
    let list = QueueListResponse::new(names.iter().map(|s| s.to_string()).collect());
    assert_eq!(list.queues, vec!["", "Zeta", "alpha", "alpha", "alpha2", "beta", "\u{fc}ber"]);
}

#[test]
fn test_sync_is_off_by_default() {
    assert!(!SyncQuery::default().sync);
}

fn session(wait_secs: u64) -> PopSession {
    PopSession::new(&PopRequest { consumer_id: 42, lease_secs: 10, wait_secs })
}

fn status(action: &PopAction) -> Option<u16> {
    match action {
        PopAction::Reply(reply) => Some(reply.status()),
        _ => None,
    }
}

#[test]
fn test_pop_on_an_empty_queue_without_waiting() {
    let mut pop = session(0);
    assert!(matches!(pop.arrived(false), PopAction::FindQueue));
    assert!(matches!(pop.queue_ready(false, 5 * SEC), PopAction::TryPop));
    assert_eq!(status(&pop.popped(None, 5 * SEC)), Some(204));
}

#[test]
fn test_pop_on_a_missing_queue() {
    assert_eq!(status(&session(0).queue_missing()), Some(204));
    assert!(matches!(session(1).queue_missing(), PopAction::CreateQueue));
}

#[test]
fn test_pop_hands_out_a_task() {
    let mut pop = session(3);
    pop.queue_ready(false, 0);
    let record = Record::new(1, OpType::Created, 1, b"woken_up_task".to_vec());
    match pop.popped(Some((&record, 1)), 10 * SEC) {
        PopAction::Reply(PopReply::Task(response)) => {
            assert_eq!((response.id, response.retries), (1, 1));
            assert_eq!(BASE64_STANDARD.decode(&response.payload).unwrap(), b"woken_up_task");
        }
        action => panic!("unexpected action {:?}", action),
    }
}

#[test]
fn test_long_poll_waits_and_is_woken() {
    let mut pop = session(3);
    assert!(matches!(pop.queue_ready(false, SEC), PopAction::TryPop));
    match pop.popped(None, 2 * SEC) {
        PopAction::WaitUntil(end) => assert_eq!(end, 4 * SEC),
        action => panic!("unexpected action {:?}", action),
    }
    assert!(matches!(pop.woken(Wake::Notified, false), PopAction::TryPop));
    assert_eq!(status(&pop.popped(None, 4 * SEC)), Some(204));
    assert_eq!(status(&pop.woken(Wake::TimedOut, false)), Some(204));
}

#[test]
fn test_shutdown_answers_every_waiting_request() {
    let mut pop = session(3);
    assert_eq!(status(&pop.arrived(true)), Some(503));
    assert_eq!(status(&pop.queue_ready(true, 0)), Some(503));
    assert_eq!(status(&pop.woken(Wake::ShutDown, true)), Some(503));
    assert_eq!(status(&pop.woken(Wake::Notified, true)), Some(503));
    assert_eq!(shutting_down_code(), "server_shutting_down");
}
