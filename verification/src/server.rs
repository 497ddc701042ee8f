//! The decisions of the HTTP front end.
//!
//! The program around the library talks HTTP and JSON. Here stands what it
//! answers: the bodies of requests and responses, the errors and their status
//! codes, where a queue is looked for, and how a request for a task waits.

use crate::payload_text::{base64_decoded, base64_encoded, decode_base64, encode_base64, fits_as_text, Base64Error};
use crate::storage::engine::{EngineError, ErrorKind};
use crate::storage::record::Record;
use vstd::prelude::*;

verus! {

pub const STATUS_OK: u16 = 200;

pub const STATUS_CREATED: u16 = 201;

pub const STATUS_NO_CONTENT: u16 = 204;

pub const STATUS_BAD_REQUEST: u16 = 400;

pub const STATUS_NOT_FOUND: u16 = 404;

pub const STATUS_CONFLICT: u16 = 409;

pub const STATUS_INTERNAL_SERVER_ERROR: u16 = 500;

pub const STATUS_SERVICE_UNAVAILABLE: u16 = 503;

/// The nanoseconds of a second.
pub const NANOS_PER_SEC: u128 = 1_000_000_000;

/// Whether an operation is to be synced before it is answered.
#[derive(Debug, Clone, Copy, PartialEq, Eq, Structural)]
pub struct SyncQuery {
    pub sync: bool,
}

impl Default for SyncQuery {
    fn default() -> (query: Self)
        ensures
            !query.sync,
    {
        SyncQuery { sync: false }
    }
}

#[derive(Debug)]
pub struct PushRequest {
    /// The payload in base64.
    pub payload: String,
    pub priority: u8,
}

#[derive(Debug, Clone, Copy, PartialEq, Eq, Structural)]
pub struct PushResponse {
    pub id: u64,
}

#[derive(Debug, Clone, Copy, PartialEq, Eq, Structural)]
pub struct PopRequest {
    pub consumer_id: u32,
    pub lease_secs: u64,
    /// How long the request waits for a task. Zero does not wait.
    pub wait_secs: u64,
}

#[derive(Debug, Clone, Copy, PartialEq, Eq, Structural)]
pub struct CompactResponse {
    pub compacted: bool,
}

#[derive(Debug)]
pub struct PopResponse {
    pub id: u64,
    /// The payload in base64.
    pub payload: String,
    pub priority: u8,
    pub retries: u8,
}

#[derive(Debug, Clone, Copy, PartialEq, Eq, Structural)]
pub struct AckNackRequest {
    pub consumer_id: u32,
}

#[derive(Debug, Clone, Copy, PartialEq, Eq, Structural)]
pub struct QueueStatusResponse {
    pub ready_tasks: usize,
    pub active_leases: usize,
}

#[derive(Debug)]
pub struct QueueListResponse {
    pub queues: Vec<String>,
}

#[derive(Debug)]
pub struct ErrorResponse {
    pub error: String,
    pub message: String,
}

/// Why a request failed, with a message for the caller.
#[derive(Debug)]
pub enum ApiError {
    NotFound(String),
    Conflict(String),
    BadRequest(String),
    Internal(String),
}

/// The value of an [`ApiError`].
#[verifier::ext_equal]
pub enum ApiErrorView {
    NotFound(Seq<char>),
    Conflict(Seq<char>),
    BadRequest(Seq<char>),
    Internal(Seq<char>),
}

impl View for ApiError {
    type V = ApiErrorView;

    open spec fn view(&self) -> ApiErrorView {
        match self {
            ApiError::NotFound(message) => ApiErrorView::NotFound(message@),
            ApiError::Conflict(message) => ApiErrorView::Conflict(message@),
            ApiError::BadRequest(message) => ApiErrorView::BadRequest(message@),
            ApiError::Internal(message) => ApiErrorView::Internal(message@),
        }
    }
}

impl ApiErrorView {
    pub open spec fn status(self) -> u16 {
        match self {
            ApiErrorView::NotFound(_) => STATUS_NOT_FOUND,
            ApiErrorView::Conflict(_) => STATUS_CONFLICT,
            ApiErrorView::BadRequest(_) => STATUS_BAD_REQUEST,
            ApiErrorView::Internal(_) => STATUS_INTERNAL_SERVER_ERROR,
        }
    }

    pub open spec fn code(self) -> Seq<char> {
        match self {
            ApiErrorView::NotFound(_) => "not_found"@,
            ApiErrorView::Conflict(_) => "conflict"@,
            ApiErrorView::BadRequest(_) => "bad_request"@,
            ApiErrorView::Internal(_) => "internal_error"@,
        }
    }

    pub open spec fn message(self) -> Seq<char> {
        match self {
            ApiErrorView::NotFound(message) => message,
            ApiErrorView::Conflict(message) => message,
            ApiErrorView::BadRequest(message) => message,
            ApiErrorView::Internal(message) => message,
        }
    }
}

/// The error that a failure of a kind is answered with.
pub open spec fn error_of(kind: ErrorKind, message: Seq<char>) -> ApiErrorView {
    match kind {
        ErrorKind::NotFound => ApiErrorView::NotFound(message),
        ErrorKind::PermissionDenied => ApiErrorView::Conflict(message),
        _ => ApiErrorView::Internal(message),
    }
}

/// The message for a queue that is not there.
pub open spec fn not_found_message(name: Seq<char>) -> Seq<char> {
    "Queue '"@ + name + "' not found"@
}

/// The message for a payload that is not base64.
pub open spec fn invalid_payload_message(e: Base64Error) -> Seq<char> {
    "Invalid base64 payload: "@ + e.message_spec()
}

impl ApiError {
    /// The status code and the body of the answer.
    pub fn into_response(self) -> (response: (u16, ErrorResponse))
        ensures
            response.0 == self@.status(),
            response.1.error@ == self@.code(),
            response.1.message@ == self@.message(),
    {
        let (status, error, message) = match self {
            ApiError::NotFound(message) => (STATUS_NOT_FOUND, "not_found", message),
            ApiError::Conflict(message) => (STATUS_CONFLICT, "conflict", message),
            ApiError::BadRequest(message) => (STATUS_BAD_REQUEST, "bad_request", message),
            ApiError::Internal(message) => (
                STATUS_INTERNAL_SERVER_ERROR,
                "internal_error",
                message,
            ),
        };
        (status, ErrorResponse { error: String::from_str(error), message })
    }

    /// The error that a failure of a kind is answered with. What is not there is
    /// not found, what somebody else holds is a conflict, and everything else is
    /// an error of the server.
    pub fn from_kind(kind: ErrorKind, message: String) -> (error: ApiError)
        ensures
            error@ == error_of(kind, message@),
    {
        match kind {
            ErrorKind::NotFound => ApiError::NotFound(message),
            ErrorKind::PermissionDenied => ApiError::Conflict(message),
            _ => ApiError::Internal(message),
        }
    }

    /// The error that a refusal of the engine is answered with.
    pub fn from_engine(e: &EngineError) -> (error: ApiError)
        ensures
            error@ == error_of(e.kind_spec(), e.message_spec()),
    {
        ApiError::from_kind(e.kind(), String::from_str(e.message()))
    }

    /// The error for a queue that is not there.
    pub fn queue_not_found(name: &str) -> (error: ApiError)
        ensures
            error@ == ApiErrorView::NotFound(not_found_message(name@)),
    {
        let mut message = String::from_str("Queue '");
        message.append(name);
        message.append("' not found");
        ApiError::NotFound(message)
    }

    /// The error for a payload that is not base64.
    pub fn invalid_payload(e: &Base64Error) -> (error: ApiError)
        ensures
            error@ == ApiErrorView::BadRequest(invalid_payload_message(*e)),
    {
        let mut message = String::from_str("Invalid base64 payload: ");
        let why = e.message();
        message.append(why.as_str());
        ApiError::BadRequest(message)
    }
}

/// Where a queue is.
#[derive(Debug, Clone, Copy, PartialEq, Eq, Structural)]
pub enum QueueSource {
    /// It is open.
    Open,
    /// It is on disk, and is to be opened.
    OnDisk,
}

/// Looks for a queue. A queue exists if it is open or has a directory.
pub fn find_queue(name: &str, is_open: bool, on_disk: bool) -> (result: Result<
    QueueSource,
    ApiError,
>)
    ensures
        match result {
            Ok(source) => source == (if is_open {
                QueueSource::Open
            } else {
                QueueSource::OnDisk
            }) && (is_open || on_disk),
            Err(e) => !is_open && !on_disk && e@ == ApiErrorView::NotFound(
                not_found_message(name@),
            ),
        },
{
    if is_open {
        Ok(QueueSource::Open)
    } else if on_disk {
        Ok(QueueSource::OnDisk)
    } else {
        Err(ApiError::queue_not_found(name))
    }
}

impl PushRequest {
    /// The payload that is to be pushed.
    pub fn payload_bytes(&self) -> (result: Result<Vec<u8>, ApiError>)
        ensures
            match result {
                Ok(payload) => base64_decoded(self.payload@) == Ok::<_, Base64Error>(payload@),
                Err(error) => base64_decoded(self.payload@) is Err && error@
                    == ApiErrorView::BadRequest(
                    invalid_payload_message(base64_decoded(self.payload@)->Err_0),
                ),
            },
    {
        match decode_base64(self.payload.as_str()) {
            Ok(payload) => Ok(payload),
            Err(e) => Err(ApiError::invalid_payload(&e)),
        }
    }
}

impl PopResponse {
    /// The answer that hands out a task.
    pub fn new(record: &Record, retries: u8) -> (response: Self)
        requires
            fits_as_text(record@.payload),
        ensures
            response.id == record@.id,
            response.payload@ == base64_encoded(record@.payload),
            base64_decoded(response.payload@) == Ok::<_, Base64Error>(record@.payload),
            response.priority == record@.priority,
            response.retries == retries,
    {
        PopResponse {
            id: record.id(),
            payload: encode_base64(record.payload()),
            priority: record.priority(),
            retries,
        }
    }
}

/// Whether a name comes before another: by the first character in which they
/// differ, and a name before its continuations.
pub open spec fn in_order(a: Seq<char>, b: Seq<char>) -> bool
    decreases a.len(),
{
    if a.len() == 0 {
        true
    } else if b.len() == 0 {
        false
    } else if a[0] != b[0] {
        a[0] < b[0]
    } else {
        in_order(a.skip(1), b.skip(1))
    }
}

/// The names of a list.
pub open spec fn names_of(names: Seq<String>) -> Seq<Seq<char>> {
    names.map_values(|name: String| name@)
}

/// Calls `sort` on a vector of strings. It keeps the strings and puts them in
/// the order of their characters.
#[verifier::external_body]
fn sort_names(names: &mut Vec<String>)
    ensures
        names_of(final(names)@).to_multiset() == names_of(old(names)@).to_multiset(),
        forall|i: int, j: int|
            0 <= i < j < final(names)@.len() ==> in_order(
                #[trigger] final(names)@[i]@,
                #[trigger] final(names)@[j]@,
            ),
{
    names.sort();
}

impl QueueListResponse {
    /// The answer that lists the queues, in order of their names.
    pub fn new(names: Vec<String>) -> (response: Self)
        ensures
            names_of(response.queues@).to_multiset() == names_of(names@).to_multiset(),
            forall|i: int, j: int|
                0 <= i < j < response.queues@.len() ==> in_order(
                    #[trigger] response.queues@[i]@,
                    #[trigger] response.queues@[j]@,
                ),
    {
        let mut queues = names;
        sort_names(&mut queues);
        QueueListResponse { queues }
    }
}

/// The answer to a request for a task.
#[derive(Debug)]
pub enum PopReply {
    /// The server is shutting down.
    ShuttingDown,
    /// No task came in time.
    NoContent,
    Task(PopResponse),
}

impl PopReply {
    pub open spec fn status_spec(self) -> u16 {
        match self {
            PopReply::ShuttingDown => STATUS_SERVICE_UNAVAILABLE,
            PopReply::NoContent => STATUS_NO_CONTENT,
            PopReply::Task(_) => STATUS_OK,
        }
    }

    pub fn status(&self) -> (status: u16)
        ensures
            status == self.status_spec(),
    {
        match self {
            PopReply::ShuttingDown => STATUS_SERVICE_UNAVAILABLE,
            PopReply::NoContent => STATUS_NO_CONTENT,
            PopReply::Task(_) => STATUS_OK,
        }
    }
}

/// The error code of the answer while the server is shutting down.
pub fn shutting_down_code() -> (code: &'static str)
    ensures
        code@ == "server_shutting_down"@,
{
    "server_shutting_down"
}

/// What is to be done next for a request for a task.
#[derive(Debug)]
pub enum PopAction {
    /// Look for the queue.
    FindQueue,
    /// Create the queue.
    CreateQueue,
    /// Start listening for new tasks, then try to take a task.
    TryPop,
    /// Wait until a task may have come, until the server shuts down, or until
    /// this time.
    WaitUntil(u128),
    /// Answer.
    Reply(PopReply),
}

/// Why a wait is over.
#[derive(Debug, Clone, Copy, PartialEq, Eq, Structural)]
pub enum Wake {
    /// A task may have come.
    Notified,
    /// The time is up.
    TimedOut,
    /// The server is shutting down.
    ShutDown,
}

/// A request for a task, from its arrival to its answer. Times are nanoseconds
/// since a moment that the program chooses once.
#[derive(Debug, Clone, Copy, PartialEq, Eq, Structural)]
pub struct PopSession {
    wait_secs: u64,
    deadline: Option<u128>,
}

/// The value of a [`PopSession`].
pub struct PopSessionView {
    pub wait_secs: u64,
    /// When the request stops waiting. There is none before the queue has been
    /// found, nor for a request that does not wait.
    pub deadline: Option<u128>,
}

impl PopSessionView {
    /// What is done when the queue is not there.
    pub open spec fn without_queue(self) -> PopAction {
        if self.wait_secs == 0 {
            PopAction::Reply(PopReply::NoContent)
        } else {
            PopAction::CreateQueue
        }
    }

    /// The session once the queue is there.
    pub open spec fn with_queue(self, now: u128) -> PopSessionView {
        PopSessionView {
            deadline: if self.wait_secs == 0 {
                None
            } else {
                Some((now + self.wait_secs * NANOS_PER_SEC) as u128)
            },
            ..self
        }
    }

    /// What is done when there was no task.
    pub open spec fn without_task(self, now: u128) -> PopAction {
        match self.deadline {
            Some(deadline) => if now >= deadline {
                PopAction::Reply(PopReply::NoContent)
            } else {
                PopAction::WaitUntil(deadline)
            },
            None => PopAction::Reply(PopReply::NoContent),
        }
    }
}

impl View for PopSession {
    type V = PopSessionView;

    closed spec fn view(&self) -> PopSessionView {
        PopSessionView { wait_secs: self.wait_secs, deadline: self.deadline }
    }
}

impl PopSession {
    pub fn new(request: &PopRequest) -> (session: Self)
        ensures
            session@ == (PopSessionView { wait_secs: request.wait_secs, deadline: None }),
    {
        PopSession { wait_secs: request.wait_secs, deadline: None }
    }

    /// The request has arrived.
    pub fn arrived(&self, shutting_down: bool) -> (action: PopAction)
        ensures
            action == (if shutting_down {
                PopAction::Reply(PopReply::ShuttingDown)
            } else {
                PopAction::FindQueue
            }),
    {
        if shutting_down {
            PopAction::Reply(PopReply::ShuttingDown)
        } else {
            PopAction::FindQueue
        }
    }

    /// The queue is not there. A request that waits creates it, so that it can
    /// wait for the first task.
    pub fn queue_missing(&self) -> (action: PopAction)
        ensures
            action == self@.without_queue(),
    {
        if self.wait_secs == 0 {
            PopAction::Reply(PopReply::NoContent)
        } else {
            PopAction::CreateQueue
        }
    }

    /// The queue has been found or created. From now on the time counts.
    pub fn queue_ready(&mut self, shutting_down: bool, now: u128) -> (action: PopAction)
        requires
            now + old(self)@.wait_secs * NANOS_PER_SEC <= u128::MAX,
        ensures
            final(self)@ == old(self)@.with_queue(now),
            action == (if shutting_down {
                PopAction::Reply(PopReply::ShuttingDown)
            } else {
                PopAction::TryPop
            }),
    {
        if self.wait_secs > 0 {
            self.deadline = Some(now + self.wait_secs as u128 * NANOS_PER_SEC);
        } else {
            self.deadline = None;
        }
        if shutting_down {
            PopAction::Reply(PopReply::ShuttingDown)
        } else {
            PopAction::TryPop
        }
    }

    /// A task has been taken, or there was none.
    pub fn popped(&self, task: Option<(&Record, u8)>, now: u128) -> (action: PopAction)
        requires
            task is Some ==> fits_as_text((task->0).0@.payload),
        ensures
            match task {
                Some((record, retries)) => {
                    &&& action is Reply
                    &&& action->Reply_0 is Task
                    &&& ({
                        let response = (action->Reply_0)->Task_0;
                        &&& response.id == record@.id
                        &&& response.payload@ == base64_encoded(record@.payload)
                        &&& base64_decoded(response.payload@) == Ok::<_, Base64Error>(
                            record@.payload,
                        )
                        &&& response.priority == record@.priority
                        &&& response.retries == retries
                    })
                },
                None => action == self@.without_task(now),
            },
    {
        match task {
            Some((record, retries)) => PopAction::Reply(
                PopReply::Task(PopResponse::new(record, retries)),
            ),
            None => match self.deadline {
                Some(deadline) => {
                    if now >= deadline {
                        PopAction::Reply(PopReply::NoContent)
                    } else {
                        PopAction::WaitUntil(deadline)
                    }
                },
                None => PopAction::Reply(PopReply::NoContent),
            },
        }
    }

    /// A wait is over.
    pub fn woken(&self, wake: Wake, shutting_down: bool) -> (action: PopAction)
        ensures
            action == match wake {
                Wake::ShutDown => PopAction::Reply(PopReply::ShuttingDown),
                Wake::TimedOut => PopAction::Reply(PopReply::NoContent),
                Wake::Notified => if shutting_down {
                    PopAction::Reply(PopReply::ShuttingDown)
                } else {
                    PopAction::TryPop
                },
            },
    {
        match wake {
            Wake::ShutDown => PopAction::Reply(PopReply::ShuttingDown),
            Wake::TimedOut => PopAction::Reply(PopReply::NoContent),
            Wake::Notified => {
                if shutting_down {
                    PopAction::Reply(PopReply::ShuttingDown)
                } else {
                    PopAction::TryPop
                }
            },
        }
    }
}

/// Only a request that waits creates a queue, and only such a request waits. It
/// waits no longer than it said, counted from the moment at which the queue was
/// there, and is then answered that there is nothing.
pub proof fn law_a_request_waits_as_long_as_it_said(
    session: PopSessionView,
    found: u128,
    now: u128,
)
    requires
        found + session.wait_secs * NANOS_PER_SEC <= u128::MAX,
    ensures
        session.without_queue() is CreateQueue <==> session.wait_secs > 0,
        ({
            let action = session.with_queue(found).without_task(now);
            let end = found + session.wait_secs * NANOS_PER_SEC;
            if session.wait_secs > 0 && now < end {
                action == PopAction::WaitUntil(end as u128)
            } else {
                action == PopAction::Reply(PopReply::NoContent)
            }
        }),
{
}

/// Every error is answered with the status code and the error code of its kind, and
/// with its message.
pub proof fn law_errors_are_answered_by_kind(message: Seq<char>)
    ensures
        ({
            let e = ApiErrorView::NotFound(message);
            e.status() == 404 && e.code() == "not_found"@ && e.message() == message
        }),
        ({
            let e = ApiErrorView::Conflict(message);
            e.status() == 409 && e.code() == "conflict"@ && e.message() == message
        }),
        ({
            let e = ApiErrorView::BadRequest(message);
            e.status() == 400 && e.code() == "bad_request"@ && e.message() == message
        }),
        ({
            let e = ApiErrorView::Internal(message);
            e.status() == 500 && e.code() == "internal_error"@ && e.message() == message
        }),
{
}

/// A failure of the storage is answered by its kind: with 404 if something is not there,
/// with 409 if another consumer holds the task, and with 500 otherwise.
pub proof fn law_failures_are_answered_by_kind(kind: ErrorKind, message: Seq<char>)
    ensures
        error_of(kind, message).message() == message,
        error_of(kind, message).status() == 404 <==> kind == ErrorKind::NotFound,
        error_of(kind, message).status() == 409 <==> kind == ErrorKind::PermissionDenied,
        error_of(kind, message).status() == 500 <==> kind == ErrorKind::InvalidData || kind
            == ErrorKind::Io,
{
}

/// The messages name the queue, or what is wrong with the payload.
pub proof fn law_messages_name_the_cause(name: Seq<char>, e: Base64Error)
    ensures
        not_found_message(name) == "Queue '"@ + name + "' not found"@,
        invalid_payload_message(e) == "Invalid base64 payload: "@ + e.message_spec(),
{
}

/// A request for a task is answered with 200 if it gets one, with 204 if there is none,
/// and with 503 while the server is shutting down.
pub proof fn law_requests_are_answered_by_outcome(reply: PopReply)
    ensures
        reply.status_spec() == 200 <==> reply is Task,
        reply.status_spec() == 204 <==> reply is NoContent,
        reply.status_spec() == 503 <==> reply is ShuttingDown,
{
}

/// A request waits for as many seconds as it said, counted from the moment at which the
/// queue was there. Until then it goes on waiting for that moment, and from then on it
/// is answered that there is nothing. A request that does not wait is answered at once.
pub proof fn law_waiting_is_counted_in_seconds(session: PopSessionView, found: u128, now: u128)
    requires
        found + session.wait_secs * 1_000_000_000 <= u128::MAX,
    ensures
        ({
            let ready = session.with_queue(found);
            let action = ready.without_task(now);
            &&& ready.wait_secs == session.wait_secs
            &&& session.wait_secs == 0 ==> ready.deadline is None && action == PopAction::Reply(
                PopReply::NoContent,
            )
            &&& session.wait_secs > 0 ==> {
                &&& ready.deadline is Some
                &&& ready.deadline->0 == found + session.wait_secs * 1_000_000_000
                &&& now - found >= session.wait_secs * 1_000_000_000 ==> action
                    == PopAction::Reply(PopReply::NoContent)
                &&& now - found < session.wait_secs * 1_000_000_000 ==> action
                    == PopAction::WaitUntil(ready.deadline->0)
            }
            &&& session.wait_secs == 0 ==> session.without_queue() == PopAction::Reply(
                PopReply::NoContent,
            )
            &&& session.wait_secs > 0 ==> session.without_queue() is CreateQueue
        }),
{
}

} // verus!
