//! The registration session client.
//!
//! A client is bound to a single server-side registration session,
//! identified by a URL-safe session ID. It keeps a semi-persistent chat
//! connection underneath: requests are pipelined one at a time, transient
//! connect failures are retried under a bounded backoff, and the session
//! state reported by the server is kept as the last word.

use vstd::prelude::*;
use vstd::utf8::encode_utf8;

use crate::chat::{ChatRequest, ChatResponse};
use crate::errors::{ChatConnectError, SendError};
use crate::outcome::OutcomeParams;
use crate::session_json::{parse_session_json, spec_session_json, RegistrationResponse};

verus! {

/// Whether a byte may appear in a session ID: letters, digits, `-` and
/// `_` — the URL-safe alphabet.
pub open spec fn spec_url_safe(b: u8) -> bool {
    (48 <= b <= 57) || (65 <= b <= 90) || (97 <= b <= 122) || b == 45 || b == 95
}

/// Checks one byte against the URL-safe alphabet.
pub fn url_safe(b: u8) -> (r: bool)
    ensures
        r == spec_url_safe(b),
{
    (48 <= b && b <= 57) || (65 <= b && b <= 90) || (97 <= b && b <= 122) || b == 45 || b == 95
}

/// A validated server session identifier: a nonempty URL-safe string.
#[derive(Debug, PartialEq, Eq)]
pub struct SessionId {
    bytes: Vec<u8>,
}

impl Clone for SessionId {
    fn clone(&self) -> (r: Self)
        ensures
            r@ == self@,
    {
        SessionId { bytes: crate::chat::clone_bytes(&self.bytes) }
    }
}

impl View for SessionId {
    type V = Seq<u8>;

    closed spec fn view(&self) -> Seq<u8> {
        self.bytes@
    }
}

/// Whether a byte sequence is a well-formed session ID.
pub open spec fn spec_session_id_wf(s: Seq<u8>) -> bool {
    s.len() >= 1 && forall|i: int| 0 <= i < s.len() ==> spec_url_safe(#[trigger] s[i])
}

/// The session ID was not a nonempty URL-safe string.
#[derive(Clone, Copy, Debug, PartialEq, Eq, Structural)]
pub struct InvalidSessionId;

impl SessionId {
    /// Validates a byte string as a session ID: accepted exactly when it
    /// is nonempty and entirely URL-safe.
    pub fn parse(bytes: Vec<u8>) -> (r: Result<SessionId, InvalidSessionId>)
        ensures
            match r {
                Result::Ok(id) => id@ == bytes@ && spec_session_id_wf(bytes@),
                Result::Err(_) => !spec_session_id_wf(bytes@),
            },
    {
        let n = bytes.len();
        if n == 0 {
            return Result::Err(InvalidSessionId);
        }
        let mut i: usize = 0;
        while i < n
            invariant
                n == bytes@.len(),
                i <= n,
                forall|k: int| 0 <= k < i ==> spec_url_safe(#[trigger] bytes@[k]),
            decreases n - i,
        {
            if !url_safe(bytes[i]) {
                return Result::Err(InvalidSessionId);
            }
            i = i + 1;
        }
        Result::Ok(SessionId { bytes })
    }

    /// Validates a text session ID.
    pub fn from_text(s: &str) -> (r: Result<SessionId, InvalidSessionId>)
        ensures
            match r {
                Result::Ok(id) => id@ == encode_utf8(s@) && spec_session_id_wf(encode_utf8(s@)),
                Result::Err(_) => !spec_session_id_wf(encode_utf8(s@)),
            },
    {
        Self::parse(crate::chat::bytes_of_str(s))
    }

    /// The identifier's bytes.
    pub fn as_bytes(&self) -> (r: &Vec<u8>)
        ensures
            r@ == self@,
    {
        &self.bytes
    }

    /// Well-formedness of the held identifier; every constructor
    /// establishes it.
    pub open spec fn wf(self) -> bool {
        spec_session_id_wf(self@)
    }
}

/// The server-reported summary of a registration session.
#[derive(Clone, Copy, Debug, PartialEq, Eq, Structural)]
pub struct RegistrationSession {
    pub allowed_to_request_code: bool,
    pub verified: bool,
}

impl Default for RegistrationSession {
    /// A fresh summary: nothing allowed, nothing verified.
    fn default() -> (r: Self)
        ensures
            r == (RegistrationSession { allowed_to_request_code: false, verified: false }),
    {
        RegistrationSession { allowed_to_request_code: false, verified: false }
    }
}

/// The parameters of a new-session request: the E.164 phone number.
#[derive(Debug, PartialEq, Eq)]
pub struct CreateSession {
    pub number: String,
}

impl Clone for CreateSession {
    fn clone(&self) -> (r: Self)
        ensures
            r.number == self.number,
    {
        CreateSession { number: self.number.clone() }
    }
}

impl Default for CreateSession {
    /// A blank request: the number must be filled in before use.
    fn default() -> (r: Self)
        ensures
            r.number@ == Seq::<char>::empty(),
    {
        CreateSession { number: String::new() }
    }
}

/// Bytes that may stand unescaped inside a JSON string: no quote, no
/// backslash, no control bytes.
pub open spec fn spec_json_plain(s: Seq<u8>) -> bool {
    forall|i: int| 0 <= i < s.len() ==> 32 <= #[trigger] s[i] && s[i] != 34 && s[i] != 92
}

/// The JSON body of a new-session request: `{"number":"<number>"}`.
pub open spec fn spec_create_session_body(number: Seq<char>) -> Seq<u8> {
    encode_utf8("{\"number\":\""@) + encode_utf8(number) + encode_utf8("\"}"@)
}

/// Appends a byte slice.
pub fn append_bytes(out: &mut Vec<u8>, b: &[u8])
    ensures
        final(out)@ == old(out)@ + b@,
{
    let n = b.len();
    let mut i: usize = 0;
    while i < n
        invariant
            n == b@.len(),
            i <= n,
            out@ == old(out)@ + b@.subrange(0, i as int),
        decreases n - i,
    {
        out.push(b[i]);
        proof {
            assert(out@ =~= old(out)@ + b@.subrange(0, i + 1 as int));
        }
        i = i + 1;
    }
    proof {
        assert(b@.subrange(0, n as int) =~= b@);
    }
}

/// Appends a string's bytes.
pub fn append_str(out: &mut Vec<u8>, s: &str)
    ensures
        final(out)@ == old(out)@ + encode_utf8(s@),
{
    let b = s.as_bytes();
    append_bytes(out, b);
}

/// Builds the request that creates a new registration session:
/// `POST /v1/verification/session` with the JSON body carrying the number
/// and a `content-type: application/json` header.
pub fn create_session_request(cs: &CreateSession) -> (r: ChatRequest)
    ensures
        r.method@ == "POST"@,
        r.path@ == "/v1/verification/session"@,
        r.headers@.len() == 1,
        r.headers@[0]@ == "content-type: application/json"@,
        match r.body {
            Option::Some(b) => b@ == spec_create_session_body(cs.number@),
            Option::None => false,
        },
{
    let mut body: Vec<u8> = Vec::new();
    append_str(&mut body, "{\"number\":\"");
    append_str(&mut body, cs.number.as_str());
    append_str(&mut body, "\"}");
    let mut headers: Vec<String> = Vec::new();
    headers.push("content-type: application/json".to_owned());
    proof {
        assert(body@ =~= spec_create_session_body(cs.number@));
    }
    ChatRequest {
        method: "POST".to_owned(),
        path: "/v1/verification/session".to_owned(),
        body: Option::Some(body),
        headers,
    }
}

/// Relies on std's `String::from_utf8`: it accepts exactly the valid
/// UTF-8 byte strings, and the returned string's UTF-8 encoding is the
/// input, byte for byte.
#[verifier::external_body]
fn string_from_utf8_bytes(v: Vec<u8>) -> (r: Option<String>)
    ensures
        match r {
            Option::Some(s) => encode_utf8(s@) == v@,
            Option::None => !vstd::utf8::valid_utf8(v@),
        },
{
    String::from_utf8(v).ok()
}

/// Every all-ASCII byte string is valid UTF-8, one scalar per byte.
pub proof fn lemma_ascii_valid_utf8(bytes: Seq<u8>)
    requires
        forall|i: int| 0 <= i < bytes.len() ==> #[trigger] bytes[i] < 128,
    ensures
        vstd::utf8::valid_utf8(bytes),
    decreases bytes.len(),
{
    if bytes.len() != 0 {
        let b = bytes[0];
        assert(vstd::utf8::is_leading_byte_width_1(b));
        assert(vstd::utf8::length_of_first_codepoint(bytes) == 1);
        let cp = vstd::utf8::decode_first_codepoint(bytes);
        assert(cp == vstd::utf8::leading_bits_width_1(b));
        assert((b & 0x7f) as u32 <= 0x7f) by (bit_vector);
        assert(vstd::utf8::valid_first_scalar(bytes));
        let rest = vstd::utf8::pop_first_scalar(bytes);
        assert(rest =~= bytes.subrange(1, bytes.len() as int));
        assert forall|i: int| 0 <= i < rest.len() implies #[trigger] rest[i] < 128 by {
            assert(bytes[i + 1] < 128);
        }
        lemma_ascii_valid_utf8(rest);
    }
}

/// Turns a session ID back into text: its bytes are URL-safe ASCII, which
/// is always valid UTF-8.
pub fn session_id_text(session_id: &SessionId) -> (r: String)
    requires
        session_id.wf(),
    ensures
        encode_utf8(r@) == session_id@,
{
    proof {
        assert forall|i: int| 0 <= i < session_id@.len() implies #[trigger] session_id@[i]
            < 128 by {
            assert(spec_url_safe(session_id@[i]));
        }
        lemma_ascii_valid_utf8(session_id@);
    }
    match string_from_utf8_bytes(crate::chat::clone_bytes(session_id.as_bytes())) {
        Option::Some(s) => s,
        Option::None => unreached(),
    }
}

/// Builds the request that resumes a previous session:
/// `GET /v1/verification/session/<id>` with no body and no headers.
pub fn resume_session_request(session_id: &SessionId) -> (r: ChatRequest)
    requires
        session_id.wf(),
    ensures
        r.method@ == "GET"@,
        encode_utf8(r.path@) == encode_utf8("/v1/verification/session/"@) + session_id@,
        r.body is None,
        r.headers@.len() == 0,
{
    let prefix = "/v1/verification/session/";
    let mut path = prefix.to_owned();
    let id_text = session_id_text(session_id);
    path.append(id_text.as_str());
    proof {
        lemma_encode_utf8_concat(prefix@, id_text@);
    }
    ChatRequest { method: "GET".to_owned(), path, body: Option::None, headers: Vec::new() }
}

/// UTF-8 encoding distributes over concatenation.
pub proof fn lemma_encode_utf8_concat(a: Seq<char>, b: Seq<char>)
    ensures
        encode_utf8(a + b) == encode_utf8(a) + encode_utf8(b),
    decreases a.len(),
{
    if a.len() == 0 {
        assert(a + b =~= b);
        assert(encode_utf8(a) =~= Seq::<u8>::empty());
        assert(encode_utf8(a) + encode_utf8(b) =~= encode_utf8(b));
    } else {
        lemma_encode_utf8_concat(a.drop_first(), b);
        assert((a + b).drop_first() =~= a.drop_first() + b);
        assert((a + b)[0] == a[0]);
        assert(encode_utf8(a + b) =~= encode_utf8(a) + encode_utf8(b)) by {
            assert(encode_utf8(a + b) == vstd::utf8::encode_scalar((a + b)[0] as u32) + encode_utf8(
                (a + b).drop_first(),
            ));
            assert(encode_utf8(a) == vstd::utf8::encode_scalar(a[0] as u32) + encode_utf8(
                a.drop_first(),
            ));
        }
    }
}

} // verus!

verus! {

/// A request-level failure surfaced to the caller of the registration
/// client.
#[derive(Debug, PartialEq, Eq)]
pub enum RequestError {
    /// The per-request timer elapsed.
    Timeout,
    /// An unclassified failure, with a human-readable message.
    Unknown(String),
    /// The server asks for a delay, in seconds, before the next attempt.
    RetryLater { retry_after_s: u64 },
    /// The server's response did not carry a well-formed session payload.
    UnexpectedResponse,
}

/// A connect failure that ends the reconnect loop.
#[derive(Clone, Copy, Debug, PartialEq, Eq, Structural)]
pub enum FatalConnectError {
    /// The chat client was misconfigured at the call site.
    InvalidConfiguration,
    /// The server asked for a delay before the next attempt.
    RetryLater { retry_after_s: u64 },
    /// The unauthenticated socket signalled that the client version is
    /// sunset, which should not arise here.
    UnexpectedAppExpired,
    /// The unauthenticated socket signalled deregistration, which should
    /// not arise here.
    UnexpectedDeviceDeregistered,
}

/// Maps a fatal connect failure to the error the caller sees.
pub fn request_error_of_fatal(f: &FatalConnectError) -> (r: RequestError)
    ensures
        match *f {
            FatalConnectError::InvalidConfiguration => r matches RequestError::Unknown(m)
                && m@ == "invalid chat client configuration"@,
            FatalConnectError::RetryLater { retry_after_s } => r == (RequestError::RetryLater {
                retry_after_s,
            }),
            FatalConnectError::UnexpectedAppExpired => r matches RequestError::Unknown(m)
                && m@ == "unexpected error: unauthenticated socket signaled app expired"@,
            FatalConnectError::UnexpectedDeviceDeregistered => r matches RequestError::Unknown(m)
                && m@ == "unexpected error: unauthenticated socket signaled deregistration"@,
        },
{
    match f {
        FatalConnectError::InvalidConfiguration => RequestError::Unknown(
            "invalid chat client configuration".to_owned(),
        ),
        FatalConnectError::RetryLater { retry_after_s } => RequestError::RetryLater {
            retry_after_s: *retry_after_s,
        },
        FatalConnectError::UnexpectedAppExpired => RequestError::Unknown(
            "unexpected error: unauthenticated socket signaled app expired".to_owned(),
        ),
        FatalConnectError::UnexpectedDeviceDeregistered => RequestError::Unknown(
            "unexpected error: unauthenticated socket signaled deregistration".to_owned(),
        ),
    }
}

/// The backoff tuning for reconnecting the notional chat transport:
/// one-minute age cutoff, x1.5 cooldown growth, x10 growth for very
/// recent failures, five counted failures at most, 30-second ceiling.
pub fn chat_connect_delay_params() -> (r: OutcomeParams)
    ensures
        r == (OutcomeParams {
            age_cutoff_ms: 60000,
            cooldown_growth_permille: 1500,
            count_growth_permille: 10000,
            max_count: 5,
            max_delay_ms: 30000,
        }),
        r.wf(),
{
    OutcomeParams {
        age_cutoff_ms: 60000,
        cooldown_growth_permille: 1500,
        count_growth_permille: 10000,
        max_count: 5,
        max_delay_ms: 30000,
    }
}

/// Whether a connect failure is worth another attempt.
pub open spec fn spec_transient(e: ChatConnectError) -> bool {
    match e {
        ChatConnectError::Timeout => true,
        ChatConnectError::AllAttemptsFailed => true,
        ChatConnectError::WebSocket(_) => true,
        _ => false,
    }
}

/// The fatal error a non-transient connect failure turns into.
pub open spec fn spec_fatal_of(e: ChatConnectError) -> FatalConnectError {
    match e {
        ChatConnectError::InvalidConnectionConfiguration => FatalConnectError::InvalidConfiguration,
        ChatConnectError::RetryLater { retry_after_s } => FatalConnectError::RetryLater {
            retry_after_s,
        },
        ChatConnectError::AppExpired => FatalConnectError::UnexpectedAppExpired,
        ChatConnectError::DeviceDeregistered => FatalConnectError::UnexpectedDeviceDeregistered,
        _ => FatalConnectError::InvalidConfiguration,
    }
}

/// Consecutive-failure memory of the reconnect loop.
#[derive(Clone, Copy, Debug, PartialEq, Eq, Structural)]
pub struct ConnectRetryState {
    pub failure_count: u8,
    pub last_failure_at_ms: Option<u64>,
}

impl ConnectRetryState {
    /// A fresh reconnect loop: no failures yet.
    pub fn new() -> (r: ConnectRetryState)
        ensures
            r == (ConnectRetryState { failure_count: 0, last_failure_at_ms: Option::None }),
    {
        ConnectRetryState { failure_count: 0, last_failure_at_ms: Option::None }
    }
}

/// What the reconnect loop does after one failed connect attempt.
#[derive(Clone, Copy, Debug, PartialEq, Eq, Structural)]
pub enum RetryDecision {
    /// Stop and surface this fatal error.
    GiveUp(FatalConnectError),
    /// Sleep this long, then try again.
    RetryAfter { delay_ms: u64 },
}

/// Decides what to do after one failed connect attempt, as the reconnect
/// loop does: configuration errors, server retry hints and unexpected
/// server signals end the loop; timeouts, exhausted races and transport
/// errors are retried after the backoff delay computed from the failure
/// count and the time since the previous failure (a first failure counts
/// as infinitely old history). A retried failure bumps the counter,
/// saturating, and stamps the failure time.
pub fn connect_failure_decision(
    state: &mut ConnectRetryState,
    err: &ChatConnectError,
    now_ms: u64,
) -> (r: RetryDecision)
    ensures
        !spec_transient(*err) ==> r == RetryDecision::GiveUp(spec_fatal_of(*err)) && *final(state)
            == *old(state),
        spec_transient(*err) ==> {
            let since = match old(state).last_failure_at_ms {
                Option::Some(t) => if now_ms >= t {
                    (now_ms - t) as u64
                } else {
                    0
                },
                Option::None => u64::MAX,
            };
            &&& r == (RetryDecision::RetryAfter {
                delay_ms: chat_connect_delay_params_spec().spec_delay(
                    since,
                    old(state).failure_count,
                ),
            })
            &&& final(state).failure_count == (if old(state).failure_count == u8::MAX {
                u8::MAX
            } else {
                (old(state).failure_count + 1) as u8
            })
            &&& final(state).last_failure_at_ms == Option::<u64>::Some(now_ms)
        },
{
    match err {
        ChatConnectError::InvalidConnectionConfiguration => RetryDecision::GiveUp(
            FatalConnectError::InvalidConfiguration,
        ),
        ChatConnectError::RetryLater { retry_after_s } => RetryDecision::GiveUp(
            FatalConnectError::RetryLater { retry_after_s: *retry_after_s },
        ),
        ChatConnectError::AppExpired => RetryDecision::GiveUp(
            FatalConnectError::UnexpectedAppExpired,
        ),
        ChatConnectError::DeviceDeregistered => RetryDecision::GiveUp(
            FatalConnectError::UnexpectedDeviceDeregistered,
        ),
        ChatConnectError::Timeout | ChatConnectError::AllAttemptsFailed
            | ChatConnectError::WebSocket(_) => {
            let params = chat_connect_delay_params();
            let since = match state.last_failure_at_ms {
                Option::Some(t) => if now_ms >= t {
                    now_ms - t
                } else {
                    0
                },
                Option::None => u64::MAX,
            };
            let delay_ms = params.compute_delay(since, state.failure_count);
            state.failure_count = if state.failure_count == u8::MAX {
                u8::MAX
            } else {
                state.failure_count + 1
            };
            state.last_failure_at_ms = Option::Some(now_ms);
            RetryDecision::RetryAfter { delay_ms }
        },
    }
}

/// The backoff tuning, as a spec value.
pub open spec fn chat_connect_delay_params_spec() -> OutcomeParams {
    OutcomeParams {
        age_cutoff_ms: 60000,
        cooldown_growth_permille: 1500,
        count_growth_permille: 10000,
        max_count: 5,
        max_delay_ms: 30000,
    }
}

/// How one scripted reconnect run ends.
#[derive(Clone, Copy, Debug, PartialEq, Eq, Structural)]
pub enum ConnectRunResult {
    /// The attempt with this 1-based ordinal connected.
    Connected { attempts: usize },
    /// A fatal failure ended the loop.
    GaveUp(FatalConnectError),
    /// The script ran out with every attempt failing transiently.
    ScriptEnded,
}

/// Runs the reconnect decision loop against a script of connect outcomes
/// (`None` is a successful connect, `Some(e)` a failure): the loop
/// connects on the first success, retries transient failures, and stops
/// on the first fatal one.
pub fn connect_with_retry(outcomes: &Vec<Option<ChatConnectError>>, start_ms: u64) -> (r:
    ConnectRunResult)
    ensures
        match r {
            ConnectRunResult::Connected { attempts } => {
                &&& 1 <= attempts <= outcomes@.len()
                &&& outcomes@[attempts - 1] is None
                &&& forall|j: int|
                    0 <= j < attempts - 1 ==> ((#[trigger] outcomes@[j]) matches Option::Some(e)
                        && spec_transient(e))
            },
            ConnectRunResult::GaveUp(f) => exists|k: int|
                0 <= k < outcomes@.len() && ((#[trigger] outcomes@[k]) matches Option::Some(e)
                    && !spec_transient(e) && f == spec_fatal_of(e)) && (forall|j: int|
                    0 <= j < k ==> ((#[trigger] outcomes@[j]) matches Option::Some(e2)
                        && spec_transient(e2))),
            ConnectRunResult::ScriptEnded => forall|j: int|
                0 <= j < outcomes@.len() ==> ((#[trigger] outcomes@[j]) matches Option::Some(e)
                    && spec_transient(e)),
        },
{
    let mut state = ConnectRetryState::new();
    let mut now_ms = start_ms;
    let n = outcomes.len();
    let mut k: usize = 0;
    while k < n
        invariant
            n == outcomes@.len(),
            k <= n,
            forall|j: int|
                0 <= j < k ==> ((#[trigger] outcomes@[j]) matches Option::Some(e)
                    && spec_transient(e)),
        decreases n - k,
    {
        match &outcomes[k] {
            Option::None => {
                return ConnectRunResult::Connected { attempts: k + 1 };
            },
            Option::Some(err) => {
                match connect_failure_decision(&mut state, err, now_ms) {
                    RetryDecision::GiveUp(f) => {
                        proof {
                            assert((#[trigger] outcomes@[k as int]) matches Option::Some(e)
                                && !spec_transient(e) && f == spec_fatal_of(e));
                        }
                        return ConnectRunResult::GaveUp(f);
                    },
                    RetryDecision::RetryAfter { delay_ms } => {
                        now_ms = crate::racer::sat_add(now_ms, delay_ms);
                    },
                }
            },
        }
        k = k + 1;
    }
    ConnectRunResult::ScriptEnded
}

/// How one attempt to send a request over a (possibly fresh) chat
/// connection ended.
#[derive(Debug)]
pub enum SendAttemptOutcome {
    /// The response arrived.
    Delivered(ChatResponse),
    /// The connection went away before the response; reconnect and retry.
    ConnectionLost,
    /// The per-request timer elapsed.
    RequestTimedOut,
    /// An unclassified failure, with its message.
    Unknown(String),
}

/// Whether a send attempt makes the loop try again.
pub open spec fn spec_send_retries(o: SendAttemptOutcome) -> bool {
    o is ConnectionLost
}

/// The index of the first attempt that is not a lost connection, or the
/// script's length when every attempt lost the connection.
pub open spec fn spec_first_conclusive(s: Seq<SendAttemptOutcome>) -> int
    decreases s.len(),
{
    if s.len() == 0 {
        0
    } else if !(s[0] is ConnectionLost) {
        0
    } else {
        1 + spec_first_conclusive(s.drop_first())
    }
}

proof fn lemma_first_conclusive_at(s: Seq<SendAttemptOutcome>, k: int)
    requires
        0 <= k <= s.len(),
        forall|j: int| 0 <= j < k ==> (#[trigger] s[j]) is ConnectionLost,
        k < s.len() ==> !(s[k] is ConnectionLost),
    ensures
        spec_first_conclusive(s) == k,
    decreases k,
{
    if k == 0 {
    } else {
        assert(s[0] is ConnectionLost);
        assert forall|j: int| 0 <= j < k - 1 implies (#[trigger] s.drop_first()[j])
            is ConnectionLost by {
            assert(s[j + 1] is ConnectionLost);
        }
        if k < s.len() {
            assert(s.drop_first()[k - 1] == s[k]);
        }
        lemma_first_conclusive_at(s.drop_first(), k - 1);
    }
}

/// Runs the request pipeline's decision loop against a script of send
/// attempts: a lost connection means reconnect and resend, and exactly
/// the first conclusive attempt decides — a delivered response is
/// returned as is, a timed-out request surfaces as `Timeout`, an
/// unclassified failure surfaces with its message. A script that never
/// concludes leaves the loop still waiting; it is reported as a timeout.
pub fn send_request_loop(outcomes: Vec<SendAttemptOutcome>) -> (r: Result<
    ChatResponse,
    RequestError,
>)
    ensures
        ({
            let k = spec_first_conclusive(outcomes@);
            if k < outcomes@.len() {
                match outcomes@[k] {
                    SendAttemptOutcome::Delivered(resp) => r matches Result::Ok(got) && got
                        == resp,
                    SendAttemptOutcome::RequestTimedOut => (r matches Result::Err(e) && e
                        is Timeout),
                    SendAttemptOutcome::Unknown(m) => (r matches Result::Err(e) && (e
                        matches RequestError::Unknown(m2) && m2 == m)),
                    SendAttemptOutcome::ConnectionLost => false,
                }
            } else {
                r matches Result::Err(e) && e is Timeout
            }
        }),
{
    let mut rest = outcomes;
    let n = rest.len();
    let mut k: usize = 0;
    let ghost all = rest@;
    while k < n
        invariant
            all == outcomes@,
            n == all.len(),
            rest@ == all.skip(k as int),
            k <= n,
            forall|j: int| 0 <= j < k ==> (#[trigger] all[j]) is ConnectionLost,
        decreases n - k,
    {
        let head = rest.remove(0);
        proof {
            assert(all.skip(k as int)[0] == all[k as int]);
            assert(rest@ =~= all.skip(k + 1 as int));
        }
        match head {
            SendAttemptOutcome::Delivered(resp) => {
                proof {
                    lemma_first_conclusive_at(all, k as int);
                }
                return Result::Ok(resp);
            },
            SendAttemptOutcome::ConnectionLost => {},
            SendAttemptOutcome::RequestTimedOut => {
                proof {
                    lemma_first_conclusive_at(all, k as int);
                }
                return Result::Err(RequestError::Timeout);
            },
            SendAttemptOutcome::Unknown(m) => {
                proof {
                    lemma_first_conclusive_at(all, k as int);
                }
                return Result::Err(RequestError::Unknown(m));
            },
        }
        k = k + 1;
    }
    proof {
        lemma_first_conclusive_at(all, n as int);
    }
    Result::Err(RequestError::Timeout)
}

/// Classifies what one send attempt over a (possibly fresh) connection
/// produced, the way the request pipeline treats it: a dropped connection
/// is retried, everything else concludes the request, unclassified
/// failures with their descriptive message.
pub fn classify_send_result(r: Result<ChatResponse, SendError>) -> (o: SendAttemptOutcome)
    ensures
        match r {
            Result::Ok(resp) => o == SendAttemptOutcome::Delivered(resp),
            Result::Err(SendError::Disconnected) => o is ConnectionLost,
            Result::Err(SendError::RequestTimedOut) => o is RequestTimedOut,
            Result::Err(SendError::WebSocket) => (o matches SendAttemptOutcome::Unknown(m) && m@
                == "websocket error"@),
            Result::Err(SendError::IncomingDataInvalid) => (o matches SendAttemptOutcome::Unknown(
                m,
            ) && m@ == "received invalid response"@),
            Result::Err(SendError::RequestHasInvalidHeader) => (o
                matches SendAttemptOutcome::Unknown(m) && m@ == "request had invalid header"@),
        },
{
    match r {
        Result::Ok(resp) => SendAttemptOutcome::Delivered(resp),
        Result::Err(SendError::Disconnected) => SendAttemptOutcome::ConnectionLost,
        Result::Err(SendError::RequestTimedOut) => SendAttemptOutcome::RequestTimedOut,
        Result::Err(SendError::WebSocket) => SendAttemptOutcome::Unknown(
            "websocket error".to_owned(),
        ),
        Result::Err(SendError::IncomingDataInvalid) => SendAttemptOutcome::Unknown(
            "received invalid response".to_owned(),
        ),
        Result::Err(SendError::RequestHasInvalidHeader) => SendAttemptOutcome::Unknown(
            "request had invalid header".to_owned(),
        ),
    }
}

} // verus!

verus! {

/// Interprets a chat response as a session payload: a success status
/// (2xx) whose body is the canonical session JSON. Anything else is an
/// unexpected response.
pub fn process_session_response(resp: &ChatResponse) -> (r: Result<
    RegistrationResponse,
    RequestError,
>)
    ensures
        match r {
            Result::Ok(rr) => {
                &&& rr.wf()
                &&& 200 <= resp.status < 300
                &&& (resp.body matches Option::Some(b) && b@ == spec_session_json(rr))
            },
            Result::Err(e) => e == RequestError::UnexpectedResponse,
        },
        !(200 <= resp.status < 300) ==> r is Err,
        resp.body is None ==> r is Err,
        // Success is owed: every 2xx response whose body is the canonical
        // encoding of a well-formed payload is accepted.
        forall|rr: RegistrationResponse|
            rr.wf() && 200 <= resp.status < 300 && (resp.body matches Option::Some(b) && b@
                == spec_session_json(rr)) ==> r is Ok,
{
    if resp.status < 200 || resp.status >= 300 {
        return Result::Err(RequestError::UnexpectedResponse);
    }
    match &resp.body {
        Option::None => Result::Err(RequestError::UnexpectedResponse),
        Option::Some(b) => match parse_session_json(b.as_slice()) {
            Option::None => Result::Err(RequestError::UnexpectedResponse),
            Option::Some(rr) => Result::Ok(rr),
        },
    }
}

/// A client bound to one registration session: the validated session ID
/// and the last server-reported session summary.
#[derive(Debug)]
pub struct RegistrationService {
    session_id: SessionId,
    session: RegistrationSession,
}

impl RegistrationService {
    /// The bytes of the bound session identifier.
    pub closed spec fn spec_session_id(self) -> Seq<u8> {
        self.session_id@
    }

    /// The last server-reported session summary.
    pub closed spec fn spec_session(self) -> RegistrationSession {
        self.session
    }

    /// The bound identifier is always well formed.
    pub open spec fn wf(self) -> bool {
        spec_session_id_wf(self.spec_session_id())
    }

    /// Builds the service from the successful response to a create- or
    /// resume-session request: the service is bound to the session ID the
    /// server reported, and its session state equals the session the
    /// server reported, exactly.
    pub fn from_session_response(resp: &ChatResponse) -> (r: Result<
        RegistrationService,
        RequestError,
    >)
        ensures
            match r {
                Result::Ok(svc) => {
                    &&& svc.wf()
                    &&& 200 <= resp.status < 300
                    &&& exists|rr: RegistrationResponse|
                        {
                            &&& (resp.body matches Option::Some(b) && b@ == #[trigger] spec_session_json(rr))
                            &&& svc.spec_session() == rr.session
                            &&& svc.spec_session_id() == rr.session_id@
                        }
                },
                Result::Err(e) => e == RequestError::UnexpectedResponse,
            },
            !(200 <= resp.status < 300) ==> r is Err,
            resp.body is None ==> r is Err,
            // Success is owed on every 2xx response carrying a canonical
            // well-formed payload.
            forall|rr: RegistrationResponse|
                rr.wf() && 200 <= resp.status < 300 && (resp.body matches Option::Some(b) && b@
                    == spec_session_json(rr)) ==> r is Ok,
    {
        let rr = match process_session_response(resp) {
            Result::Ok(rr) => rr,
            Result::Err(e) => {
                return Result::Err(e);
            },
        };
        let ghost grr = rr;
        let session = rr.session;
        match SessionId::parse(rr.session_id) {
            Result::Ok(session_id) => {
                let svc = RegistrationService { session_id, session };
                proof {
                    assert((resp.body matches Option::Some(b) && b@ == spec_session_json(grr))
                        && svc.spec_session() == grr.session && svc.spec_session_id()
                        == grr.session_id@);
                }
                Result::Ok(svc)
            },
            Result::Err(_) => unreached(),
        }
    }

    /// Builds the service from the successful response to a
    /// resume-session request: the service stays bound to the identifier
    /// the caller resumed — the response's own identifier is ignored —
    /// and its session state equals the session the server reported.
    pub fn from_resume_response(session_id: SessionId, resp: &ChatResponse) -> (r: Result<
        RegistrationService,
        RequestError,
    >)
        requires
            session_id.wf(),
        ensures
            match r {
                Result::Ok(svc) => {
                    &&& svc.wf()
                    &&& svc.spec_session_id() == session_id@
                    &&& 200 <= resp.status < 300
                    &&& exists|rr: RegistrationResponse|
                        {
                            &&& (resp.body matches Option::Some(b) && b@ == #[trigger] spec_session_json(rr))
                            &&& svc.spec_session() == rr.session
                        }
                },
                Result::Err(e) => e == RequestError::UnexpectedResponse,
            },
            !(200 <= resp.status < 300) ==> r is Err,
            resp.body is None ==> r is Err,
            // Success is owed on every 2xx response carrying a canonical
            // well-formed payload.
            forall|rr: RegistrationResponse|
                rr.wf() && 200 <= resp.status < 300 && (resp.body matches Option::Some(b) && b@
                    == spec_session_json(rr)) ==> r is Ok,
    {
        match process_session_response(resp) {
            Result::Ok(rr) => {
                let ghost grr = rr;
                let svc = RegistrationService { session_id, session: rr.session };
                proof {
                    assert((resp.body matches Option::Some(b) && b@ == spec_session_json(grr))
                        && svc.spec_session() == grr.session);
                }
                Result::Ok(svc)
            },
            Result::Err(e) => Result::Err(e),
        }
    }

    /// The server identifier for the bound session.
    pub fn session_id(&self) -> (r: &SessionId)
        ensures
            r@ == self.spec_session_id(),
    {
        &self.session_id
    }

    /// The last known server-reported state of the session.
    pub fn session_state(&self) -> (r: &RegistrationSession)
        ensures
            *r == self.spec_session(),
    {
        &self.session
    }

    /// Applies the successful response to a session-scoped request: the
    /// saved session state becomes the session the server reported; the
    /// bound identifier never changes. On an unexpected response nothing
    /// changes.
    pub fn apply_session_response(&mut self, resp: &ChatResponse) -> (r: Result<(), RequestError>)
        requires
            old(self).wf(),
        ensures
            final(self).wf(),
            final(self).spec_session_id() == old(self).spec_session_id(),
            match r {
                Result::Ok(()) => {
                    &&& 200 <= resp.status < 300
                    &&& exists|rr: RegistrationResponse|
                        {
                            &&& (resp.body matches Option::Some(b) && b@ == #[trigger] spec_session_json(rr))
                            &&& final(self).spec_session() == rr.session
                        }
                },
                Result::Err(e) => e == RequestError::UnexpectedResponse && final(self).spec_session()
                    == old(self).spec_session(),
            },
    {
        match process_session_response(resp) {
            Result::Ok(rr) => {
                let ghost grr = rr;
                self.session = rr.session;
                proof {
                    assert((resp.body matches Option::Some(b) && b@ == spec_session_json(grr))
                        && self.spec_session() == grr.session);
                }
                Result::Ok(())
            },
            Result::Err(e) => Result::Err(e),
        }
    }
}

/// Builds a session-scoped request: the given method against
/// `/v1/verification/session/<id>`, with a JSON content-type header
/// exactly when a body is carried.
pub fn session_scoped_request(session_id: &SessionId, method: &str, body: Option<Vec<u8>>) -> (r:
    ChatRequest)
    requires
        session_id.wf(),
    ensures
        r.method@ == method@,
        encode_utf8(r.path@) == encode_utf8("/v1/verification/session/"@) + session_id@,
        crate::codec::opt_bytes_view(r.body) == crate::codec::opt_bytes_view(body),
        match body {
            Option::Some(_) => r.headers@.len() == 1 && r.headers@[0]@
                == "content-type: application/json"@,
            Option::None => r.headers@.len() == 0,
        },
{
    let prefix = "/v1/verification/session/";
    let mut path = prefix.to_owned();
    let id_text = session_id_text(session_id);
    path.append(id_text.as_str());
    proof {
        lemma_encode_utf8_concat(prefix@, id_text@);
    }
    let mut headers: Vec<String> = Vec::new();
    let has_body = match &body {
        Option::Some(_) => true,
        Option::None => false,
    };
    if has_body {
        headers.push("content-type: application/json".to_owned());
    }
    ChatRequest { method: method.to_owned(), path, body, headers }
}

} // verus!
