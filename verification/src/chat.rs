//! The request/response multiplexer over an established WebSocket
//! connection.
//!
//! Outgoing requests receive monotonically assigned 64-bit IDs in
//! submission order and are framed to wire bytes; incoming response frames
//! are matched to their request by ID. Malformed frames and mismatched IDs
//! surface as `IncomingDataInvalid`; requests whose headers the wire format
//! cannot carry are rejected before anything is sent.

use vstd::prelude::*;
use vstd::utf8::encode_utf8;

use crate::codec::{decode_response, encode_request, RequestFrame, ResponseFrame};
use crate::errors::SendError;

verus! {

/// Copies a byte buffer.
pub fn clone_bytes(v: &Vec<u8>) -> (r: Vec<u8>)
    ensures
        r@ == v@,
{
    let n = v.len();
    let mut out: Vec<u8> = Vec::new();
    let mut i: usize = 0;
    while i < n
        invariant
            n == v@.len(),
            i <= n,
            out@ == v@.subrange(0, i as int),
        decreases n - i,
    {
        out.push(v[i]);
        proof {
            assert(out@ =~= v@.subrange(0, i + 1 as int));
        }
        i = i + 1;
    }
    proof {
        assert(v@.subrange(0, n as int) =~= v@);
    }
    out
}

/// Copies an optional byte buffer.
pub fn clone_opt_bytes(v: &Option<Vec<u8>>) -> (r: Option<Vec<u8>>)
    ensures
        match (r, v) {
            (Option::Some(a), Option::Some(b)) => a@ == b@,
            (Option::None, Option::None) => true,
            _ => false,
        },
{
    match v {
        Option::Some(b) => Option::Some(clone_bytes(b)),
        Option::None => Option::None,
    }
}

/// Copies a list of strings, values kept.
pub fn clone_strings(v: &Vec<String>) -> (r: Vec<String>)
    ensures
        r@.len() == v@.len(),
        forall|i: int| 0 <= i < v@.len() ==> #[trigger] r@[i] == v@[i],
{
    let n = v.len();
    let mut out: Vec<String> = Vec::new();
    let mut i: usize = 0;
    while i < n
        invariant
            n == v@.len(),
            i <= n,
            out@.len() == i,
            forall|k: int| 0 <= k < i ==> #[trigger] out@[k] == v@[k],
        decreases n - i,
    {
        out.push(v[i].clone());
        i = i + 1;
    }
    out
}

/// The bytes of a string.
pub fn bytes_of_str(s: &str) -> (r: Vec<u8>)
    ensures
        r@ == encode_utf8(s@),
{
    let b = s.as_bytes();
    crate::codec::read_bytes(b, 0, b.len())
}

/// An HTTP-shaped request carried over the chat connection: method, path,
/// optional body, and `"Name: value"` header lines.
#[derive(Debug)]
pub struct ChatRequest {
    pub method: String,
    pub path: String,
    pub body: Option<Vec<u8>>,
    pub headers: Vec<String>,
}

impl Clone for ChatRequest {
    fn clone(&self) -> (r: Self)
        ensures
            r.method == self.method,
            r.path == self.path,
            match (r.body, self.body) {
                (Option::Some(a), Option::Some(b)) => a@ == b@,
                (Option::None, Option::None) => true,
                _ => false,
            },
            r.headers@.len() == self.headers@.len(),
            forall|i: int|
                0 <= i < self.headers@.len() ==> #[trigger] r.headers@[i] == self.headers@[i],
    {
        ChatRequest {
            method: self.method.clone(),
            path: self.path.clone(),
            body: clone_opt_bytes(&self.body),
            headers: clone_strings(&self.headers),
        }
    }
}

/// A response carried over the chat connection; fields other than the
/// status arrive as raw bytes.
#[derive(Debug, PartialEq, Eq)]
pub struct ChatResponse {
    pub status: u16,
    pub message: Option<Vec<u8>>,
    pub body: Option<Vec<u8>>,
    pub headers: Vec<Vec<u8>>,
}

/// Assigns request IDs monotonically, in submission order, and remembers
/// which requests still await their response.
pub struct RequestMux {
    next_id: u64,
    outstanding: Vec<u64>,
}

impl RequestMux {
    pub closed spec fn spec_next_id(self) -> u64 {
        self.next_id
    }

    pub closed spec fn outstanding_seq(self) -> Seq<u64> {
        self.outstanding@
    }

    /// Every outstanding ID was assigned earlier and no ID appears twice.
    pub open spec fn wf(self) -> bool {
        &&& forall|i: int|
            0 <= i < self.outstanding_seq().len() ==> #[trigger] self.outstanding_seq()[i]
                < self.spec_next_id()
        &&& forall|i: int, j: int|
            0 <= i < j < self.outstanding_seq().len() ==> self.outstanding_seq()[i]
                != self.outstanding_seq()[j]
    }

    /// A fresh multiplexer; the first request gets ID 0.
    pub fn new() -> (r: RequestMux)
        ensures
            r.wf(),
            r.spec_next_id() == 0,
            r.outstanding_seq().len() == 0,
    {
        RequestMux { next_id: 0, outstanding: Vec::new() }
    }

    /// Assigns the next ID to a submitted request. IDs are handed out in
    /// submission order, each exactly once.
    pub fn submit(&mut self) -> (id: u64)
        requires
            old(self).wf(),
            old(self).spec_next_id() < u64::MAX,
        ensures
            final(self).wf(),
            id == old(self).spec_next_id(),
            final(self).spec_next_id() == old(self).spec_next_id() + 1,
            final(self).outstanding_seq() == old(self).outstanding_seq().push(id),
    {
        let id = self.next_id;
        self.next_id = self.next_id + 1;
        self.outstanding.push(id);
        proof {
            let pre = old(self).outstanding_seq();
            assert(self.outstanding@ == pre.push(id));
            assert forall|k: int| 0 <= k < self.outstanding@.len() implies #[trigger] self
                .outstanding@[k] < self.next_id by {
                if k < pre.len() {
                    assert(pre[k] < old(self).spec_next_id());
                }
            }
            assert forall|a: int, b: int| 0 <= a < b < self.outstanding@.len() implies self
                .outstanding@[a] != self.outstanding@[b] by {
                if b == pre.len() {
                    assert(self.outstanding@[a] == pre[a]);
                    assert(pre[a] < id);
                } else {
                    assert(self.outstanding@[a] == pre[a]);
                    assert(self.outstanding@[b] == pre[b]);
                }
            }
        }
        id
    }

    /// Marks the request with `id` answered; reports whether it was
    /// outstanding at all.
    pub fn complete(&mut self, id: u64) -> (found: bool)
        requires
            old(self).wf(),
        ensures
            final(self).wf(),
            final(self).spec_next_id() == old(self).spec_next_id(),
            found == old(self).outstanding_seq().contains(id),
            !final(self).outstanding_seq().contains(id),
            forall|x: u64|
                x != id ==> final(self).outstanding_seq().contains(x) == old(
                    self,
                ).outstanding_seq().contains(x),
    {
        let n = self.outstanding.len();
        let mut i: usize = 0;
        while i < n
            invariant
                old(self) == self,
                old(self).wf(),
                n == self.outstanding_seq().len(),
                i <= n,
                forall|k: int| 0 <= k < i ==> #[trigger] self.outstanding_seq()[k] != id,
            decreases n - i,
        {
            if self.outstanding[i] == id {
                self.outstanding.remove(i);
                proof {
                    let pre = old(self).outstanding_seq();
                    let cur = self.outstanding@;
                    assert(pre[i as int] == id);
                    assert(pre.contains(id)) by {
                        assert(0 <= i < pre.len() && pre[i as int] == id);
                    }
                    assert(cur == pre.remove(i as int));
                    assert(cur.len() == pre.len() - 1);
                    assert forall|k: int| 0 <= k < cur.len() implies #[trigger] cur[k] == (if k
                        < i {
                        pre[k]
                    } else {
                        pre[k + 1]
                    }) by {
                        if k < i {
                            assert(pre.subrange(0, i as int)[k] == pre[k]);
                        } else {
                            assert(pre.subrange(i + 1, pre.len() as int)[k - i] == pre[k + 1]);
                        }
                    }
                    assert forall|k: int| 0 <= k < pre.len() && k != i implies pre[k] != id by {
                        let gi = i as int;
                        if k < i {
                            assert(old(self).outstanding_seq()[k] != old(self).outstanding_seq()[gi]);
                        } else {
                            assert(old(self).outstanding_seq()[gi] != old(self).outstanding_seq()[k]);
                        }
                    }
                    assert(!cur.contains(id)) by {
                        if cur.contains(id) {
                            let k = choose|k: int| 0 <= k < cur.len() && cur[k] == id;
                            if k < i {
                                assert(pre[k] == id);
                            } else {
                                assert(pre[k + 1] == id);
                                assert(k + 1 != i);
                            }
                            assert(false);
                        }
                    }
                    assert forall|x: u64| x != id implies cur.contains(x) == pre.contains(x) by {
                        if pre.contains(x) {
                            let k = choose|k: int| 0 <= k < pre.len() && pre[k] == x;
                            assert(k != i);
                            if k < i {
                                assert(cur[k] == x);
                                assert(cur.contains(x));
                            } else {
                                assert(cur[k - 1] == x);
                                assert(cur.contains(x));
                            }
                        } else {
                            if cur.contains(x) {
                                let k = choose|k: int| 0 <= k < cur.len() && cur[k] == x;
                                if k < i {
                                    assert(pre[k] == x);
                                    assert(pre.contains(x));
                                } else {
                                    assert(pre[k + 1] == x);
                                    assert(pre.contains(x));
                                }
                                assert(false);
                            }
                        }
                    }
                    assert forall|k: int| 0 <= k < cur.len() implies #[trigger] cur[k]
                        < self.next_id by {
                        if k < i {
                            assert(old(self).outstanding_seq()[k] < old(self).spec_next_id());
                        } else {
                            assert(old(self).outstanding_seq()[k + 1] < old(self).spec_next_id());
                        }
                    }
                    assert forall|a: int, b: int| 0 <= a < b < cur.len() implies cur[a]
                        != cur[b] by {
                        let a2: int = if a < i {
                            a
                        } else {
                            a + 1
                        };
                        let b2: int = if b < i {
                            b
                        } else {
                            b + 1
                        };
                        assert(cur[a] == pre[a2]);
                        assert(cur[b] == pre[b2]);
                        assert(a2 < b2);
                        assert(old(self).outstanding_seq()[a2] != old(self).outstanding_seq()[b2]);
                    }
                }
                return true;
            }
            i = i + 1;
        }
        proof {
            assert(!self.outstanding_seq().contains(id)) by {
                if self.outstanding_seq().contains(id) {
                    let k = choose|k: int|
                        0 <= k < self.outstanding_seq().len() && self.outstanding_seq()[k] == id;
                    assert(self.outstanding_seq()[k] != id);
                }
            }
        }
        false
    }
}

/// Frames an outgoing request: assigns the next ID and produces the
/// canonical wire bytes carrying the request's fields under that ID.
pub fn frame_request(req: &ChatRequest, mux: &mut RequestMux) -> (r: (Vec<u8>, u64))
    requires
        old(mux).wf(),
        old(mux).spec_next_id() < u64::MAX,
    ensures
        final(mux).wf(),
        r.1 == old(mux).spec_next_id(),
        final(mux).spec_next_id() == old(mux).spec_next_id() + 1,
        final(mux).outstanding_seq() == old(mux).outstanding_seq().push(r.1),
        ({
            let f = frame_of_request(*req, r.1);
            r.0@ == f
        }),
{
    let id = mux.submit();
    let verb = bytes_of_str(req.method.as_str());
    let path = bytes_of_str(req.path.as_str());
    let body = clone_opt_bytes(&req.body);
    let mut headers: Vec<Vec<u8>> = Vec::new();
    let n = req.headers.len();
    let mut i: usize = 0;
    while i < n
        invariant
            n == req.headers@.len(),
            i <= n,
            headers.deep_view().len() == i,
            forall|k: int|
                0 <= k < i ==> #[trigger] headers.deep_view()[k] == encode_utf8(req.headers@[k]@),
        decreases n - i,
    {
        let h = bytes_of_str(req.headers[i].as_str());
        let ghost old_dv = headers.deep_view();
        headers.push(h);
        proof {
            assert(headers@[i as int] == h);
            assert forall|k: int| 0 <= k < i + 1 implies #[trigger] headers.deep_view()[k]
                == encode_utf8(req.headers@[k]@) by {
                if k < i {
                    assert(headers.deep_view()[k] == old_dv[k]);
                } else {
                    assert(headers.deep_view()[k] =~= h@);
                }
            }
        }
        i = i + 1;
    }
    let f = RequestFrame { verb, path, body, headers, id };
    let bytes = encode_request(&f);
    proof {
        assert(f.headers.deep_view() =~= Seq::new(
            req.headers@.len(),
            |k: int| encode_utf8(req.headers@[k]@),
        ));
    }
    (bytes, id)
}

/// The wire encoding of a request under a given ID.
pub open spec fn frame_of_request(req: ChatRequest, id: u64) -> Seq<u8> {
    crate::codec::spec_request_bytes(
        encode_utf8(req.method@),
        encode_utf8(req.path@),
        crate::codec::opt_bytes_view(req.body),
        Seq::new(req.headers@.len(), |k: int| encode_utf8(req.headers@[k]@)),
        id,
    )
}

/// Interprets incoming wire bytes as the response to the request with
/// `expected_id`: the bytes must be a well-formed frame, its ID must match,
/// and its status must fit an HTTP status.
pub fn accept_response(bytes: &[u8], expected_id: u64) -> (r: Result<ChatResponse, SendError>)
    ensures
        match r {
            Result::Ok(resp) => exists|f: ResponseFrame|
                bytes@ == (#[trigger] f.wire()) && f.id == expected_id && f.status == resp.status
                    && crate::codec::opt_bytes_view(f.body) == crate::codec::opt_bytes_view(
                    resp.body,
                ),
            Result::Err(e) => e == SendError::IncomingDataInvalid,
        },
        // Success is owed: every canonical frame with the matching ID and
        // an HTTP-sized status is accepted.
        forall|f: ResponseFrame|
            bytes@ == (#[trigger] f.wire()) && f.id == expected_id && f.status <= 0xFFFF ==> r
                is Ok,
{
    match decode_response(bytes) {
        Option::None => Result::Err(SendError::IncomingDataInvalid),
        Option::Some(f) => {
            if f.id != expected_id || f.status > 0xFFFF {
                Result::Err(SendError::IncomingDataInvalid)
            } else {
                let ghost gf = f;
                let resp = ChatResponse {
                    status: f.status as u16,
                    message: f.message,
                    body: f.body,
                    headers: f.headers,
                };
                proof {
                    assert(bytes@ == gf.wire() && gf.id == expected_id && gf.status == resp.status
                        && crate::codec::opt_bytes_view(gf.body) == crate::codec::opt_bytes_view(
                        resp.body,
                    ));
                }
                Result::Ok(resp)
            }
        },
    }
}

/// Whether a header line can be carried on the wire: its bytes must
/// contain the `':'` separating name and value, with a nonempty name
/// before it.
pub open spec fn spec_header_valid(hb: Seq<u8>) -> bool {
    exists|i: int| 0 < i < hb.len() && hb[i] == 58u8
}

/// Checks one header line.
pub fn header_valid(h: &str) -> (r: bool)
    ensures
        r == spec_header_valid(encode_utf8(h@)),
{
    let b = h.as_bytes();
    let n = b.len();
    let mut i: usize = 1;
    while i < n
        invariant
            b@ == encode_utf8(h@),
            n == b@.len(),
            1 <= i,
            forall|k: int| 0 < k < i && k < n ==> b@[k] != 58u8,
        decreases n - i,
    {
        if b[i] == 58 {
            return true;
        }
        i = i + 1;
    }
    proof {
        if spec_header_valid(b@) {
            let k = choose|k: int| 0 < k < b@.len() && b@[k] == 58u8;
            assert(b@[k] != 58u8);
        }
    }
    false
}

/// Rejects a request carrying a header line the wire format cannot
/// represent.
pub fn validate_headers(req: &ChatRequest) -> (r: Result<(), SendError>)
    ensures
        match r {
            Result::Ok(()) => forall|i: int|
                0 <= i < req.headers@.len() ==> spec_header_valid(
                    encode_utf8((#[trigger] req.headers@[i])@),
                ),
            Result::Err(e) => e == SendError::RequestHasInvalidHeader && exists|i: int|
                0 <= i < req.headers@.len() && !spec_header_valid(
                    encode_utf8((#[trigger] req.headers@[i])@),
                ),
        },
{
    let n = req.headers.len();
    let mut i: usize = 0;
    while i < n
        invariant
            n == req.headers@.len(),
            i <= n,
            forall|k: int|
                0 <= k < i ==> spec_header_valid(encode_utf8((#[trigger] req.headers@[k])@)),
        decreases n - i,
    {
        if !header_valid(req.headers[i].as_str()) {
            return Result::Err(SendError::RequestHasInvalidHeader);
        }
        i = i + 1;
    }
    Result::Ok(())
}

} // verus!

verus! {

/// The position of the first colon in `s`, or its length when there is
/// none.
pub open spec fn spec_first_colon(s: Seq<u8>) -> int
    decreases s.len(),
{
    if s.len() == 0 {
        0
    } else if s[0] == 58 {
        0
    } else {
        1 + spec_first_colon(s.drop_first())
    }
}

proof fn lemma_first_colon_bounds(s: Seq<u8>)
    ensures
        0 <= spec_first_colon(s) <= s.len(),
        spec_first_colon(s) < s.len() ==> s[spec_first_colon(s)] == 58,
        forall|i: int| 0 <= i < spec_first_colon(s) ==> s[i] != 58,
    decreases s.len(),
{
    if s.len() > 0 && s[0] != 58 {
        lemma_first_colon_bounds(s.drop_first());
        let c = spec_first_colon(s);
        assert forall|i: int| 0 <= i < c implies s[i] != 58 by {
            if i > 0 {
                assert(s.drop_first()[i - 1] != 58);
            }
        }
        if c < s.len() {
            assert(s.drop_first()[c - 1] == 58);
        }
    }
}

/// `s` without its leading spaces.
pub open spec fn spec_trim_start(s: Seq<u8>) -> Seq<u8>
    decreases s.len(),
{
    if s.len() > 0 && s[0] == 32 {
        spec_trim_start(s.drop_first())
    } else {
        s
    }
}

/// `s` without its trailing spaces.
pub open spec fn spec_trim_end(s: Seq<u8>) -> Seq<u8>
    decreases s.len(),
{
    if s.len() > 0 && s.last() == 32 {
        spec_trim_end(s.drop_last())
    } else {
        s
    }
}

/// `s` without leading and trailing spaces.
pub open spec fn spec_trim(s: Seq<u8>) -> Seq<u8> {
    spec_trim_end(spec_trim_start(s))
}

proof fn lemma_trim_start_at(s: Seq<u8>, k: int)
    requires
        0 <= k <= s.len(),
        forall|j: int| 0 <= j < k ==> s[j] == 32,
        k == s.len() || s[k] != 32,
    ensures
        spec_trim_start(s) == s.skip(k),
    decreases k,
{
    if k == 0 {
        assert(s.skip(0) =~= s);
    } else {
        assert(s[0] == 32);
        assert forall|j: int| 0 <= j < k - 1 implies s.drop_first()[j] == 32 by {
            assert(s[j + 1] == 32);
        }
        lemma_trim_start_at(s.drop_first(), k - 1);
        assert(s.drop_first().skip(k - 1) =~= s.skip(k));
    }
}

proof fn lemma_trim_end_at(s: Seq<u8>, k: int)
    requires
        0 <= k <= s.len(),
        forall|j: int| k <= j < s.len() ==> s[j] == 32,
        k == 0 || s[k - 1] != 32,
    ensures
        spec_trim_end(s) == s.take(k),
    decreases s.len() - k,
{
    if k == s.len() {
        assert(s.take(k) =~= s);
    } else {
        assert(s.last() == 32);
        assert forall|j: int| k <= j < s.drop_last().len() implies s.drop_last()[j] == 32 by {
            assert(s[j] == 32);
        }
        lemma_trim_end_at(s.drop_last(), k);
        assert(s.drop_last().take(k) =~= s.take(k));
    }
}

/// Trims leading and trailing spaces.
pub fn trim_bytes(s: &[u8]) -> (r: Vec<u8>)
    ensures
        r@ == spec_trim(s@),
{
    let n = s.len();
    let mut start: usize = 0;
    while start < n && s[start] == 32
        invariant
            n == s@.len(),
            start <= n,
            forall|j: int| 0 <= j < start ==> s@[j] == 32,
        decreases n - start,
    {
        start = start + 1;
    }
    let mut end: usize = n;
    while end > start && s[end - 1] == 32
        invariant
            n == s@.len(),
            start <= end <= n,
            forall|j: int| end <= j < n ==> s@[j] == 32,
            forall|j: int| 0 <= j < start ==> s@[j] == 32,
            start == n || s@[start as int] != 32,
        decreases end,
    {
        end = end - 1;
    }
    let r = crate::codec::read_bytes(s, start, end - start);
    proof {
        lemma_trim_start_at(s@, start as int);
        let mid = s@.skip(start as int);
        assert forall|j: int| end - start <= j < mid.len() implies mid[j] == 32 by {
            assert(s@[start + j] == 32);
        }
        if end > start {
            assert(mid[end - start - 1] == s@[end - 1]);
        }
        lemma_trim_end_at(mid, end - start);
        assert(mid.take(end - start) =~= s@.subrange(start as int, end as int));
    }
    r
}

/// Splits a header line at its first colon into a trimmed name and a
/// trimmed value, the way incoming request headers are presented:
/// succeeds exactly when the line has a colon.
pub fn split_header_line(h: &[u8]) -> (r: Option<(Vec<u8>, Vec<u8>)>)
    ensures
        match r {
            Option::Some((name, value)) => {
                let c = spec_first_colon(h@);
                &&& c < h@.len()
                &&& name@ == spec_trim(h@.subrange(0, c))
                &&& value@ == spec_trim(h@.subrange(c + 1, h@.len() as int))
            },
            Option::None => forall|i: int| 0 <= i < h@.len() ==> h@[i] != 58,
        },
{
    let n = h.len();
    let mut c: usize = 0;
    while c < n && h[c] != 58
        invariant
            n == h@.len(),
            c <= n,
            forall|j: int| 0 <= j < c ==> h@[j] != 58,
        decreases n - c,
    {
        c = c + 1;
    }
    proof {
        lemma_first_colon_bounds(h@);
        if c < n {
            assert(spec_first_colon(h@) == c) by {
                if spec_first_colon(h@) < c {
                    assert(h@[spec_first_colon(h@)] != 58);
                } else if spec_first_colon(h@) > c {
                    assert(h@[c as int] != 58);
                }
            }
        }
    }
    if c >= n {
        return Option::None;
    }
    let name_part = crate::codec::read_bytes(h, 0, c);
    let value_part = crate::codec::read_bytes(h, c + 1, n - (c + 1));
    let name = trim_bytes(name_part.as_slice());
    let value = trim_bytes(value_part.as_slice());
    Option::Some((name, value))
}

} // verus!
