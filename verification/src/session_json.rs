//! The JSON body of registration session responses.
//!
//! A successful session request returns
//! `{"session_id":"<id>","session":{...}}`. The encoder produces the
//! canonical form — fields in this order, no extra whitespace — and the
//! parser accepts exactly that form: it succeeds on every canonical body
//! with a well-formed session identifier, and a parsed response pins the
//! body down to its canonical encoding, byte for byte.

use vstd::prelude::*;
use vstd::utf8::{encode_scalar, encode_utf8};

use crate::chat::bytes_of_str;
use crate::codec::lemma_seq_split;
use crate::registration::{
    append_bytes, append_str, spec_session_id_wf, spec_url_safe, url_safe, RegistrationSession,
};

verus! {

/// The payload of a successful session response: the session identifier
/// and the server-reported session summary.
#[derive(Debug, PartialEq, Eq)]
pub struct RegistrationResponse {
    pub session_id: Vec<u8>,
    pub session: RegistrationSession,
}

impl RegistrationResponse {
    /// Well-formedness: the identifier is a nonempty URL-safe string.
    pub open spec fn wf(self) -> bool {
        spec_session_id_wf(self.session_id@)
    }
}

/// The JSON rendering of a boolean.
pub open spec fn spec_bool_json(b: bool) -> Seq<u8> {
    if b {
        encode_utf8("true"@)
    } else {
        encode_utf8("false"@)
    }
}

/// The bytes before the session identifier.
pub open spec fn lit_prefix() -> Seq<u8> {
    encode_utf8("{\"session_id\":\""@)
}

/// The bytes between the identifier and the first session flag.
pub open spec fn lit_session_key() -> Seq<u8> {
    encode_utf8("\",\"session\":{\"allowed_to_request_code\":"@)
}

/// The bytes between the two session flags.
pub open spec fn lit_verified_key() -> Seq<u8> {
    encode_utf8(",\"verified\":"@)
}

/// The closing bytes.
pub open spec fn lit_close() -> Seq<u8> {
    encode_utf8("}}"@)
}

/// The canonical JSON body of a session response.
pub open spec fn spec_session_json(r: RegistrationResponse) -> Seq<u8> {
    lit_prefix() + r.session_id@ + lit_session_key() + spec_bool_json(
        r.session.allowed_to_request_code,
    ) + lit_verified_key() + spec_bool_json(r.session.verified) + lit_close()
}

/// The UTF-8 encoding of an all-ASCII character sequence is one byte per
/// character, each the character's code.
pub proof fn lemma_ascii_encoding(s: Seq<char>)
    requires
        forall|i: int| 0 <= i < s.len() ==> (#[trigger] s[i]) as u32 <= 0x7F,
    ensures
        encode_utf8(s).len() == s.len(),
        forall|i: int|
            0 <= i < s.len() ==> #[trigger] encode_utf8(s)[i] == (s[i] as u32) as u8,
    decreases s.len(),
{
    if s.len() > 0 {
        let v = s[0] as u32;
        assert((v & 0x7F) as u8 == v as u8) by (bit_vector)
            requires
                v <= 0x7F,
        ;
        assert(encode_scalar(v) =~= seq![v as u8]);
        assert forall|i: int| 0 <= i < s.drop_first().len() implies (#[trigger] s.drop_first()[i])
            as u32 <= 0x7F by {
            assert(s[i + 1] as u32 <= 0x7F);
        }
        lemma_ascii_encoding(s.drop_first());
        assert(encode_utf8(s) == encode_scalar(v) + encode_utf8(s.drop_first()));
        assert forall|i: int| 0 <= i < s.len() implies #[trigger] encode_utf8(s)[i] == (s[i]
            as u32) as u8 by {
            if i > 0 {
                assert(s.drop_first()[i - 1] == s[i]);
                assert(encode_utf8(s.drop_first())[i - 1] == (s.drop_first()[i - 1] as u32) as u8);
                assert(encode_utf8(s)[i] == encode_utf8(s.drop_first())[i - 1]);
            }
        }
    }
}

/// The exact bytes of the boolean literals.
pub proof fn lemma_bool_json_bytes()
    ensures
        spec_bool_json(true) =~= seq![116u8, 114u8, 117u8, 101u8],
        spec_bool_json(false) =~= seq![102u8, 97u8, 108u8, 115u8, 101u8],
{
    reveal_strlit("true");
    reveal_strlit("false");
    assert forall|i: int| 0 <= i < ("true"@).len() implies (#[trigger] ("true"@)[i]) as u32
        <= 0x7F by {
        assert(("true"@).len() == 4);
    }
    assert forall|i: int| 0 <= i < ("false"@).len() implies (#[trigger] ("false"@)[i]) as u32
        <= 0x7F by {
        assert(("false"@).len() == 5);
    }
    lemma_ascii_encoding("true"@);
    lemma_ascii_encoding("false"@);
    assert(encode_utf8("true"@)[0] == ('t' as u32) as u8);
    assert(encode_utf8("true"@)[1] == ('r' as u32) as u8);
    assert(encode_utf8("true"@)[2] == ('u' as u32) as u8);
    assert(encode_utf8("true"@)[3] == ('e' as u32) as u8);
    assert(encode_utf8("false"@)[0] == ('f' as u32) as u8);
    assert(encode_utf8("false"@)[1] == ('a' as u32) as u8);
    assert(encode_utf8("false"@)[2] == ('l' as u32) as u8);
    assert(encode_utf8("false"@)[3] == ('s' as u32) as u8);
    assert(encode_utf8("false"@)[4] == ('e' as u32) as u8);
}

/// The facts about the fixed chunks that the parser leans on: each is
/// nonempty, and the chunk after the identifier opens with the closing
/// quote — a byte that can never occur inside a URL-safe identifier.
proof fn lemma_literal_facts()
    ensures
        lit_prefix().len() >= 1,
        lit_session_key().len() >= 1,
        lit_session_key()[0] == 34,
        lit_verified_key().len() >= 1,
        lit_close().len() >= 1,
{
    reveal_strlit("{\"session_id\":\"");
    reveal_strlit("\",\"session\":{\"allowed_to_request_code\":");
    reveal_strlit(",\"verified\":");
    reveal_strlit("}}");
    lemma_ascii_encoding("{\"session_id\":\""@);
    lemma_ascii_encoding("\",\"session\":{\"allowed_to_request_code\":"@);
    lemma_ascii_encoding(",\"verified\":"@);
    lemma_ascii_encoding("}}"@);
    assert(("\",\"session\":{\"allowed_to_request_code\":"@)[0] == '"');
}

/// Where each part of the canonical body ends.
pub open spec fn end_of_prefix() -> int {
    lit_prefix().len() as int
}

pub open spec fn end_of_id(r: RegistrationResponse) -> int {
    end_of_prefix() + r.session_id@.len()
}

pub open spec fn end_of_session_key(r: RegistrationResponse) -> int {
    end_of_id(r) + lit_session_key().len()
}

pub open spec fn end_of_allowed(r: RegistrationResponse) -> int {
    end_of_session_key(r) + spec_bool_json(r.session.allowed_to_request_code).len()
}

pub open spec fn end_of_verified_key(r: RegistrationResponse) -> int {
    end_of_allowed(r) + lit_verified_key().len()
}

pub open spec fn end_of_verified(r: RegistrationResponse) -> int {
    end_of_verified_key(r) + spec_bool_json(r.session.verified).len()
}

/// The layout of a canonical body: where each segment sits.
proof fn lemma_session_json_layout(s: Seq<u8>, r: RegistrationResponse)
    requires
        s == spec_session_json(r),
    ensures
        s.len() == end_of_verified(r) + lit_close().len(),
        s.subrange(0, end_of_prefix()) == lit_prefix(),
        s.subrange(end_of_prefix(), end_of_id(r)) == r.session_id@,
        s.subrange(end_of_id(r), end_of_session_key(r)) == lit_session_key(),
        s.subrange(end_of_session_key(r), end_of_allowed(r)) == spec_bool_json(
            r.session.allowed_to_request_code,
        ),
        s.subrange(end_of_allowed(r), end_of_verified_key(r)) == lit_verified_key(),
        s.subrange(end_of_verified_key(r), end_of_verified(r)) == spec_bool_json(
            r.session.verified,
        ),
        s.subrange(end_of_verified(r), s.len() as int) == lit_close(),
{
    let a = lit_prefix();
    let b = r.session_id@;
    let c = lit_session_key();
    let d = spec_bool_json(r.session.allowed_to_request_code);
    let e = lit_verified_key();
    let f = spec_bool_json(r.session.verified);
    let g = lit_close();
    // Peel the segments off the right, one at a time; each step splits a
    // prefix that is a concatenation by construction.
    assert(s.subrange(0, s.len() as int) =~= s);
    lemma_seq_split(s, 0, s.len() as int, a + b + c + d + e + f, g);
    lemma_seq_split(s, 0, end_of_verified(r), a + b + c + d + e, f);
    lemma_seq_split(s, 0, end_of_verified_key(r), a + b + c + d, e);
    lemma_seq_split(s, 0, end_of_allowed(r), a + b + c, d);
    lemma_seq_split(s, 0, end_of_session_key(r), a + b, c);
    lemma_seq_split(s, 0, end_of_id(r), a, b);
}

/// Renders a session response to its canonical JSON body.
pub fn encode_session_json(r: &RegistrationResponse) -> (out: Vec<u8>)
    ensures
        out@ == spec_session_json(*r),
{
    let mut out: Vec<u8> = Vec::new();
    append_str(&mut out, "{\"session_id\":\"");
    append_bytes(&mut out, r.session_id.as_slice());
    append_str(&mut out, "\",\"session\":{\"allowed_to_request_code\":");
    if r.session.allowed_to_request_code {
        append_str(&mut out, "true");
    } else {
        append_str(&mut out, "false");
    }
    append_str(&mut out, ",\"verified\":");
    if r.session.verified {
        append_str(&mut out, "true");
    } else {
        append_str(&mut out, "false");
    }
    append_str(&mut out, "}}");
    proof {
        assert(out@ =~= spec_session_json(*r));
    }
    out
}

/// Matches the bytes of `lit` at position `i`: succeeds exactly when they
/// are there in full.
fn match_chunk(s: &[u8], i: usize, lit: &[u8]) -> (r: Option<usize>)
    ensures
        match r {
            Option::Some(j) => i + lit@.len() == j && j <= s@.len() && s@.subrange(
                i as int,
                j as int,
            ) == lit@,
            Option::None => !(i + lit@.len() <= s@.len() && s@.subrange(
                i as int,
                i + lit@.len(),
            ) == lit@),
        },
{
    let n = s.len();
    let m = lit.len();
    if i > n || m > n - i {
        return Option::None;
    }
    let mut k: usize = 0;
    while k < m
        invariant
            n == s@.len(),
            m == lit@.len(),
            i + m <= n,
            k <= m,
            forall|t: int| 0 <= t < k ==> s@[i + t] == lit@[t],
        decreases m - k,
    {
        if s[i + k] != lit[k] {
            proof {
                if s@.subrange(i as int, i + lit@.len()) == lit@ {
                    assert(s@.subrange(i as int, i + lit@.len())[k as int] == s@[i + k]);
                }
            }
            return Option::None;
        }
        k = k + 1;
    }
    proof {
        assert(s@.subrange(i as int, (i + m) as int) =~= lit@);
    }
    Option::Some(i + m)
}

/// Scans a session identifier at position `i`: one or more URL-safe
/// bytes, ended by the closing quote, which is left in place. Fails
/// exactly when no such span starts at `i`.
fn scan_session_id(s: &[u8], i: usize) -> (r: Option<(Vec<u8>, usize)>)
    ensures
        match r {
            Option::Some((id, j)) => {
                &&& i < j < s@.len()
                &&& s@[j as int] == 34
                &&& id@ == s@.subrange(i as int, j as int)
                &&& spec_session_id_wf(id@)
                &&& forall|t: int| i <= t < j ==> spec_url_safe(#[trigger] s@[t])
            },
            Option::None => !(exists|j: int|
                i < j < s@.len() && s@[j] == 34 && (forall|t: int|
                    i <= t < j ==> spec_url_safe(#[trigger] s@[t]))),
        },
{
    let n = s.len();
    if i >= n {
        return Option::None;
    }
    let mut out: Vec<u8> = Vec::new();
    let mut k: usize = i;
    proof {
        assert(out@ =~= s@.subrange(i as int, i as int));
    }
    while k < n && url_safe(s[k])
        invariant
            n == s@.len(),
            i <= k <= n,
            out@ == s@.subrange(i as int, k as int),
            forall|t: int| i <= t < k ==> spec_url_safe(#[trigger] s@[t]),
        decreases n - k,
    {
        out.push(s[k]);
        proof {
            assert(out@ =~= s@.subrange(i as int, k + 1 as int));
        }
        k = k + 1;
    }
    if k >= n || k == i || s[k] != 34 {
        proof {
            if exists|j: int|
                i < j < s@.len() && s@[j] == 34 && (forall|t: int|
                    i <= t < j ==> spec_url_safe(#[trigger] s@[t])) {
                let j = choose|j: int|
                    i < j < s@.len() && s@[j] == 34 && (forall|t: int|
                        i <= t < j ==> spec_url_safe(#[trigger] s@[t]));
                // The scan stopped at `k`; the candidate's quote cannot
                // sit before it (those bytes are URL-safe) nor at or
                // after it (the byte at `k` is neither URL-safe nor, on
                // this path, the quote).
                if j < k {
                    assert(spec_url_safe(s@[j]));
                    assert(!spec_url_safe(34u8));
                } else {
                    if k < n {
                        if j == k {
                            assert(s@[k as int] == 34);
                        } else {
                            assert(spec_url_safe(s@[k as int]));
                        }
                    }
                }
                assert(false);
            }
        }
        return Option::None;
    }
    proof {
        assert(spec_session_id_wf(out@)) by {
            assert(out@.len() == k - i >= 1);
            assert forall|t: int| 0 <= t < out@.len() implies spec_url_safe(
                #[trigger] out@[t],
            ) by {
                assert(out@[t] == s@[i + t]);
                assert(spec_url_safe(s@[i + t]));
            }
        }
    }
    Option::Some((out, k))
}

/// Parses a JSON boolean at position `i`: succeeds exactly when one of
/// the two literals is there.
fn parse_bool(s: &[u8], i: usize) -> (r: Option<(bool, usize)>)
    ensures
        match r {
            Option::Some((b, j)) => i + spec_bool_json(b).len() == j && j <= s@.len()
                && s@.subrange(i as int, j as int) == spec_bool_json(b),
            Option::None => forall|b: bool|
                !(i + spec_bool_json(b).len() <= s@.len() && s@.subrange(
                    i as int,
                    i + spec_bool_json(b).len(),
                ) == spec_bool_json(b)),
        },
{
    let lit_true = bytes_of_str("true");
    match match_chunk(s, i, lit_true.as_slice()) {
        Option::Some(j) => {
            return Option::Some((true, j));
        },
        Option::None => {},
    }
    let lit_false = bytes_of_str("false");
    match match_chunk(s, i, lit_false.as_slice()) {
        Option::Some(j) => Option::Some((false, j)),
        Option::None => Option::None,
    }
}

/// No well-formed response encodes to `s` when its opening chunk is not
/// at the start.
proof fn lemma_reject_no_prefix(s: Seq<u8>)
    requires
        !(lit_prefix().len() <= s.len() && s.subrange(0, lit_prefix().len() as int)
            == lit_prefix()),
    ensures
        forall|resp: RegistrationResponse| !(resp.wf() && s == spec_session_json(resp)),
{
    assert forall|resp: RegistrationResponse| !(resp.wf() && s == spec_session_json(resp)) by {
        if resp.wf() && s == spec_session_json(resp) {
            lemma_session_json_layout(s, resp);
        }
    }
}

/// No well-formed response encodes to `s` when no identifier span
/// follows the opening chunk.
proof fn lemma_reject_no_id(s: Seq<u8>, i1: int)
    requires
        i1 == end_of_prefix(),
        !(exists|j: int|
            i1 < j < s.len() && s[j] == 34 && (forall|t: int|
                i1 <= t < j ==> spec_url_safe(#[trigger] s[t]))),
    ensures
        forall|resp: RegistrationResponse| !(resp.wf() && s == spec_session_json(resp)),
{
    assert forall|resp: RegistrationResponse| !(resp.wf() && s == spec_session_json(resp)) by {
        if resp.wf() && s == spec_session_json(resp) {
            lemma_session_json_layout(s, resp);
            lemma_literal_facts();
            let jj = end_of_id(resp);
            assert(s[jj] == 34) by {
                assert(s.subrange(end_of_id(resp), end_of_session_key(resp))[0]
                    == lit_session_key()[0]);
            }
            assert forall|t: int| i1 <= t < jj implies spec_url_safe(#[trigger] s[t]) by {
                assert(s.subrange(end_of_prefix(), end_of_id(resp))[t - i1]
                    == resp.session_id@[t - i1]);
                assert(spec_url_safe(resp.session_id@[t - i1]));
            }
            assert(i1 < jj < s.len());
            assert(false);
        }
    }
}

/// The facts established once the identifier has been scanned.
spec fn scanned_id(s: Seq<u8>, i1: int, id: Seq<u8>, j: int) -> bool {
    &&& i1 == end_of_prefix()
    &&& i1 < j < s.len()
    &&& s[j] == 34
    &&& id == s.subrange(i1, j)
    &&& forall|t: int| i1 <= t < j ==> spec_url_safe(#[trigger] s[t])
}

/// No well-formed response encodes to `s` when the chunk after the
/// identifier is missing.
proof fn lemma_reject_no_session_key(s: Seq<u8>, i1: int, id: Seq<u8>, j: int)
    requires
        scanned_id(s, i1, id, j),
        !(j + lit_session_key().len() <= s.len() && s.subrange(j, j + lit_session_key().len())
            == lit_session_key()),
    ensures
        forall|resp: RegistrationResponse| !(resp.wf() && s == spec_session_json(resp)),
{
    assert forall|resp: RegistrationResponse| !(resp.wf() && s == spec_session_json(resp)) by {
        if resp.wf() && s == spec_session_json(resp) {
            lemma_session_json_layout(s, resp);
            lemma_literal_facts();
            lemma_pin_id(s, resp, i1, id, j);
            assert(false);
        }
    }
}

/// No well-formed response encodes to `s` when no boolean follows the
/// first flag's key.
proof fn lemma_reject_no_allowed(s: Seq<u8>, i1: int, id: Seq<u8>, j: int, i2: int)
    requires
        scanned_id(s, i1, id, j),
        i2 == j + lit_session_key().len(),
        forall|b: bool|
            !(i2 + spec_bool_json(b).len() <= s.len() && s.subrange(
                i2,
                i2 + spec_bool_json(b).len(),
            ) == spec_bool_json(b)),
    ensures
        forall|resp: RegistrationResponse| !(resp.wf() && s == spec_session_json(resp)),
{
    assert forall|resp: RegistrationResponse| !(resp.wf() && s == spec_session_json(resp)) by {
        if resp.wf() && s == spec_session_json(resp) {
            lemma_session_json_layout(s, resp);
            lemma_literal_facts();
            lemma_pin_id(s, resp, i1, id, j);
            assert(i2 == end_of_session_key(resp));
            assert(!(i2 + spec_bool_json(resp.session.allowed_to_request_code).len() <= s.len()
                && s.subrange(i2, i2 + spec_bool_json(resp.session.allowed_to_request_code).len())
                == spec_bool_json(resp.session.allowed_to_request_code)));
            assert(false);
        }
    }
}

/// The facts established once the first flag has been parsed.
spec fn parsed_allowed(s: Seq<u8>, i1: int, id: Seq<u8>, j: int, allowed: bool, i3: int) -> bool {
    &&& scanned_id(s, i1, id, j)
    &&& j + lit_session_key().len() + spec_bool_json(allowed).len() == i3
    &&& i3 <= s.len()
    &&& s.subrange(j + lit_session_key().len(), i3) == spec_bool_json(allowed)
}

/// Under a canonical body, the facts gathered so far pin the boundaries
/// and values of everything up to the first flag.
proof fn lemma_pin_allowed(
    s: Seq<u8>,
    resp: RegistrationResponse,
    i1: int,
    id: Seq<u8>,
    j: int,
    allowed: bool,
    i3: int,
)
    requires
        resp.wf(),
        s == spec_session_json(resp),
        parsed_allowed(s, i1, id, j, allowed, i3),
    ensures
        j == end_of_id(resp),
        id == resp.session_id@,
        allowed == resp.session.allowed_to_request_code,
        i3 == end_of_allowed(resp),
{
    lemma_session_json_layout(s, resp);
    lemma_literal_facts();
    lemma_pin_id(s, resp, i1, id, j);
    lemma_pin_bool(
        s,
        resp.session.allowed_to_request_code,
        end_of_session_key(resp),
        allowed,
        i3,
    );
}

/// No well-formed response encodes to `s` when the second flag's key is
/// missing after the first flag.
proof fn lemma_reject_no_verified_key(
    s: Seq<u8>,
    i1: int,
    id: Seq<u8>,
    j: int,
    allowed: bool,
    i3: int,
)
    requires
        parsed_allowed(s, i1, id, j, allowed, i3),
        !(i3 + lit_verified_key().len() <= s.len() && s.subrange(
            i3,
            i3 + lit_verified_key().len(),
        ) == lit_verified_key()),
    ensures
        forall|resp: RegistrationResponse| !(resp.wf() && s == spec_session_json(resp)),
{
    assert forall|resp: RegistrationResponse| !(resp.wf() && s == spec_session_json(resp)) by {
        if resp.wf() && s == spec_session_json(resp) {
            lemma_session_json_layout(s, resp);
            lemma_pin_allowed(s, resp, i1, id, j, allowed, i3);
            assert(false);
        }
    }
}

/// No well-formed response encodes to `s` when no boolean follows the
/// second flag's key.
proof fn lemma_reject_no_verified(
    s: Seq<u8>,
    i1: int,
    id: Seq<u8>,
    j: int,
    allowed: bool,
    i3: int,
    i4: int,
)
    requires
        parsed_allowed(s, i1, id, j, allowed, i3),
        i4 == i3 + lit_verified_key().len(),
        forall|b: bool|
            !(i4 + spec_bool_json(b).len() <= s.len() && s.subrange(
                i4,
                i4 + spec_bool_json(b).len(),
            ) == spec_bool_json(b)),
    ensures
        forall|resp: RegistrationResponse| !(resp.wf() && s == spec_session_json(resp)),
{
    assert forall|resp: RegistrationResponse| !(resp.wf() && s == spec_session_json(resp)) by {
        if resp.wf() && s == spec_session_json(resp) {
            lemma_session_json_layout(s, resp);
            lemma_pin_allowed(s, resp, i1, id, j, allowed, i3);
            assert(i4 == end_of_verified_key(resp));
            assert(!(i4 + spec_bool_json(resp.session.verified).len() <= s.len() && s.subrange(
                i4,
                i4 + spec_bool_json(resp.session.verified).len(),
            ) == spec_bool_json(resp.session.verified)));
            assert(false);
        }
    }
}

/// The facts established once both flags have been parsed.
spec fn parsed_verified(
    s: Seq<u8>,
    i1: int,
    id: Seq<u8>,
    j: int,
    allowed: bool,
    i3: int,
    verified: bool,
    i5: int,
) -> bool {
    &&& parsed_allowed(s, i1, id, j, allowed, i3)
    &&& i3 + lit_verified_key().len() + spec_bool_json(verified).len() == i5
    &&& i5 <= s.len()
    &&& s.subrange(i3 + lit_verified_key().len(), i5) == spec_bool_json(verified)
}

/// Under a canonical body, the gathered facts pin everything up to the
/// second flag.
proof fn lemma_pin_verified(
    s: Seq<u8>,
    resp: RegistrationResponse,
    i1: int,
    id: Seq<u8>,
    j: int,
    allowed: bool,
    i3: int,
    verified: bool,
    i5: int,
)
    requires
        resp.wf(),
        s == spec_session_json(resp),
        parsed_verified(s, i1, id, j, allowed, i3, verified, i5),
    ensures
        id == resp.session_id@,
        allowed == resp.session.allowed_to_request_code,
        verified == resp.session.verified,
        i5 == end_of_verified(resp),
{
    lemma_session_json_layout(s, resp);
    lemma_literal_facts();
    lemma_pin_allowed(s, resp, i1, id, j, allowed, i3);
    lemma_pin_bool(s, resp.session.verified, end_of_verified_key(resp), verified, i5);
}

/// No well-formed response encodes to `s` when the closing bytes are
/// missing, or when anything trails them.
proof fn lemma_reject_bad_close(
    s: Seq<u8>,
    i1: int,
    id: Seq<u8>,
    j: int,
    allowed: bool,
    i3: int,
    verified: bool,
    i5: int,
    closed: bool,
)
    requires
        parsed_verified(s, i1, id, j, allowed, i3, verified, i5),
        closed ==> i5 + lit_close().len() <= s.len() && s.subrange(i5, i5 + lit_close().len())
            == lit_close() && i5 + lit_close().len() != s.len(),
        !closed ==> !(i5 + lit_close().len() <= s.len() && s.subrange(
            i5,
            i5 + lit_close().len(),
        ) == lit_close()),
    ensures
        forall|resp: RegistrationResponse| !(resp.wf() && s == spec_session_json(resp)),
{
    assert forall|resp: RegistrationResponse| !(resp.wf() && s == spec_session_json(resp)) by {
        if resp.wf() && s == spec_session_json(resp) {
            lemma_session_json_layout(s, resp);
            lemma_pin_verified(s, resp, i1, id, j, allowed, i3, verified, i5);
            assert(false);
        }
    }
}

/// Parses the canonical JSON body of a session response: it succeeds on
/// exactly the canonical encodings of well-formed responses, and a parsed
/// response pins the body down — the body is precisely its canonical
/// encoding, with nothing trailing.
pub fn parse_session_json(s: &[u8]) -> (r: Option<RegistrationResponse>)
    ensures
        match r {
            Option::Some(resp) => resp.wf() && s@ == spec_session_json(resp),
            Option::None => true,
        },
        forall|resp: RegistrationResponse|
            resp.wf() && s@ == spec_session_json(resp) ==> (r matches Option::Some(got)
                && got.session_id@ == resp.session_id@ && got.session == resp.session),
{
    let lit1 = bytes_of_str("{\"session_id\":\"");
    let i1 = match match_chunk(s, 0, lit1.as_slice()) {
        Option::Some(j) => j,
        Option::None => {
            proof {
                lemma_reject_no_prefix(s@);
            }
            return Option::None;
        },
    };
    let (id, j) = match scan_session_id(s, i1) {
        Option::Some(x) => x,
        Option::None => {
            proof {
                lemma_reject_no_id(s@, i1 as int);
            }
            return Option::None;
        },
    };
    let lit2 = bytes_of_str("\",\"session\":{\"allowed_to_request_code\":");
    let i2 = match match_chunk(s, j, lit2.as_slice()) {
        Option::Some(x) => x,
        Option::None => {
            proof {
                lemma_reject_no_session_key(s@, i1 as int, id@, j as int);
            }
            return Option::None;
        },
    };
    let (allowed, i3) = match parse_bool(s, i2) {
        Option::Some(x) => x,
        Option::None => {
            proof {
                lemma_reject_no_allowed(s@, i1 as int, id@, j as int, i2 as int);
            }
            return Option::None;
        },
    };
    let lit3 = bytes_of_str(",\"verified\":");
    let i4 = match match_chunk(s, i3, lit3.as_slice()) {
        Option::Some(x) => x,
        Option::None => {
            proof {
                lemma_reject_no_verified_key(s@, i1 as int, id@, j as int, allowed, i3 as int);
            }
            return Option::None;
        },
    };
    let (verified, i5) = match parse_bool(s, i4) {
        Option::Some(x) => x,
        Option::None => {
            proof {
                lemma_reject_no_verified(
                    s@,
                    i1 as int,
                    id@,
                    j as int,
                    allowed,
                    i3 as int,
                    i4 as int,
                );
            }
            return Option::None;
        },
    };
    let lit4 = bytes_of_str("}}");
    let i6 = match match_chunk(s, i5, lit4.as_slice()) {
        Option::Some(x) => x,
        Option::None => {
            proof {
                lemma_reject_bad_close(
                    s@,
                    i1 as int,
                    id@,
                    j as int,
                    allowed,
                    i3 as int,
                    verified,
                    i5 as int,
                    false,
                );
            }
            return Option::None;
        },
    };
    if i6 != s.len() {
        proof {
            lemma_reject_bad_close(
                s@,
                i1 as int,
                id@,
                j as int,
                allowed,
                i3 as int,
                verified,
                i5 as int,
                true,
            );
        }
        return Option::None;
    }
    let got = RegistrationResponse {
        session_id: id,
        session: RegistrationSession { allowed_to_request_code: allowed, verified },
    };
    proof {
        assert(s@ =~= s@.subrange(0, i1 as int) + s@.subrange(i1 as int, j as int) + s@.subrange(
            j as int,
            i2 as int,
        ) + s@.subrange(i2 as int, i3 as int) + s@.subrange(i3 as int, i4 as int) + s@.subrange(
            i4 as int,
            i5 as int,
        ) + s@.subrange(i5 as int, i6 as int));
        assert(s@ =~= spec_session_json(got));
        assert forall|resp: RegistrationResponse|
            resp.wf() && s@ == spec_session_json(resp) implies got.session_id@
            == resp.session_id@ && got.session == resp.session by {
            lemma_pin_verified(
                s@,
                resp,
                i1 as int,
                got.session_id@,
                j as int,
                allowed,
                i3 as int,
                verified,
                i5 as int,
            );
        }
    }
    Option::Some(got)
}

/// In a canonical body, a successful identifier scan from the end of the
/// prefix stops exactly at the identifier's closing quote.
proof fn lemma_pin_id(s: Seq<u8>, resp: RegistrationResponse, i1: int, id: Seq<u8>, j: int)
    requires
        resp.wf(),
        s == spec_session_json(resp),
        i1 == end_of_prefix(),
        i1 < j < s.len(),
        s[j] == 34,
        id == s.subrange(i1, j),
        forall|t: int| i1 <= t < j ==> spec_url_safe(#[trigger] s[t]),
    ensures
        j == end_of_id(resp),
        id == resp.session_id@,
{
    lemma_session_json_layout(s, resp);
    lemma_literal_facts();
    let jj = end_of_id(resp);
    assert(s[jj] == 34) by {
        assert(s.subrange(end_of_id(resp), end_of_session_key(resp))[0] == lit_session_key()[0]);
    }
    if j < jj {
        assert(s.subrange(end_of_prefix(), end_of_id(resp))[j - i1] == resp.session_id@[j - i1]);
        assert(spec_url_safe(resp.session_id@[j - i1]));
        assert(s[j] == resp.session_id@[j - i1]);
        assert(!spec_url_safe(34u8));
        assert(false);
    }
    if j > jj {
        assert(spec_url_safe(s[jj]));
        assert(!spec_url_safe(34u8));
        assert(false);
    }
    assert(id =~= resp.session_id@) by {
        assert forall|t: int| 0 <= t < id.len() implies id[t] == resp.session_id@[t] by {
            assert(id[t] == s[i1 + t]);
            assert(s.subrange(end_of_prefix(), end_of_id(resp))[t] == resp.session_id@[t]);
        }
    }
}

/// In a canonical body, a successful boolean parse at a flag's position
/// yields that flag's value and stops at its end.
proof fn lemma_pin_bool(s: Seq<u8>, expected: bool, at: int, got: bool, end: int)
    requires
        0 <= at,
        at + spec_bool_json(expected).len() <= s.len(),
        s.subrange(at, at + spec_bool_json(expected).len()) == spec_bool_json(expected),
        at + spec_bool_json(got).len() == end,
        end <= s.len(),
        s.subrange(at, end) == spec_bool_json(got),
    ensures
        got == expected,
        end == at + spec_bool_json(expected).len(),
{
    lemma_bool_json_bytes();
    if got != expected {
        assert(s.subrange(at, at + spec_bool_json(expected).len())[0] == s[at]);
        assert(s.subrange(at, end)[0] == s[at]);
        assert(spec_bool_json(true)[0] == 116);
        assert(spec_bool_json(false)[0] == 102);
        assert(false);
    }
}

} // verus!
