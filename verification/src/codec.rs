//! The wire framing of chat messages.
//!
//! Each direction carries length-delimited binary messages over WebSocket
//! binary frames. A message is a sequence of tagged fields: a tag byte (the
//! field number and wire type), then for payload fields a base-128 varint
//! length followed by that many payload bytes, or for integer fields a
//! varint value. Requests carry `{verb, path, body?, headers*, id}`;
//! responses carry `{status, message?, body?, headers*, id}`. Encoders
//! always produce the canonical form — fields in tag order, minimal
//! varints — and the decoder accepts exactly that form.

use vstd::prelude::*;

verus! {

/// Request field tags: verb, path, body, header, id.
pub const TAG_REQ_VERB: u8 = 0x0A;

pub const TAG_REQ_PATH: u8 = 0x12;

pub const TAG_REQ_BODY: u8 = 0x1A;

pub const TAG_REQ_HEADER: u8 = 0x22;

pub const TAG_REQ_ID: u8 = 0x28;

/// Response field tags: status, message, body, header, id.
pub const TAG_RESP_STATUS: u8 = 0x08;

pub const TAG_RESP_MESSAGE: u8 = 0x12;

pub const TAG_RESP_BODY: u8 = 0x1A;

pub const TAG_RESP_HEADER: u8 = 0x22;

pub const TAG_RESP_ID: u8 = 0x28;

/// The minimal base-128 varint encoding of `n`, least significant group
/// first, the high bit marking continuation.
pub open spec fn spec_varint(n: nat) -> Seq<u8>
    decreases n,
{
    if n < 128 {
        seq![n as u8]
    } else {
        seq![(n % 128 + 128) as u8] + spec_varint(n / 128)
    }
}

/// A tagged, length-delimited payload field.
pub open spec fn spec_field(tag: u8, p: Seq<u8>) -> Seq<u8> {
    seq![tag] + spec_varint(p.len()) + p
}

/// An optional field: omitted entirely when absent.
pub open spec fn spec_opt_field(tag: u8, p: Option<Seq<u8>>) -> Seq<u8> {
    match p {
        Option::Some(x) => spec_field(tag, x),
        Option::None => Seq::empty(),
    }
}

/// A repeated field, one tagged element per entry, in order.
pub open spec fn spec_rep_fields(tag: u8, ps: Seq<Seq<u8>>) -> Seq<u8>
    decreases ps.len(),
{
    if ps.len() == 0 {
        Seq::empty()
    } else {
        spec_field(tag, ps[0]) + spec_rep_fields(tag, ps.drop_first())
    }
}

/// The canonical wire bytes of a request message.
pub open spec fn spec_request_bytes(
    verb: Seq<u8>,
    path: Seq<u8>,
    body: Option<Seq<u8>>,
    headers: Seq<Seq<u8>>,
    id: u64,
) -> Seq<u8> {
    spec_field(TAG_REQ_VERB, verb) + spec_field(TAG_REQ_PATH, path) + spec_opt_field(
        TAG_REQ_BODY,
        body,
    ) + spec_rep_fields(TAG_REQ_HEADER, headers) + seq![TAG_REQ_ID] + spec_varint(id as nat)
}

/// The canonical wire bytes of a response message.
pub open spec fn spec_response_bytes(
    status: u64,
    message: Option<Seq<u8>>,
    body: Option<Seq<u8>>,
    headers: Seq<Seq<u8>>,
    id: u64,
) -> Seq<u8> {
    seq![TAG_RESP_STATUS] + spec_varint(status as nat) + spec_opt_field(TAG_RESP_MESSAGE, message)
        + spec_opt_field(TAG_RESP_BODY, body) + spec_rep_fields(TAG_RESP_HEADER, headers) + seq![
        TAG_RESP_ID,
    ] + spec_varint(id as nat)
}

/// The view of an optional byte buffer.
pub open spec fn opt_bytes_view(o: Option<Vec<u8>>) -> Option<Seq<u8>> {
    match o {
        Option::Some(v) => Option::Some(v@),
        Option::None => Option::None,
    }
}

/// A decoded request message, fields as raw bytes.
#[derive(Debug)]
pub struct RequestFrame {
    pub verb: Vec<u8>,
    pub path: Vec<u8>,
    pub body: Option<Vec<u8>>,
    pub headers: Vec<Vec<u8>>,
    pub id: u64,
}

impl RequestFrame {
    /// The canonical wire bytes of this message.
    pub open spec fn wire(self) -> Seq<u8> {
        spec_request_bytes(
            self.verb@,
            self.path@,
            opt_bytes_view(self.body),
            self.headers.deep_view(),
            self.id,
        )
    }
}

/// A decoded response message, fields as raw bytes.
#[derive(Debug)]
pub struct ResponseFrame {
    pub status: u64,
    pub message: Option<Vec<u8>>,
    pub body: Option<Vec<u8>>,
    pub headers: Vec<Vec<u8>>,
    pub id: u64,
}

impl ResponseFrame {
    /// The canonical wire bytes of this message.
    pub open spec fn wire(self) -> Seq<u8> {
        spec_response_bytes(
            self.status,
            opt_bytes_view(self.message),
            opt_bytes_view(self.body),
            self.headers.deep_view(),
            self.id,
        )
    }
}

/// Every varint takes at least one byte.
pub proof fn lemma_varint_len_pos(n: nat)
    ensures
        spec_varint(n).len() >= 1,
{
}

/// A subrange that equals a head byte followed by a tail pins the byte at
/// its start and the tail right after it.
pub(crate) proof fn lemma_seq_shift(s: Seq<u8>, start: int, end: int, head: u8, tail: Seq<u8>)
    requires
        0 <= start <= end <= s.len(),
        s.subrange(start, end) == seq![head] + tail,
    ensures
        start < end,
        s[start] == head,
        s.subrange(start + 1, end) == tail,
{
    assert(s.subrange(start, end).len() == 1 + tail.len());
    assert(s.subrange(start, end)[0] == head);
    assert(s.subrange(start + 1, end) =~= tail) by {
        assert forall|i: int| 0 <= i < tail.len() implies s.subrange(start + 1, end)[i]
            == tail[i] by {
            assert(s.subrange(start + 1, end)[i] == s[start + 1 + i]);
            assert(s.subrange(start, end)[i + 1] == s[start + i + 1]);
            assert((seq![head] + tail)[i + 1] == tail[i]);
        }
    }
}

/// A subrange that equals a concatenation splits at the boundary.
pub(crate) proof fn lemma_seq_split(s: Seq<u8>, start: int, end: int, a: Seq<u8>, b: Seq<u8>)
    requires
        0 <= start <= end <= s.len(),
        s.subrange(start, end) == a + b,
    ensures
        start + a.len() + b.len() == end,
        s.subrange(start, start + a.len()) == a,
        s.subrange(start + a.len(), end) == b,
{
    assert(s.subrange(start, end).len() == a.len() + b.len());
    assert(s.subrange(start, start + a.len()) =~= a) by {
        assert forall|i: int| 0 <= i < a.len() implies s.subrange(start, start + a.len())[i]
            == a[i] by {
            assert(s.subrange(start, end)[i] == (a + b)[i]);
        }
    }
    assert(s.subrange(start + a.len(), end) =~= b) by {
        assert forall|i: int| 0 <= i < b.len() implies s.subrange(start + a.len(), end)[i]
            == b[i] by {
            assert(s.subrange(start + a.len(), end)[i] == s[start + a.len() + i]);
            assert(s.subrange(start, end)[a.len() + i] == s[start + a.len() + i]);
            assert((a + b)[a.len() + i] == b[i]);
        }
    }
}

/// A varint is determined by its position: two varints decoded at the same
/// start of the same buffer are the same value with the same end.
pub proof fn lemma_varint_unique(s: Seq<u8>, start: int, v1: nat, e1: int, v2: nat, e2: int)
    requires
        0 <= start <= e1 <= s.len(),
        0 <= start <= e2 <= s.len(),
        s.subrange(start, e1) == spec_varint(v1),
        s.subrange(start, e2) == spec_varint(v2),
    ensures
        v1 == v2,
        e1 == e2,
    decreases v1,
{
    lemma_varint_len_pos(v1);
    lemma_varint_len_pos(v2);
    assert(e1 > start);
    assert(e2 > start);
    let b = s[start];
    assert(spec_varint(v1)[0] == b);
    assert(spec_varint(v2)[0] == b);
    if v1 < 128 {
        assert(b == v1 as u8);
        if v2 >= 128 {
            assert(spec_varint(v2)[0] == (v2 % 128 + 128) as u8);
            assert(false);
        }
        assert(v1 == v2);
        assert(e1 == start + 1);
        assert(e2 == start + 1);
    } else {
        assert(spec_varint(v1)[0] == (v1 % 128 + 128) as u8);
        if v2 < 128 {
            assert(false);
        }
        assert(spec_varint(v1) == seq![(v1 % 128 + 128) as u8] + spec_varint(v1 / 128));
        lemma_seq_shift(s, start, e1, (v1 % 128 + 128) as u8, spec_varint(v1 / 128));
        assert(spec_varint(v2) == seq![(v2 % 128 + 128) as u8] + spec_varint(v2 / 128));
        lemma_seq_shift(s, start, e2, (v2 % 128 + 128) as u8, spec_varint(v2 / 128));
        lemma_varint_unique(s, start + 1, v1 / 128, e1, v2 / 128, e2);
        assert(v1 % 128 == v2 % 128) by {
            assert((v1 % 128 + 128) as u8 == (v2 % 128 + 128) as u8);
        }
        assert(v1 == 128 * (v1 / 128) + v1 % 128) by (nonlinear_arith);
        assert(v2 == 128 * (v2 / 128) + v2 % 128) by (nonlinear_arith);
    }
}

/// Appends the varint encoding of `n`.
pub fn encode_varint_into(out: &mut Vec<u8>, n: u64)
    ensures
        final(out)@ == old(out)@ + spec_varint(n as nat),
{
    let mut cur: u64 = n;
    while cur >= 128
        invariant
            old(out)@ + spec_varint(n as nat) == out@ + spec_varint(cur as nat),
        decreases cur,
    {
        proof {
            assert(spec_varint(cur as nat) == seq![(cur as nat % 128 + 128) as u8] + spec_varint(
                cur as nat / 128,
            ));
            assert(out@ + spec_varint(cur as nat) =~= (out@ + seq![((cur % 128) + 128) as u8])
                + spec_varint((cur / 128) as nat));
        }
        out.push(((cur % 128) + 128) as u8);
        cur = cur / 128;
    }
    out.push(cur as u8);
    proof {
        assert(spec_varint(cur as nat) =~= seq![cur as u8]);
        assert(final(out)@ =~= old(out)@ + spec_varint(n as nat));
    }
}

/// Appends a tagged, length-delimited field.
pub fn encode_field_into(out: &mut Vec<u8>, tag: u8, p: &[u8])
    ensures
        final(out)@ == old(out)@ + spec_field(tag, p@),
{
    out.push(tag);
    encode_varint_into(out, p.len() as u64);
    let mut i: usize = 0;
    let n = p.len();
    while i < n
        invariant
            n == p@.len(),
            i <= n,
            out@ == old(out)@ + seq![tag] + spec_varint(p@.len()) + p@.subrange(0, i as int),
        decreases n - i,
    {
        out.push(p[i]);
        proof {
            assert(out@ =~= old(out)@ + seq![tag] + spec_varint(p@.len()) + p@.subrange(
                0,
                i + 1 as int,
            ));
        }
        i = i + 1;
    }
    proof {
        assert(p@.subrange(0, n as int) =~= p@);
        assert(final(out)@ =~= old(out)@ + spec_field(tag, p@));
    }
}

/// Encodes a request message to its canonical wire bytes.
pub fn encode_request(f: &RequestFrame) -> (r: Vec<u8>)
    ensures
        r@ == f.wire(),
{
    let mut out: Vec<u8> = Vec::new();
    encode_field_into(&mut out, TAG_REQ_VERB, self_slice(&f.verb));
    encode_field_into(&mut out, TAG_REQ_PATH, self_slice(&f.path));
    match &f.body {
        Option::Some(b) => {
            encode_field_into(&mut out, TAG_REQ_BODY, self_slice(b));
        },
        Option::None => {},
    }
    let n = f.headers.len();
    let mut k: usize = 0;
    while k < n
        invariant
            n == f.headers@.len(),
            k <= n,
            out@ == spec_field(TAG_REQ_VERB, f.verb@) + spec_field(TAG_REQ_PATH, f.path@)
                + spec_opt_field(TAG_REQ_BODY, opt_bytes_view(f.body)) + spec_rep_fields(
                TAG_REQ_HEADER,
                f.headers.deep_view().take(k as int),
            ),
        decreases n - k,
    {
        encode_field_into(&mut out, TAG_REQ_HEADER, self_slice(&f.headers[k]));
        proof {
            lemma_rep_fields_take_step(TAG_REQ_HEADER, f.headers.deep_view(), k as int);
            assert(out@ =~= spec_field(TAG_REQ_VERB, f.verb@) + spec_field(TAG_REQ_PATH, f.path@)
                + spec_opt_field(TAG_REQ_BODY, opt_bytes_view(f.body)) + spec_rep_fields(
                TAG_REQ_HEADER,
                f.headers.deep_view().take(k + 1 as int),
            ));
        }
        k = k + 1;
    }
    out.push(TAG_REQ_ID);
    encode_varint_into(&mut out, f.id);
    proof {
        assert(f.headers.deep_view().take(n as int) =~= f.headers.deep_view());
        assert(out@ =~= f.wire());
    }
    out
}

/// Encodes a response message to its canonical wire bytes.
pub fn encode_response(f: &ResponseFrame) -> (r: Vec<u8>)
    ensures
        r@ == f.wire(),
{
    let mut out: Vec<u8> = Vec::new();
    out.push(TAG_RESP_STATUS);
    encode_varint_into(&mut out, f.status);
    match &f.message {
        Option::Some(m) => {
            encode_field_into(&mut out, TAG_RESP_MESSAGE, self_slice(m));
        },
        Option::None => {},
    }
    match &f.body {
        Option::Some(b) => {
            encode_field_into(&mut out, TAG_RESP_BODY, self_slice(b));
        },
        Option::None => {},
    }
    let ghost prefix = seq![TAG_RESP_STATUS] + spec_varint(f.status as nat) + spec_opt_field(
        TAG_RESP_MESSAGE,
        opt_bytes_view(f.message),
    ) + spec_opt_field(TAG_RESP_BODY, opt_bytes_view(f.body));
    proof {
        assert(out@ =~= prefix + spec_rep_fields(TAG_RESP_HEADER, f.headers.deep_view().take(0)));
    }
    let n = f.headers.len();
    let mut k: usize = 0;
    while k < n
        invariant
            n == f.headers@.len(),
            k <= n,
            out@ == prefix + spec_rep_fields(TAG_RESP_HEADER, f.headers.deep_view().take(k as int)),
        decreases n - k,
    {
        encode_field_into(&mut out, TAG_RESP_HEADER, self_slice(&f.headers[k]));
        proof {
            lemma_rep_fields_take_step(TAG_RESP_HEADER, f.headers.deep_view(), k as int);
            assert(out@ =~= prefix + spec_rep_fields(
                TAG_RESP_HEADER,
                f.headers.deep_view().take(k + 1 as int),
            ));
        }
        k = k + 1;
    }
    out.push(TAG_RESP_ID);
    encode_varint_into(&mut out, f.id);
    proof {
        assert(f.headers.deep_view().take(n as int) =~= f.headers.deep_view());
        assert(out@ =~= f.wire());
    }
    out
}

/// One more element of a repeated field extends its encoding by one field.
proof fn lemma_rep_fields_take_step(tag: u8, ps: Seq<Seq<u8>>, k: int)
    requires
        0 <= k < ps.len(),
    ensures
        spec_rep_fields(tag, ps.take(k + 1)) == spec_rep_fields(tag, ps.take(k)) + spec_field(
            tag,
            ps[k],
        ),
    decreases k,
{
    if k == 0 {
        assert(ps.take(1).drop_first() =~= Seq::<Seq<u8>>::empty());
        assert(ps.take(0) =~= Seq::<Seq<u8>>::empty());
        assert(ps.take(1)[0] == ps[0]);
        assert(spec_rep_fields(tag, ps.take(1)) =~= spec_rep_fields(tag, ps.take(0)) + spec_field(
            tag,
            ps[0],
        ));
    } else {
        lemma_rep_fields_take_step(tag, ps.drop_first(), k - 1);
        assert(ps.take(k + 1).drop_first() =~= ps.drop_first().take(k));
        assert(ps.take(k).drop_first() =~= ps.drop_first().take(k - 1));
        assert(ps.take(k + 1)[0] == ps[0]);
        assert(ps.take(k)[0] == ps[0]);
        assert(ps.drop_first()[k - 1] == ps[k]);
        assert(spec_rep_fields(tag, ps.take(k + 1)) == spec_field(tag, ps[0]) + spec_rep_fields(
            tag,
            ps.drop_first().take(k),
        ));
        assert(spec_rep_fields(tag, ps.take(k)) == spec_field(tag, ps[0]) + spec_rep_fields(
            tag,
            ps.drop_first().take(k - 1),
        ));
        assert(spec_rep_fields(tag, ps.take(k + 1)) =~= spec_rep_fields(tag, ps.take(k))
            + spec_field(tag, ps[k]));
    }
}

/// A `&Vec<u8>` as a slice; keeps call sites tidy.
fn self_slice(v: &Vec<u8>) -> (r: &[u8])
    ensures
        r@ == v@,
{
    v.as_slice()
}

/// Decodes the varint at `start`. Returns the value and the position one
/// past it; rejects anything but the minimal encoding of a value that fits
/// 64 bits.
pub fn decode_varint(s: &[u8], start: usize) -> (r: Option<(u64, usize)>)
    ensures
        match r {
            Option::Some((v, end)) => start < end <= s@.len() && s@.subrange(
                start as int,
                end as int,
            ) == spec_varint(v as nat),
            Option::None => forall|v: u64, end: int|
                start <= end <= s@.len() ==> s@.subrange(start as int, end) != spec_varint(
                    v as nat,
                ),
        },
    decreases s@.len() - start,
{
    if start >= s.len() {
        proof {
            assert forall|v: u64, end: int|
                start <= end <= s@.len() implies s@.subrange(start as int, end) != spec_varint(
                v as nat,
            ) by {
                lemma_varint_len_pos(v as nat);
                assert(s@.subrange(start as int, end).len() == 0);
            }
        }
        return Option::None;
    }
    let b = s[start];
    if b < 128 {
        proof {
            assert(s@.subrange(start as int, start + 1 as int) =~= seq![b]);
            assert(spec_varint(b as nat) =~= seq![b]);
        }
        return Option::Some((b as u64, start + 1));
    }
    match decode_varint(s, start + 1) {
        Option::None => {
            proof {
                assert forall|v: u64, end: int|
                    start <= end <= s@.len() implies s@.subrange(start as int, end) != spec_varint(
                    v as nat,
                ) by {
                    if s@.subrange(start as int, end) == spec_varint(v as nat) {
                        lemma_varint_len_pos(v as nat);
                        assert(s@.subrange(start as int, end)[0] == b);
                        if v < 128 {
                            assert(spec_varint(v as nat)[0] == v as u8);
                            assert(false);
                        } else {
                            assert(spec_varint(v as nat) == seq![(v as nat % 128 + 128) as u8]
                                + spec_varint(v as nat / 128));
                            lemma_seq_shift(
                                s@,
                                start as int,
                                end,
                                (v as nat % 128 + 128) as u8,
                                spec_varint(v as nat / 128),
                            );
                            lemma_varint_len_pos(v as nat / 128);
                            assert(start + 1 <= end <= s@.len());
                            assert((v / 128) as u64 as nat == v as nat / 128);
                            assert(false);
                        }
                    }
                }
            }
            Option::None
        },
        Option::Some((hi, end)) => {
            let low = (b - 128) as u64;
            if hi == 0 || hi > (u64::MAX - low) / 128 {
                proof {
                    assert forall|v: u64, end2: int|
                        start <= end2 <= s@.len() implies s@.subrange(start as int, end2)
                        != spec_varint(v as nat) by {
                        if s@.subrange(start as int, end2) == spec_varint(v as nat) {
                            lemma_varint_len_pos(v as nat);
                            assert(s@.subrange(start as int, end2)[0] == b);
                            if v < 128 {
                                assert(spec_varint(v as nat)[0] == v as u8);
                                assert(false);
                            } else {
                                assert(spec_varint(v as nat) == seq![(v as nat % 128 + 128) as u8]
                                    + spec_varint(v as nat / 128));
                                lemma_seq_shift(
                                    s@,
                                    start as int,
                                    end2,
                                    (v as nat % 128 + 128) as u8,
                                    spec_varint(v as nat / 128),
                                );
                                lemma_varint_unique(
                                    s@,
                                    start + 1,
                                    v as nat / 128,
                                    end2,
                                    hi as nat,
                                    end as int,
                                );
                                assert(v as nat / 128 == hi as nat);
                                assert(v as nat % 128 == low as nat) by {
                                    assert((v as nat % 128 + 128) as u8 == b);
                                }
                                assert(v as nat == 128 * (v as nat / 128) + v as nat % 128)
                                    by (nonlinear_arith);
                                if hi == 0 {
                                    assert(v < 128);
                                    assert(false);
                                } else {
                                    assert(hi as nat * 128 + low as nat <= u64::MAX);
                                    assert(hi <= (u64::MAX - low) / 128) by (nonlinear_arith)
                                        requires
                                            hi as nat * 128 + low as nat <= u64::MAX,
                                            low < 128,
                                    ;
                                    assert(false);
                                }
                            }
                        }
                    }
                }
                Option::None
            } else {
                proof {
                    assert(hi * 128 + low <= u64::MAX) by (nonlinear_arith)
                        requires
                            hi <= (u64::MAX - low) / 128,
                            low < 128,
                    ;
                }
                let v = hi * 128 + low;
                proof {
                    assert(v as nat / 128 == hi as nat && v as nat % 128 == low as nat)
                        by (nonlinear_arith)
                        requires
                            v == hi * 128 + low,
                            low < 128,
                            hi >= 1,
                    ;
                    assert(v >= 128) by (nonlinear_arith)
                        requires
                            v == hi * 128 + low,
                            hi >= 1,
                    ;
                    assert(spec_varint(v as nat) == seq![(v as nat % 128 + 128) as u8]
                        + spec_varint(v as nat / 128));
                    assert((v as nat % 128 + 128) as u8 == b);
                    assert(s@.subrange(start as int, end as int) =~= seq![b] + s@.subrange(
                        start + 1,
                        end as int,
                    ));
                }
                Option::Some((v, end))
            }
        },
    }
}

/// Copies `count` bytes beginning at `start`.
pub fn read_bytes(s: &[u8], start: usize, count: usize) -> (r: Vec<u8>)
    requires
        start + count <= s@.len(),
    ensures
        r@ == s@.subrange(start as int, (start + count) as int),
{
    let mut out: Vec<u8> = Vec::new();
    let n = s.len();
    let mut i: usize = 0;
    while i < count
        invariant
            n == s@.len(),
            start + count <= n,
            i <= count,
            out@ == s@.subrange(start as int, (start + i) as int),
        decreases count - i,
    {
        out.push(s[start + i]);
        proof {
            assert(out@ =~= s@.subrange(start as int, (start + i + 1) as int));
        }
        i = i + 1;
    }
    out
}

/// Decodes a tagged, length-delimited field at `start`.
pub fn decode_field(s: &[u8], start: usize, tag: u8) -> (r: Option<(Vec<u8>, usize)>)
    ensures
        match r {
            Option::Some((p, end)) => start < end <= s@.len() && s@.subrange(
                start as int,
                end as int,
            ) == spec_field(tag, p@),
            Option::None => forall|p: Seq<u8>, end: int|
                start <= end <= s@.len() ==> s@.subrange(start as int, end) != spec_field(tag, p),
        },
{
    let n = s.len();
    if start >= n || s[start] != tag {
        proof {
            assert forall|p: Seq<u8>, end: int|
                start <= end <= s@.len() implies s@.subrange(start as int, end) != spec_field(
                tag,
                p,
            ) by {
                if s@.subrange(start as int, end) == spec_field(tag, p) {
                    lemma_varint_len_pos(p.len());
                    assert(spec_field(tag, p) =~= seq![tag] + (spec_varint(p.len()) + p));
                    lemma_seq_shift(s@, start as int, end, tag, spec_varint(p.len()) + p);
                    assert(s@[start as int] == tag);
                    assert(start < end <= s@.len());
                    assert(false);
                }
            }
        }
        return Option::None;
    }
    match decode_varint(s, start + 1) {
        Option::None => {
            proof {
                assert forall|p: Seq<u8>, end: int|
                    start <= end <= s@.len() implies s@.subrange(start as int, end) != spec_field(
                    tag,
                    p,
                ) by {
                    if s@.subrange(start as int, end) == spec_field(tag, p) {
                        lemma_varint_len_pos(p.len());
                        assert(spec_field(tag, p) =~= seq![tag] + (spec_varint(p.len()) + p));
                        lemma_seq_shift(s@, start as int, end, tag, spec_varint(p.len()) + p);
                        lemma_seq_split(s@, start + 1, end, spec_varint(p.len()), p);
                        assert(p.len() <= u64::MAX) by {
                            assert(s@.subrange(start as int, end).len() <= s@.len());
                            assert(n == s@.len());
                        }
                        assert(s@.subrange(
                            start + 1,
                            start + 1 + spec_varint(p.len()).len(),
                        ) == spec_varint((p.len() as u64) as nat));
                        assert(false);
                    }
                }
            }
            Option::None
        },
        Option::Some((l, k)) => {
            if l > (n - k) as u64 {
                proof {
                    assert forall|p: Seq<u8>, end: int|
                        start <= end <= s@.len() implies s@.subrange(start as int, end)
                        != spec_field(tag, p) by {
                        if s@.subrange(start as int, end) == spec_field(tag, p) {
                            lemma_varint_len_pos(p.len());
                            assert(spec_field(tag, p) =~= seq![tag] + (spec_varint(p.len()) + p));
                            lemma_seq_shift(s@, start as int, end, tag, spec_varint(p.len()) + p);
                            lemma_seq_split(s@, start + 1, end, spec_varint(p.len()), p);
                            lemma_varint_unique(
                                s@,
                                start + 1,
                                p.len(),
                                start + 1 + spec_varint(p.len()).len(),
                                l as nat,
                                k as int,
                            );
                            assert(end == k + p.len());
                            assert(false);
                        }
                    }
                }
                Option::None
            } else {
                let count = l as usize;
                let p = read_bytes(s, k, count);
                proof {
                    assert(s@.subrange(start as int, (k + count) as int) =~= spec_field(tag, p@))
                        by {
                        assert(s@[start as int] == tag);
                        assert(s@.subrange(start + 1, k as int) == spec_varint(l as nat));
                        assert(p@ == s@.subrange(k as int, (k + count) as int));
                        assert forall|i: int|
                            0 <= i < (k + count) - start implies s@.subrange(
                            start as int,
                            (k + count) as int,
                        )[i] == spec_field(tag, p@)[i] by {
                            if i == 0 {
                            } else if i < k - start {
                                assert(s@.subrange(start + 1, k as int)[i - 1] == s@[start + i]);
                            } else {
                                assert(s@.subrange(k as int, (k + count) as int)[i - (k - start)]
                                    == s@[start + i]);
                            }
                        }
                        assert(p@.len() == l as nat);
                    }
                }
                Option::Some((p, k + count))
            }
        },
    }
}

} // verus!

verus! {

/// One more element extends a repeated field's encoding by one field.
proof fn lemma_rep_fields_push(tag: u8, ps: Seq<Seq<u8>>, x: Seq<u8>)
    ensures
        spec_rep_fields(tag, ps.push(x)) == spec_rep_fields(tag, ps) + spec_field(tag, x),
    decreases ps.len(),
{
    let l = ps.push(x);
    assert(l.len() == ps.len() + 1);
    assert(spec_rep_fields(tag, l) == spec_field(tag, l[0]) + spec_rep_fields(tag, l.drop_first()));
    if ps.len() == 0 {
        assert(l.drop_first() =~= Seq::<Seq<u8>>::empty());
        assert(l[0] == x);
        assert(spec_rep_fields(tag, ps) == Seq::<u8>::empty());
        assert(spec_rep_fields(tag, l) =~= spec_rep_fields(tag, ps) + spec_field(tag, x));
    } else {
        lemma_rep_fields_push(tag, ps.drop_first(), x);
        assert(l.drop_first() =~= ps.drop_first().push(x));
        assert(l[0] == ps[0]);
        assert(spec_rep_fields(tag, ps) == spec_field(tag, ps[0]) + spec_rep_fields(
            tag,
            ps.drop_first(),
        ));
        assert(spec_rep_fields(tag, l) =~= spec_rep_fields(tag, ps) + spec_field(tag, x));
    }
}

/// The byte at the end of the path decides whether a body field follows.
proof fn lemma_req_body_marker(
    s: Seq<u8>,
    verb: Seq<u8>,
    path: Seq<u8>,
    body: Option<Seq<u8>>,
    headers: Seq<Seq<u8>>,
    id: u64,
)
    requires
        s == spec_request_bytes(verb, path, body, headers, id),
    ensures
        req_end_of_path(verb, path) < s.len(),
        (body is Some) <==> s[req_end_of_path(verb, path)] == TAG_REQ_BODY,
{
    lemma_req_layout(s, verb, path, body, headers, id);
    lemma_opt_field_first(TAG_REQ_BODY, body);
    lemma_rep_first_byte_or_empty(TAG_REQ_HEADER, headers);
    let q2 = req_end_of_path(verb, path);
    let q3 = req_end_of_body(verb, path, body);
    let q4 = req_end_of_headers(verb, path, body, headers);
    assert(s[q2] == (if body is Some {
        TAG_REQ_BODY
    } else {
        if headers.len() > 0 {
            TAG_REQ_HEADER
        } else {
            TAG_REQ_ID
        }
    })) by {
        if body is Some {
            assert(s.subrange(q2, q3)[0] == s[q2]);
        } else {
            assert(q3 == q2);
            if headers.len() > 0 {
                assert(s.subrange(q3, q4)[0] == s[q3]);
            }
        }
    }
}

/// Under a canonical request, the first two parsed fields pin the verb
/// and path.
proof fn lemma_req_pin_two(
    s: Seq<u8>,
    verb: Seq<u8>,
    path: Seq<u8>,
    body: Option<Seq<u8>>,
    headers: Seq<Seq<u8>>,
    id: u64,
    vg: Seq<u8>,
    i1: int,
    pg: Seq<u8>,
    i2: int,
)
    requires
        s == spec_request_bytes(verb, path, body, headers, id),
        0 < i1 <= s.len(),
        s.subrange(0, i1) == spec_field(TAG_REQ_VERB, vg),
        i1 <= i2 <= s.len(),
        s.subrange(i1, i2) == spec_field(TAG_REQ_PATH, pg),
    ensures
        vg == verb,
        i1 == req_end_of_verb(verb),
        pg == path,
        i2 == req_end_of_path(verb, path),
{
    lemma_req_layout(s, verb, path, body, headers, id);
    let q1 = req_end_of_verb(verb);
    let q2 = req_end_of_path(verb, path);
    assert(s.subrange(0, s.len() as int) =~= s.subrange(0, i1) + s.subrange(i1, s.len() as int));
    assert(s.subrange(0, s.len() as int) =~= s.subrange(0, q1) + s.subrange(q1, s.len() as int));
    assert(s =~= s.subrange(0, s.len() as int));
    lemma_field_prefix_unique(
        TAG_REQ_VERB,
        vg,
        s.subrange(i1, s.len() as int),
        verb,
        s.subrange(q1, s.len() as int),
    );
    assert(s.subrange(i1, s.len() as int) =~= s.subrange(i1, i2) + s.subrange(i2, s.len() as int));
    assert(s.subrange(q1, s.len() as int) =~= s.subrange(q1, q2) + s.subrange(q2, s.len() as int));
    lemma_field_prefix_unique(
        TAG_REQ_PATH,
        pg,
        s.subrange(i2, s.len() as int),
        path,
        s.subrange(q2, s.len() as int),
    );
}

/// Decodes the canonical wire bytes of a request message: it succeeds on
/// exactly the canonical encodings, and a `Some` result is exact — the
/// input is precisely the returned message's canonical encoding.
#[verifier::rlimit(100)]
pub fn decode_request(s: &[u8]) -> (r: Option<RequestFrame>)
    ensures
        match r {
            Option::Some(f) => s@ == f.wire(),
            Option::None => true,
        },
        forall|verb: Seq<u8>, path: Seq<u8>, body: Option<Seq<u8>>, headers: Seq<Seq<u8>>, id: u64|
            s@ == spec_request_bytes(verb, path, body, headers, id) ==> (r
                matches Option::Some(f) && f.verb@ == verb && f.path@ == path && opt_bytes_view(
                f.body,
            ) == body && f.headers.deep_view() == headers && f.id == id),
{
    let n = s.len();
    let (verb, i1) = match decode_field(s, 0, TAG_REQ_VERB) {
        Option::None => {
            proof {
                assert forall|verb: Seq<u8>, path: Seq<u8>, body: Option<Seq<u8>>, headers: Seq<Seq<u8>>, id: u64|
                    s@ != spec_request_bytes(verb, path, body, headers, id) by {
                    if s@ == spec_request_bytes(verb, path, body, headers, id) {
                        lemma_req_layout(s@, verb, path, body, headers, id);
                        assert(s@.subrange(0, req_end_of_verb(verb)) == spec_field(
                            TAG_REQ_VERB,
                            verb,
                        ));
                        assert(false);
                    }
                }
            }
            return Option::None;
        },
        Option::Some(x) => x,
    };
    let (path, i2) = match decode_field(s, i1, TAG_REQ_PATH) {
        Option::None => {
            proof {
                assert forall|verb2: Seq<u8>, path: Seq<u8>, body: Option<Seq<u8>>, headers: Seq<Seq<u8>>, id: u64|
                    s@ != spec_request_bytes(verb2, path, body, headers, id) by {
                    if s@ == spec_request_bytes(verb2, path, body, headers, id) {
                        lemma_req_layout(s@, verb2, path, body, headers, id);
                        assert(s@.subrange(0, s@.len() as int) =~= s@.subrange(0, i1 as int)
                            + s@.subrange(i1 as int, s@.len() as int));
                        assert(s@.subrange(0, s@.len() as int) =~= s@.subrange(
                            0,
                            req_end_of_verb(verb2),
                        ) + s@.subrange(req_end_of_verb(verb2), s@.len() as int));
                        assert(s@ =~= s@.subrange(0, s@.len() as int));
                        lemma_field_prefix_unique(
                            TAG_REQ_VERB,
                            verb@,
                            s@.subrange(i1 as int, s@.len() as int),
                            verb2,
                            s@.subrange(req_end_of_verb(verb2), s@.len() as int),
                        );
                        assert(s@.subrange(i1 as int, req_end_of_path(verb2, path)) == spec_field(
                            TAG_REQ_PATH,
                            path,
                        ));
                        assert(false);
                    }
                }
            }
            return Option::None;
        },
        Option::Some(x) => x,
    };
    let (body, i3) = if i2 < n && s[i2] == TAG_REQ_BODY {
        match decode_field(s, i2, TAG_REQ_BODY) {
            Option::None => {
                proof {
                    assert forall|verb2: Seq<u8>, path2: Seq<u8>, body: Option<Seq<u8>>, headers: Seq<Seq<u8>>, id: u64|
                        s@ != spec_request_bytes(verb2, path2, body, headers, id) by {
                        if s@ == spec_request_bytes(verb2, path2, body, headers, id) {
                            lemma_req_pin_two(
                                s@,
                                verb2,
                                path2,
                                body,
                                headers,
                                id,
                                verb@,
                                i1 as int,
                                path@,
                                i2 as int,
                            );
                            lemma_req_body_marker(s@, verb2, path2, body, headers, id);
                            lemma_req_layout(s@, verb2, path2, body, headers, id);
                            match body {
                                Option::Some(bb) => {
                                    assert(s@.subrange(
                                        req_end_of_path(verb2, path2),
                                        req_end_of_body(verb2, path2, body),
                                    ) == spec_field(TAG_REQ_BODY, bb));
                                    assert(false);
                                },
                                Option::None => {
                                    assert(false);
                                },
                            }
                        }
                    }
                }
                return Option::None;
            },
            Option::Some((b, j)) => (Option::Some(b), j),
        }
    } else {
        (Option::None, i2)
    };
    proof {
        assert(got_opt_field(s@, TAG_REQ_BODY, i2 as int, opt_bytes_view(body), i3 as int));
    }
    let mut headers: Vec<Vec<u8>> = Vec::new();
    let mut i: usize = i3;
    while i < n && s[i] == TAG_REQ_HEADER
        invariant
            n == s@.len(),
            0 < i1 <= n,
            s@.subrange(0, i1 as int) == spec_field(TAG_REQ_VERB, verb@),
            i1 <= i2 <= n,
            s@.subrange(i1 as int, i2 as int) == spec_field(TAG_REQ_PATH, path@),
            got_opt_field(s@, TAG_REQ_BODY, i2 as int, opt_bytes_view(body), i3 as int),
            i3 <= i <= n,
            s@.subrange(i3 as int, i as int) == spec_rep_fields(
                TAG_REQ_HEADER,
                headers.deep_view(),
            ),
        decreases n - i,
    {
        match decode_field(s, i, TAG_REQ_HEADER) {
            Option::None => {
                proof {
                    assert forall|verb2: Seq<u8>, path2: Seq<u8>, body2: Option<Seq<u8>>, headers2: Seq<Seq<u8>>, id: u64|
                        s@ != spec_request_bytes(verb2, path2, body2, headers2, id) by {
                        if s@ == spec_request_bytes(verb2, path2, body2, headers2, id) {
                            lemma_req_pin_front(
                                s@,
                                verb2,
                                path2,
                                body2,
                                headers2,
                                id,
                                verb@,
                                i1 as int,
                                path@,
                                i2 as int,
                                opt_bytes_view(body),
                                i3 as int,
                            );
                            lemma_req_layout(s@, verb2, path2, body2, headers2, id);
                            lemma_rep_close_next_field(
                                s@,
                                TAG_REQ_HEADER,
                                TAG_REQ_ID,
                                i3 as int,
                                headers2,
                                id as nat,
                                headers.deep_view(),
                                i as int,
                            );
                            assert(false);
                        }
                    }
                }
                return Option::None;
            },
            Option::Some((h, j)) => {
                proof {
                    lemma_rep_fields_push(TAG_REQ_HEADER, headers.deep_view(), h@);
                }
                let ghost old_dv = headers.deep_view();
                let ghost old_i = i;
                headers.push(h);
                i = j;
                proof {
                    assert(headers.deep_view() =~= old_dv.push(h@)) by {
                        assert forall|m: int| 0 <= m < headers.deep_view().len() implies
                            headers.deep_view()[m] == old_dv.push(h@)[m] by {
                            if m < old_dv.len() {
                            } else {
                                assert(headers@[m] == h);
                                assert(h.deep_view() =~= h@);
                            }
                        }
                    }
                    assert(s@.subrange(i3 as int, i as int) =~= s@.subrange(i3 as int, old_i as int)
                        + s@.subrange(old_i as int, i as int));
                }
            },
        }
    }
    if i >= n || s[i] != TAG_REQ_ID {
        proof {
            assert forall|verb2: Seq<u8>, path2: Seq<u8>, body2: Option<Seq<u8>>, headers2: Seq<Seq<u8>>, id: u64|
                s@ != spec_request_bytes(verb2, path2, body2, headers2, id) by {
                if s@ == spec_request_bytes(verb2, path2, body2, headers2, id) {
                    lemma_req_pin_front(
                        s@,
                        verb2,
                        path2,
                        body2,
                        headers2,
                        id,
                        verb@,
                        i1 as int,
                        path@,
                        i2 as int,
                        opt_bytes_view(body),
                        i3 as int,
                    );
                    lemma_req_layout(s@, verb2, path2, body2, headers2, id);
                    lemma_rep_close_pins(
                        s@,
                        TAG_REQ_HEADER,
                        TAG_REQ_ID,
                        i3 as int,
                        headers2,
                        id as nat,
                        headers.deep_view(),
                        i as int,
                    );
                    assert(false);
                }
            }
        }
        return Option::None;
    }
    let (id, end) = match decode_varint(s, i + 1) {
        Option::None => {
            proof {
                assert forall|verb2: Seq<u8>, path2: Seq<u8>, body2: Option<Seq<u8>>, headers2: Seq<Seq<u8>>, id2: u64|
                    s@ != spec_request_bytes(verb2, path2, body2, headers2, id2) by {
                    if s@ == spec_request_bytes(verb2, path2, body2, headers2, id2) {
                        lemma_req_pin_front(
                            s@,
                            verb2,
                            path2,
                            body2,
                            headers2,
                            id2,
                            verb@,
                            i1 as int,
                            path@,
                            i2 as int,
                            opt_bytes_view(body),
                            i3 as int,
                        );
                        lemma_req_layout(s@, verb2, path2, body2, headers2, id2);
                        lemma_rep_close_pins(
                            s@,
                            TAG_REQ_HEADER,
                            TAG_REQ_ID,
                            i3 as int,
                            headers2,
                            id2 as nat,
                            headers.deep_view(),
                            i as int,
                        );
                        assert(false);
                    }
                }
            }
            return Option::None;
        },
        Option::Some(x) => x,
    };
    if end != n {
        proof {
            assert forall|verb2: Seq<u8>, path2: Seq<u8>, body2: Option<Seq<u8>>, headers2: Seq<Seq<u8>>, id2: u64|
                s@ != spec_request_bytes(verb2, path2, body2, headers2, id2) by {
                if s@ == spec_request_bytes(verb2, path2, body2, headers2, id2) {
                    lemma_req_pin_front(
                        s@,
                        verb2,
                        path2,
                        body2,
                        headers2,
                        id2,
                        verb@,
                        i1 as int,
                        path@,
                        i2 as int,
                        opt_bytes_view(body),
                        i3 as int,
                    );
                    lemma_req_layout(s@, verb2, path2, body2, headers2, id2);
                    lemma_rep_close_pins(
                        s@,
                        TAG_REQ_HEADER,
                        TAG_REQ_ID,
                        i3 as int,
                        headers2,
                        id2 as nat,
                        headers.deep_view(),
                        i as int,
                    );
                    lemma_varint_unique(s@, i + 1, id as nat, end as int, id2 as nat, n as int);
                    assert(false);
                }
            }
        }
        return Option::None;
    }
    let f = RequestFrame { verb, path, body, headers, id };
    proof {
        assert(s@ =~= s@.subrange(0, i1 as int) + s@.subrange(i1 as int, i2 as int) + s@.subrange(
            i2 as int,
            i3 as int,
        ) + s@.subrange(i3 as int, i as int) + seq![TAG_REQ_ID] + s@.subrange(i + 1, n as int));
        assert(s@.subrange(i2 as int, i3 as int) =~= spec_opt_field(
            TAG_REQ_BODY,
            opt_bytes_view(f.body),
        ));
        assert(s@ =~= f.wire());
        assert forall|verb2: Seq<u8>, path2: Seq<u8>, body2: Option<Seq<u8>>, headers2: Seq<Seq<u8>>, id2: u64|
            s@ == spec_request_bytes(verb2, path2, body2, headers2, id2) implies f.verb@ == verb2
            && f.path@ == path2 && opt_bytes_view(f.body) == body2 && f.headers.deep_view()
            == headers2 && f.id == id2 by {
            lemma_req_pin_front(
                s@,
                verb2,
                path2,
                body2,
                headers2,
                id2,
                f.verb@,
                i1 as int,
                f.path@,
                i2 as int,
                opt_bytes_view(f.body),
                i3 as int,
            );
            lemma_req_layout(s@, verb2, path2, body2, headers2, id2);
            lemma_rep_close_pins(
                s@,
                TAG_REQ_HEADER,
                TAG_REQ_ID,
                i3 as int,
                headers2,
                id2 as nat,
                f.headers.deep_view(),
                i as int,
            );
            lemma_varint_unique(s@, i + 1, id as nat, end as int, id2 as nat, s@.len() as int);
        }
    }
    Option::Some(f)
}

/// Decodes the canonical wire bytes of a response message: it succeeds
/// on exactly the canonical encodings, and a `Some` result is exact — the
/// input is precisely the returned message's canonical encoding.
#[verifier::rlimit(100)]
pub fn decode_response(s: &[u8]) -> (r: Option<ResponseFrame>)
    ensures
        match r {
            Option::Some(f) => s@ == f.wire(),
            Option::None => true,
        },
        forall|status: u64, message: Option<Seq<u8>>, body: Option<Seq<u8>>, headers: Seq<Seq<u8>>, id: u64|
            s@ == spec_response_bytes(status, message, body, headers, id) ==> (r
                matches Option::Some(f) && f.status == status && opt_bytes_view(f.message)
                == message && opt_bytes_view(f.body) == body && f.headers.deep_view() == headers
                && f.id == id),
{
    let n = s.len();
    if n == 0 || s[0] != TAG_RESP_STATUS {
        proof {
            assert forall|status: u64, message: Option<Seq<u8>>, body: Option<Seq<u8>>, headers: Seq<Seq<u8>>, id: u64|
                s@ != spec_response_bytes(status, message, body, headers, id) by {
                if s@ == spec_response_bytes(status, message, body, headers, id) {
                    lemma_resp_layout(s@, status, message, body, headers, id);
                }
            }
        }
        return Option::None;
    }
    let (status, i1) = match decode_varint(s, 1) {
        Option::None => {
            proof {
                assert forall|status: u64, message: Option<Seq<u8>>, body: Option<Seq<u8>>, headers: Seq<Seq<u8>>, id: u64|
                    s@ != spec_response_bytes(status, message, body, headers, id) by {
                    if s@ == spec_response_bytes(status, message, body, headers, id) {
                        lemma_resp_layout(s@, status, message, body, headers, id);
                        assert(s@.subrange(1, resp_end_of_status(status)) == spec_varint(
                            status as nat,
                        ));
                        assert(false);
                    }
                }
            }
            return Option::None;
        },
        Option::Some(x) => x,
    };
    let (message, i2) = if i1 < n && s[i1] == TAG_RESP_MESSAGE {
        match decode_field(s, i1, TAG_RESP_MESSAGE) {
            Option::None => {
                proof {
                    assert forall|status2: u64, message: Option<Seq<u8>>, body: Option<Seq<u8>>, headers: Seq<Seq<u8>>, id: u64|
                        s@ != spec_response_bytes(status2, message, body, headers, id) by {
                        if s@ == spec_response_bytes(status2, message, body, headers, id) {
                            lemma_resp_pin_status(
                                s@,
                                status2,
                                message,
                                body,
                                headers,
                                id,
                                status,
                                i1 as int,
                            );
                            lemma_resp_markers(s@, status2, message, body, headers, id);
                            lemma_resp_layout(s@, status2, message, body, headers, id);
                            match message {
                                Option::Some(mm) => {
                                    assert(s@.subrange(
                                        resp_end_of_status(status2),
                                        resp_end_of_message(status2, message),
                                    ) == spec_field(TAG_RESP_MESSAGE, mm));
                                    assert(false);
                                },
                                Option::None => {
                                    assert(false);
                                },
                            }
                        }
                    }
                }
                return Option::None;
            },
            Option::Some((m, j)) => (Option::Some(m), j),
        }
    } else {
        (Option::None, i1)
    };
    proof {
        assert(got_opt_field(s@, TAG_RESP_MESSAGE, i1 as int, opt_bytes_view(message), i2 as int));
    }
    let (body, i3) = if i2 < n && s[i2] == TAG_RESP_BODY {
        match decode_field(s, i2, TAG_RESP_BODY) {
            Option::None => {
                proof {
                    assert forall|status2: u64, message2: Option<Seq<u8>>, body: Option<Seq<u8>>, headers: Seq<Seq<u8>>, id: u64|
                        s@ != spec_response_bytes(status2, message2, body, headers, id) by {
                        if s@ == spec_response_bytes(status2, message2, body, headers, id) {
                            lemma_resp_pin_message(
                                s@,
                                status2,
                                message2,
                                body,
                                headers,
                                id,
                                status,
                                i1 as int,
                                opt_bytes_view(message),
                                i2 as int,
                            );
                            lemma_resp_markers(s@, status2, message2, body, headers, id);
                            lemma_resp_layout(s@, status2, message2, body, headers, id);
                            match body {
                                Option::Some(bb) => {
                                    assert(s@.subrange(
                                        resp_end_of_message(status2, message2),
                                        resp_end_of_body(status2, message2, body),
                                    ) == spec_field(TAG_RESP_BODY, bb));
                                    assert(false);
                                },
                                Option::None => {
                                    assert(false);
                                },
                            }
                        }
                    }
                }
                return Option::None;
            },
            Option::Some((b, j)) => (Option::Some(b), j),
        }
    } else {
        (Option::None, i2)
    };
    proof {
        assert(got_opt_field(s@, TAG_RESP_BODY, i2 as int, opt_bytes_view(body), i3 as int));
    }
    let mut headers: Vec<Vec<u8>> = Vec::new();
    let mut i: usize = i3;
    while i < n && s[i] == TAG_RESP_HEADER
        invariant
            n == s@.len(),
            n >= 1 && s@[0] == TAG_RESP_STATUS,
            1 <= i1 <= n,
            s@.subrange(1, i1 as int) == spec_varint(status as nat),
            got_opt_field(s@, TAG_RESP_MESSAGE, i1 as int, opt_bytes_view(message), i2 as int),
            got_opt_field(s@, TAG_RESP_BODY, i2 as int, opt_bytes_view(body), i3 as int),
            i3 <= i <= n,
            s@.subrange(i3 as int, i as int) == spec_rep_fields(
                TAG_RESP_HEADER,
                headers.deep_view(),
            ),
        decreases n - i,
    {
        match decode_field(s, i, TAG_RESP_HEADER) {
            Option::None => {
                proof {
                    assert forall|status2: u64, message2: Option<Seq<u8>>, body2: Option<Seq<u8>>, headers2: Seq<Seq<u8>>, id: u64|
                        s@ != spec_response_bytes(status2, message2, body2, headers2, id) by {
                        if s@ == spec_response_bytes(status2, message2, body2, headers2, id) {
                            lemma_resp_pin_front(
                                s@,
                                status2,
                                message2,
                                body2,
                                headers2,
                                id,
                                status,
                                i1 as int,
                                opt_bytes_view(message),
                                i2 as int,
                                opt_bytes_view(body),
                                i3 as int,
                            );
                            lemma_resp_header_field_exists(
                                s@,
                                status2,
                                message2,
                                body2,
                                headers2,
                                id,
                                headers.deep_view(),
                                i3 as int,
                                i as int,
                            );
                            assert(false);
                        }
                    }
                }
                return Option::None;
            },
            Option::Some((h, j)) => {
                proof {
                    lemma_rep_fields_push(TAG_RESP_HEADER, headers.deep_view(), h@);
                }
                let ghost old_dv = headers.deep_view();
                let ghost old_i = i;
                headers.push(h);
                i = j;
                proof {
                    assert(headers.deep_view() =~= old_dv.push(h@)) by {
                        assert forall|m: int| 0 <= m < headers.deep_view().len() implies
                            headers.deep_view()[m] == old_dv.push(h@)[m] by {
                            if m < old_dv.len() {
                            } else {
                                assert(headers@[m] == h);
                                assert(h.deep_view() =~= h@);
                            }
                        }
                    }
                    assert(s@.subrange(i3 as int, i as int) =~= s@.subrange(i3 as int, old_i as int)
                        + s@.subrange(old_i as int, i as int));
                }
            },
        }
    }
    if i >= n || s[i] != TAG_RESP_ID {
        proof {
            assert forall|status2: u64, message2: Option<Seq<u8>>, body2: Option<Seq<u8>>, headers2: Seq<Seq<u8>>, id: u64|
                s@ != spec_response_bytes(status2, message2, body2, headers2, id) by {
                if s@ == spec_response_bytes(status2, message2, body2, headers2, id) {
                    lemma_resp_pin_front(
                        s@,
                        status2,
                        message2,
                        body2,
                        headers2,
                        id,
                        status,
                        i1 as int,
                        opt_bytes_view(message),
                        i2 as int,
                        opt_bytes_view(body),
                        i3 as int,
                    );
                    lemma_resp_pin_tail(
                        s@,
                        status2,
                        message2,
                        body2,
                        headers2,
                        id,
                        headers.deep_view(),
                        i3 as int,
                        i as int,
                    );
                    assert(false);
                }
            }
        }
        return Option::None;
    }
    let (id, end) = match decode_varint(s, i + 1) {
        Option::None => {
            proof {
                assert forall|status2: u64, message2: Option<Seq<u8>>, body2: Option<Seq<u8>>, headers2: Seq<Seq<u8>>, id2: u64|
                    s@ != spec_response_bytes(status2, message2, body2, headers2, id2) by {
                    if s@ == spec_response_bytes(status2, message2, body2, headers2, id2) {
                        lemma_resp_pin_front(
                            s@,
                            status2,
                            message2,
                            body2,
                            headers2,
                            id2,
                            status,
                            i1 as int,
                            opt_bytes_view(message),
                            i2 as int,
                            opt_bytes_view(body),
                            i3 as int,
                        );
                        lemma_resp_pin_tail(
                            s@,
                            status2,
                            message2,
                            body2,
                            headers2,
                            id2,
                            headers.deep_view(),
                            i3 as int,
                            i as int,
                        );
                        assert(s@.subrange(i + 1, n as int) == spec_varint(id2 as nat));
                        assert(false);
                    }
                }
            }
            return Option::None;
        },
        Option::Some(x) => x,
    };
    if end != n {
        proof {
            assert forall|status2: u64, message2: Option<Seq<u8>>, body2: Option<Seq<u8>>, headers2: Seq<Seq<u8>>, id2: u64|
                s@ != spec_response_bytes(status2, message2, body2, headers2, id2) by {
                if s@ == spec_response_bytes(status2, message2, body2, headers2, id2) {
                    lemma_resp_pin_front(
                        s@,
                        status2,
                        message2,
                        body2,
                        headers2,
                        id2,
                        status,
                        i1 as int,
                        opt_bytes_view(message),
                        i2 as int,
                        opt_bytes_view(body),
                        i3 as int,
                    );
                    lemma_resp_pin_tail(
                        s@,
                        status2,
                        message2,
                        body2,
                        headers2,
                        id2,
                        headers.deep_view(),
                        i3 as int,
                        i as int,
                    );
                    lemma_varint_unique(s@, i + 1, id as nat, end as int, id2 as nat, n as int);
                    assert(false);
                }
            }
        }
        return Option::None;
    }
    let f = ResponseFrame { status, message, body, headers, id };
    proof {
        assert(s@ =~= seq![TAG_RESP_STATUS] + s@.subrange(1, i1 as int) + s@.subrange(
            i1 as int,
            i2 as int,
        ) + s@.subrange(i2 as int, i3 as int) + s@.subrange(i3 as int, i as int) + seq![
            TAG_RESP_ID,
        ] + s@.subrange(i + 1, n as int));
        assert(s@.subrange(i1 as int, i2 as int) =~= spec_opt_field(
            TAG_RESP_MESSAGE,
            opt_bytes_view(f.message),
        ));
        assert(s@.subrange(i2 as int, i3 as int) =~= spec_opt_field(
            TAG_RESP_BODY,
            opt_bytes_view(f.body),
        ));
        assert(s@ =~= f.wire());
        assert forall|status2: u64, message2: Option<Seq<u8>>, body2: Option<Seq<u8>>, headers2: Seq<Seq<u8>>, id2: u64|
            s@ == spec_response_bytes(status2, message2, body2, headers2, id2) implies f.status
            == status2 && opt_bytes_view(f.message) == message2 && opt_bytes_view(f.body) == body2
            && f.headers.deep_view() == headers2 && f.id == id2 by {
            lemma_resp_pin_front(
                s@,
                status2,
                message2,
                body2,
                headers2,
                id2,
                status,
                i1 as int,
                opt_bytes_view(message),
                i2 as int,
                opt_bytes_view(body),
                i3 as int,
            );
            lemma_resp_pin_tail(
                s@,
                status2,
                message2,
                body2,
                headers2,
                id2,
                f.headers.deep_view(),
                i3 as int,
                i as int,
            );
            lemma_varint_unique(s@, i + 1, id as nat, end as int, id2 as nat, s@.len() as int);
        }
    }
    Option::Some(f)
}

} // verus!

verus! {

/// A field is determined by its position: two fields with the same tag
/// read at the start of the same byte string carry the same payload and
/// leave the same remainder.
proof fn lemma_field_prefix_unique(tag: u8, p1: Seq<u8>, r1: Seq<u8>, p2: Seq<u8>, r2: Seq<u8>)
    requires
        spec_field(tag, p1) + r1 == spec_field(tag, p2) + r2,
    ensures
        p1 == p2,
        r1 == r2,
{
    let s = spec_field(tag, p1) + r1;
    assert(s.subrange(0, s.len() as int) =~= s);
    lemma_varint_len_pos(p1.len());
    lemma_varint_len_pos(p2.len());
    assert(s =~= (seq![tag] + spec_varint(p1.len()) + p1) + r1);
    lemma_seq_split(s, 0, s.len() as int, seq![tag] + spec_varint(p1.len()) + p1, r1);
    lemma_seq_split(
        s,
        0,
        1 + spec_varint(p1.len()).len() + p1.len() as int,
        seq![tag] + spec_varint(p1.len()),
        p1,
    );
    lemma_seq_split(s, 0, 1 + spec_varint(p1.len()).len() as int, seq![tag], spec_varint(p1.len()));
    assert(s =~= (seq![tag] + spec_varint(p2.len()) + p2) + r2);
    lemma_seq_split(s, 0, s.len() as int, seq![tag] + spec_varint(p2.len()) + p2, r2);
    lemma_seq_split(
        s,
        0,
        1 + spec_varint(p2.len()).len() + p2.len() as int,
        seq![tag] + spec_varint(p2.len()),
        p2,
    );
    lemma_seq_split(s, 0, 1 + spec_varint(p2.len()).len() as int, seq![tag], spec_varint(p2.len()));
    lemma_varint_unique(
        s,
        1,
        p1.len(),
        1 + spec_varint(p1.len()).len() as int,
        p2.len(),
        1 + spec_varint(p2.len()).len() as int,
    );
    assert(p1 =~= p2);
    assert(r1 =~= r2);
}

/// A nonempty repeated field opens with its tag.
proof fn lemma_rep_first_byte(tag: u8, ps: Seq<Seq<u8>>)
    requires
        ps.len() > 0,
    ensures
        spec_rep_fields(tag, ps).len() >= 2,
        spec_rep_fields(tag, ps)[0] == tag,
{
    lemma_varint_len_pos(ps[0].len());
    assert(spec_field(tag, ps[0])[0] == tag);
    assert(spec_rep_fields(tag, ps)[0] == spec_field(tag, ps[0])[0]);
}

/// Two decompositions of the same bytes into a repeated field and a
/// remainder that does not open with the tag agree entirely.
proof fn lemma_rep_complete(tag: u8, full: Seq<Seq<u8>>, done: Seq<Seq<u8>>, c1: Seq<u8>, c2: Seq<u8>)
    requires
        spec_rep_fields(tag, full) + c1 == spec_rep_fields(tag, done) + c2,
        c1.len() == 0 || c1[0] != tag,
        c2.len() == 0 || c2[0] != tag,
    ensures
        full == done,
        c1 == c2,
    decreases full.len(),
{
    if full.len() == 0 && done.len() == 0 {
        assert(c1 =~= Seq::<u8>::empty() + c1);
        assert(c2 =~= Seq::<u8>::empty() + c2);
        assert(c1 =~= c2);
    } else if full.len() > 0 && done.len() == 0 {
        lemma_rep_first_byte(tag, full);
        assert((spec_rep_fields(tag, full) + c1)[0] == tag);
        assert((spec_rep_fields(tag, done) + c2)[0] == c2[0]) by {
            assert(spec_rep_fields(tag, done) =~= Seq::<u8>::empty());
        }
        assert(false);
    } else if full.len() == 0 && done.len() > 0 {
        lemma_rep_first_byte(tag, done);
        assert((spec_rep_fields(tag, done) + c2)[0] == tag);
        assert((spec_rep_fields(tag, full) + c1)[0] == c1[0]) by {
            assert(spec_rep_fields(tag, full) =~= Seq::<u8>::empty());
        }
        assert(false);
    } else {
        assert(spec_rep_fields(tag, full) + c1 =~= spec_field(tag, full[0]) + (spec_rep_fields(
            tag,
            full.drop_first(),
        ) + c1));
        assert(spec_rep_fields(tag, done) + c2 =~= spec_field(tag, done[0]) + (spec_rep_fields(
            tag,
            done.drop_first(),
        ) + c2));
        lemma_field_prefix_unique(
            tag,
            full[0],
            spec_rep_fields(tag, full.drop_first()) + c1,
            done[0],
            spec_rep_fields(tag, done.drop_first()) + c2,
        );
        lemma_rep_complete(tag, full.drop_first(), done.drop_first(), c1, c2);
        assert(full =~= done) by {
            assert(full.len() == done.len());
            assert forall|i: int| 0 <= i < full.len() implies full[i] == done[i] by {
                if i > 0 {
                    assert(full.drop_first()[i - 1] == done.drop_first()[i - 1]);
                }
            }
        }
    }
}

/// When a repeated field's remainder still opens with the tag, the next
/// element's field sits right there.
proof fn lemma_rep_next_field(tag: u8, full: Seq<Seq<u8>>, done: Seq<Seq<u8>>, c1: Seq<u8>, tail: Seq<u8>)
    requires
        spec_rep_fields(tag, full) + c1 == spec_rep_fields(tag, done) + tail,
        c1.len() == 0 || c1[0] != tag,
        tail.len() >= 1,
        tail[0] == tag,
    ensures
        done.len() < full.len(),
        tail == spec_field(tag, full[done.len() as int]) + (spec_rep_fields(
            tag,
            full.skip(done.len() as int + 1),
        ) + c1),
    decreases full.len(),
{
    if done.len() == 0 {
        assert(tail =~= spec_rep_fields(tag, full) + c1);
        if full.len() == 0 {
            assert(tail =~= c1);
            assert(false);
        }
        assert(tail =~= spec_field(tag, full[0]) + (spec_rep_fields(tag, full.drop_first())
            + c1));
        assert(full.skip(1) =~= full.drop_first());
    } else {
        if full.len() == 0 {
            lemma_rep_first_byte(tag, done);
            assert((spec_rep_fields(tag, done) + tail)[0] == tag);
            assert((spec_rep_fields(tag, full) + c1)[0] == c1[0]) by {
                assert(spec_rep_fields(tag, full) =~= Seq::<u8>::empty());
            }
            assert(false);
        }
        assert(spec_rep_fields(tag, full) + c1 =~= spec_field(tag, full[0]) + (spec_rep_fields(
            tag,
            full.drop_first(),
        ) + c1));
        assert(spec_rep_fields(tag, done) + tail =~= spec_field(tag, done[0]) + (spec_rep_fields(
            tag,
            done.drop_first(),
        ) + tail));
        lemma_field_prefix_unique(
            tag,
            full[0],
            spec_rep_fields(tag, full.drop_first()) + c1,
            done[0],
            spec_rep_fields(tag, done.drop_first()) + tail,
        );
        lemma_rep_next_field(tag, full.drop_first(), done.drop_first(), c1, tail);
        assert(full.drop_first()[done.len() - 1] == full[done.len() as int]);
        assert(full.drop_first().skip(done.len() as int) =~= full.skip(done.len() as int + 1));
    }
}

} // verus!

verus! {

/// Boundaries inside a canonical response encoding.
pub open spec fn resp_end_of_status(status: u64) -> int {
    1 + spec_varint(status as nat).len() as int
}

pub open spec fn resp_end_of_message(status: u64, message: Option<Seq<u8>>) -> int {
    resp_end_of_status(status) + spec_opt_field(TAG_RESP_MESSAGE, message).len()
}

pub open spec fn resp_end_of_body(
    status: u64,
    message: Option<Seq<u8>>,
    body: Option<Seq<u8>>,
) -> int {
    resp_end_of_message(status, message) + spec_opt_field(TAG_RESP_BODY, body).len()
}

pub open spec fn resp_end_of_headers(
    status: u64,
    message: Option<Seq<u8>>,
    body: Option<Seq<u8>>,
    headers: Seq<Seq<u8>>,
) -> int {
    resp_end_of_body(status, message, body) + spec_rep_fields(TAG_RESP_HEADER, headers).len()
}

/// The layout of a canonical response encoding: where each segment sits.
proof fn lemma_resp_layout(
    s: Seq<u8>,
    status: u64,
    message: Option<Seq<u8>>,
    body: Option<Seq<u8>>,
    headers: Seq<Seq<u8>>,
    id: u64,
)
    requires
        s == spec_response_bytes(status, message, body, headers, id),
    ensures
        s.len() == resp_end_of_headers(status, message, body, headers) + 1 + spec_varint(
            id as nat,
        ).len(),
        s.len() >= 1 && s[0] == TAG_RESP_STATUS,
        s.subrange(1, resp_end_of_status(status)) == spec_varint(status as nat),
        s.subrange(resp_end_of_status(status), resp_end_of_message(status, message))
            == spec_opt_field(TAG_RESP_MESSAGE, message),
        s.subrange(resp_end_of_message(status, message), resp_end_of_body(status, message, body))
            == spec_opt_field(TAG_RESP_BODY, body),
        s.subrange(
            resp_end_of_body(status, message, body),
            resp_end_of_headers(status, message, body, headers),
        ) == spec_rep_fields(TAG_RESP_HEADER, headers),
        s[resp_end_of_headers(status, message, body, headers)] == TAG_RESP_ID,
        s.subrange(resp_end_of_headers(status, message, body, headers) + 1, s.len() as int)
            == spec_varint(id as nat),
{
    let a: Seq<u8> = seq![TAG_RESP_STATUS];
    let b = spec_varint(status as nat);
    let c = spec_opt_field(TAG_RESP_MESSAGE, message);
    let d = spec_opt_field(TAG_RESP_BODY, body);
    let e = spec_rep_fields(TAG_RESP_HEADER, headers);
    let f: Seq<u8> = seq![TAG_RESP_ID];
    let g = spec_varint(id as nat);
    lemma_varint_len_pos(status as nat);
    lemma_varint_len_pos(id as nat);
    assert(s.subrange(0, s.len() as int) =~= s);
    lemma_seq_split(s, 0, s.len() as int, a + b + c + d + e + f, g);
    lemma_seq_split(s, 0, resp_end_of_headers(status, message, body, headers) + 1, a + b + c + d
        + e, f);
    lemma_seq_split(s, 0, resp_end_of_headers(status, message, body, headers), a + b + c + d, e);
    lemma_seq_split(s, 0, resp_end_of_body(status, message, body), a + b + c, d);
    lemma_seq_split(s, 0, resp_end_of_message(status, message), a + b, c);
    lemma_seq_split(s, 0, resp_end_of_status(status), a, b);
    assert(s[0] == a[0]) by {
        assert(s.subrange(0, 1)[0] == s[0]);
    }
    assert(s[resp_end_of_headers(status, message, body, headers)] == TAG_RESP_ID) by {
        assert(s.subrange(
            resp_end_of_headers(status, message, body, headers),
            resp_end_of_headers(status, message, body, headers) + 1,
        )[0] == s[resp_end_of_headers(status, message, body, headers)]);
    }
}

/// An optional field is empty when absent, and opens with its tag when
/// present.
proof fn lemma_opt_field_first(tag: u8, o: Option<Seq<u8>>)
    ensures
        match o {
            Option::Some(p) => spec_opt_field(tag, o).len() >= 2 && spec_opt_field(tag, o)[0]
                == tag,
            Option::None => spec_opt_field(tag, o).len() == 0,
        },
{
    match o {
        Option::Some(p) => {
            lemma_varint_len_pos(p.len());
            assert(spec_field(tag, p)[0] == tag);
        },
        Option::None => {},
    }
}

/// The facts the response parser holds after the status field.
spec fn resp_got_status(s: Seq<u8>, st: u64, i1: int) -> bool {
    &&& s.len() >= 1
    &&& s[0] == TAG_RESP_STATUS
    &&& 1 <= i1 <= s.len()
    &&& s.subrange(1, i1) == spec_varint(st as nat)
}

/// The facts the parser holds after an optional field: either it matched
/// a whole field, or the next byte (if any) is not the field's tag.
spec fn got_opt_field(s: Seq<u8>, tag: u8, from: int, o: Option<Seq<u8>>, to: int) -> bool {
    match o {
        Option::Some(p) => from <= to <= s.len() && s.subrange(from, to) == spec_field(tag, p),
        Option::None => to == from && (from >= s.len() || s[from] != tag),
    }
}

/// Under a canonical body, the parser's status and optional-field facts
/// pin the boundaries and values through the body field.
#[verifier::rlimit(100)]
proof fn lemma_resp_pin_front(
    s: Seq<u8>,
    status: u64,
    message: Option<Seq<u8>>,
    body: Option<Seq<u8>>,
    headers: Seq<Seq<u8>>,
    id: u64,
    st: u64,
    i1: int,
    m: Option<Seq<u8>>,
    i2: int,
    b: Option<Seq<u8>>,
    i3: int,
)
    requires
        s == spec_response_bytes(status, message, body, headers, id),
        resp_got_status(s, st, i1),
        got_opt_field(s, TAG_RESP_MESSAGE, i1, m, i2),
        got_opt_field(s, TAG_RESP_BODY, i2, b, i3),
    ensures
        st == status,
        i1 == resp_end_of_status(status),
        m == message,
        i2 == resp_end_of_message(status, message),
        b == body,
        i3 == resp_end_of_body(status, message, body),
{
    lemma_resp_layout(s, status, message, body, headers, id);
    lemma_varint_unique(s, 1, st as nat, i1, status as nat, resp_end_of_status(status));
    let q1 = resp_end_of_status(status);
    let q2 = resp_end_of_message(status, message);
    let q3 = resp_end_of_body(status, message, body);
    lemma_opt_field_first(TAG_RESP_MESSAGE, message);
    lemma_opt_field_first(TAG_RESP_BODY, body);
    lemma_rep_first_byte_or_empty(TAG_RESP_HEADER, headers);
    // What byte opens the segment after the message decides whether a
    // message field can sit there.
    assert(q2 < s.len());
    assert(s[q2] == TAG_RESP_BODY || s[q2] == TAG_RESP_HEADER || s[q2] == TAG_RESP_ID) by {
        if body is Some {
            assert(s.subrange(q2, q3)[0] == s[q2]);
        } else {
            assert(q3 == q2);
            if headers.len() > 0 {
                assert(s.subrange(q3, resp_end_of_headers(status, message, body, headers))[0]
                    == s[q3]);
            }
        }
    }
    match message {
        Option::Some(mm) => {
            assert(s[q1] == TAG_RESP_MESSAGE) by {
                assert(s.subrange(q1, q2)[0] == s[q1]);
            }
            match m {
                Option::Some(mg) => {
                    assert(s.subrange(i1, s.len() as int) =~= s.subrange(i1, i2) + s.subrange(
                        i2,
                        s.len() as int,
                    ));
                    assert(s.subrange(q1, s.len() as int) =~= s.subrange(q1, q2) + s.subrange(
                        q2,
                        s.len() as int,
                    ));
                    lemma_field_prefix_unique(
                        TAG_RESP_MESSAGE,
                        mg,
                        s.subrange(i2, s.len() as int),
                        mm,
                        s.subrange(q2, s.len() as int),
                    );
                },
                Option::None => {
                    assert(false);
                },
            }
        },
        Option::None => {
            assert(q2 == q1);
            match m {
                Option::Some(mg) => {
                    assert(s[i1] == TAG_RESP_MESSAGE) by {
                        lemma_varint_len_pos(mg.len());
                        assert(s.subrange(i1, i2)[0] == s[i1]);
                        assert(spec_field(TAG_RESP_MESSAGE, mg)[0] == TAG_RESP_MESSAGE);
                    }
                    assert(false);
                },
                Option::None => {},
            }
        },
    }
    // The same argument one segment further for the body.
    assert(q3 <= s.len());
    assert(i2 == q2);
    match body {
        Option::Some(bb) => {
            assert(s[q2] == TAG_RESP_BODY) by {
                assert(s.subrange(q2, q3)[0] == s[q2]);
            }
            match b {
                Option::Some(bg) => {
                    assert(s.subrange(i2, s.len() as int) =~= s.subrange(i2, i3) + s.subrange(
                        i3,
                        s.len() as int,
                    ));
                    assert(s.subrange(q2, s.len() as int) =~= s.subrange(q2, q3) + s.subrange(
                        q3,
                        s.len() as int,
                    ));
                    lemma_field_prefix_unique(
                        TAG_RESP_BODY,
                        bg,
                        s.subrange(i3, s.len() as int),
                        bb,
                        s.subrange(q3, s.len() as int),
                    );
                },
                Option::None => {
                    assert(false);
                },
            }
        },
        Option::None => {
            assert(q3 == q2);
            assert(s[q2] != TAG_RESP_BODY) by {
                if headers.len() > 0 {
                    assert(s.subrange(q3, resp_end_of_headers(status, message, body, headers))[0]
                        == s[q3]);
                }
            }
            match b {
                Option::Some(bg) => {
                    assert(s[i2] == TAG_RESP_BODY) by {
                        lemma_varint_len_pos(bg.len());
                        assert(s.subrange(i2, i3)[0] == s[i2]);
                        assert(spec_field(TAG_RESP_BODY, bg)[0] == TAG_RESP_BODY);
                    }
                    assert(false);
                },
                Option::None => {},
            }
        },
    }
}

/// A repeated field either is empty or opens with its tag.
proof fn lemma_rep_first_byte_or_empty(tag: u8, ps: Seq<Seq<u8>>)
    ensures
        ps.len() == 0 ==> spec_rep_fields(tag, ps).len() == 0,
        ps.len() > 0 ==> spec_rep_fields(tag, ps).len() >= 2 && spec_rep_fields(tag, ps)[0]
            == tag,
{
    if ps.len() > 0 {
        lemma_rep_first_byte(tag, ps);
    }
}

} // verus!

verus! {

/// Under a canonical body, the parser's status facts pin the status.
proof fn lemma_resp_pin_status(
    s: Seq<u8>,
    status: u64,
    message: Option<Seq<u8>>,
    body: Option<Seq<u8>>,
    headers: Seq<Seq<u8>>,
    id: u64,
    st: u64,
    i1: int,
)
    requires
        s == spec_response_bytes(status, message, body, headers, id),
        resp_got_status(s, st, i1),
    ensures
        st == status,
        i1 == resp_end_of_status(status),
{
    lemma_resp_layout(s, status, message, body, headers, id);
    lemma_varint_unique(s, 1, st as nat, i1, status as nat, resp_end_of_status(status));
}

/// Under a canonical body, the byte at each optional boundary tells
/// whether the optional field is present, and the byte at the headers
/// boundary which segment follows.
proof fn lemma_resp_markers(
    s: Seq<u8>,
    status: u64,
    message: Option<Seq<u8>>,
    body: Option<Seq<u8>>,
    headers: Seq<Seq<u8>>,
    id: u64,
)
    requires
        s == spec_response_bytes(status, message, body, headers, id),
    ensures
        resp_end_of_status(status) < s.len(),
        (message is Some) <==> s[resp_end_of_status(status)] == TAG_RESP_MESSAGE,
        resp_end_of_message(status, message) < s.len(),
        (body is Some) <==> s[resp_end_of_message(status, message)] == TAG_RESP_BODY,
        resp_end_of_body(status, message, body) < s.len(),
        s[resp_end_of_body(status, message, body)] == (if headers.len() > 0 {
            TAG_RESP_HEADER
        } else {
            TAG_RESP_ID
        }),
{
    lemma_resp_layout(s, status, message, body, headers, id);
    lemma_opt_field_first(TAG_RESP_MESSAGE, message);
    lemma_opt_field_first(TAG_RESP_BODY, body);
    lemma_rep_first_byte_or_empty(TAG_RESP_HEADER, headers);
    let q1 = resp_end_of_status(status);
    let q2 = resp_end_of_message(status, message);
    let q3 = resp_end_of_body(status, message, body);
    let q4 = resp_end_of_headers(status, message, body, headers);
    assert(s[q3] == (if headers.len() > 0 {
        TAG_RESP_HEADER
    } else {
        TAG_RESP_ID
    })) by {
        if headers.len() > 0 {
            assert(s.subrange(q3, q4)[0] == s[q3]);
        } else {
            assert(q4 == q3);
        }
    }
    assert(s[q2] == (if body is Some {
        TAG_RESP_BODY
    } else {
        if headers.len() > 0 {
            TAG_RESP_HEADER
        } else {
            TAG_RESP_ID
        }
    })) by {
        if body is Some {
            assert(s.subrange(q2, q3)[0] == s[q2]);
        } else {
            assert(q3 == q2);
        }
    }
    assert(s[q1] == (if message is Some {
        TAG_RESP_MESSAGE
    } else {
        if body is Some {
            TAG_RESP_BODY
        } else {
            if headers.len() > 0 {
                TAG_RESP_HEADER
            } else {
                TAG_RESP_ID
            }
        }
    })) by {
        if message is Some {
            assert(s.subrange(q1, q2)[0] == s[q1]);
        } else {
            assert(q2 == q1);
        }
    }
}

/// Under a canonical body, the loop's progress facts pin the collected
/// headers and the closing boundary.
proof fn lemma_resp_pin_tail(
    s: Seq<u8>,
    status: u64,
    message: Option<Seq<u8>>,
    body: Option<Seq<u8>>,
    headers: Seq<Seq<u8>>,
    id: u64,
    collected: Seq<Seq<u8>>,
    i3: int,
    i: int,
)
    requires
        s == spec_response_bytes(status, message, body, headers, id),
        i3 == resp_end_of_body(status, message, body),
        i3 <= i <= s.len(),
        s.subrange(i3, i) == spec_rep_fields(TAG_RESP_HEADER, collected),
        i == s.len() || s[i] != TAG_RESP_HEADER,
    ensures
        collected == headers,
        i == resp_end_of_headers(status, message, body, headers),
        i < s.len(),
        s[i] == TAG_RESP_ID,
        s.subrange(i + 1, s.len() as int) == spec_varint(id as nat),
{
    lemma_resp_layout(s, status, message, body, headers, id);
    let q3 = resp_end_of_body(status, message, body);
    let q4 = resp_end_of_headers(status, message, body, headers);
    let close = seq![TAG_RESP_ID] + spec_varint(id as nat);
    let tail = s.subrange(i, s.len() as int);
    lemma_varint_len_pos(id as nat);
    assert(s.subrange(q3, s.len() as int) =~= spec_rep_fields(TAG_RESP_HEADER, headers)
        + close) by {
        assert forall|t: int| 0 <= t < s.len() - q3 implies s.subrange(q3, s.len() as int)[t] == (
        spec_rep_fields(TAG_RESP_HEADER, headers) + close)[t] by {
            if t < q4 - q3 {
                assert(s.subrange(q3, q4)[t] == s[q3 + t]);
            } else if t == q4 - q3 {
                assert(s[q4] == TAG_RESP_ID);
            } else {
                assert(s.subrange(q4 + 1, s.len() as int)[t - (q4 - q3) - 1] == s[q3 + t]);
            }
        }
    }
    assert(s.subrange(q3, s.len() as int) =~= spec_rep_fields(TAG_RESP_HEADER, collected)
        + tail) by {
        assert forall|t: int| 0 <= t < s.len() - q3 implies s.subrange(q3, s.len() as int)[t] == (
        spec_rep_fields(TAG_RESP_HEADER, collected) + tail)[t] by {
            if t < i - q3 {
                assert(s.subrange(q3, i)[t] == s[q3 + t]);
            } else {
                assert(s.subrange(i, s.len() as int)[t - (i - q3)] == s[q3 + t]);
            }
        }
    }
    lemma_rep_complete(TAG_RESP_HEADER, headers, collected, close, tail);
    assert(tail =~= close);
    assert(i == q4) by {
        assert(tail.len() == close.len());
    }
    assert(s[i] == TAG_RESP_ID);
    assert(s.subrange(i + 1, s.len() as int) =~= spec_varint(id as nat)) by {
        assert forall|t: int| 0 <= t < s.len() - i - 1 implies s.subrange(i + 1, s.len() as int)[t]
            == spec_varint(id as nat)[t] by {
            assert(tail[t + 1] == s[i + 1 + t]);
            assert(close[t + 1] == spec_varint(id as nat)[t]);
        }
    }
}

/// Inside the header loop, under a canonical body, a field always sits at
/// the position whose byte is the header tag.
proof fn lemma_resp_header_field_exists(
    s: Seq<u8>,
    status: u64,
    message: Option<Seq<u8>>,
    body: Option<Seq<u8>>,
    headers: Seq<Seq<u8>>,
    id: u64,
    collected: Seq<Seq<u8>>,
    i3: int,
    i: int,
)
    requires
        s == spec_response_bytes(status, message, body, headers, id),
        i3 == resp_end_of_body(status, message, body),
        i3 <= i < s.len(),
        s.subrange(i3, i) == spec_rep_fields(TAG_RESP_HEADER, collected),
        s[i] == TAG_RESP_HEADER,
    ensures
        collected.len() < headers.len(),
        i + spec_field(TAG_RESP_HEADER, headers[collected.len() as int]).len() <= s.len(),
        s.subrange(i, i + spec_field(TAG_RESP_HEADER, headers[collected.len() as int]).len())
            == spec_field(TAG_RESP_HEADER, headers[collected.len() as int]),
{
    lemma_resp_layout(s, status, message, body, headers, id);
    let q3 = resp_end_of_body(status, message, body);
    let q4 = resp_end_of_headers(status, message, body, headers);
    let close = seq![TAG_RESP_ID] + spec_varint(id as nat);
    let tail = s.subrange(i, s.len() as int);
    lemma_varint_len_pos(id as nat);
    assert(s.subrange(q3, s.len() as int) =~= spec_rep_fields(TAG_RESP_HEADER, headers)
        + close) by {
        assert forall|t: int| 0 <= t < s.len() - q3 implies s.subrange(q3, s.len() as int)[t] == (
        spec_rep_fields(TAG_RESP_HEADER, headers) + close)[t] by {
            if t < q4 - q3 {
                assert(s.subrange(q3, q4)[t] == s[q3 + t]);
            } else if t == q4 - q3 {
                assert(s[q4] == TAG_RESP_ID);
            } else {
                assert(s.subrange(q4 + 1, s.len() as int)[t - (q4 - q3) - 1] == s[q3 + t]);
            }
        }
    }
    assert(s.subrange(q3, s.len() as int) =~= spec_rep_fields(TAG_RESP_HEADER, collected)
        + tail) by {
        assert forall|t: int| 0 <= t < s.len() - q3 implies s.subrange(q3, s.len() as int)[t] == (
        spec_rep_fields(TAG_RESP_HEADER, collected) + tail)[t] by {
            if t < i - q3 {
                assert(s.subrange(q3, i)[t] == s[q3 + t]);
            } else {
                assert(s.subrange(i, s.len() as int)[t - (i - q3)] == s[q3 + t]);
            }
        }
    }
    assert(tail[0] == TAG_RESP_HEADER);
    lemma_rep_next_field(TAG_RESP_HEADER, headers, collected, close, tail);
    let fld = spec_field(TAG_RESP_HEADER, headers[collected.len() as int]);
    lemma_seq_split(
        s,
        i,
        s.len() as int,
        fld,
        spec_rep_fields(TAG_RESP_HEADER, headers.skip(collected.len() as int + 1)) + close,
    );
}

} // verus!

verus! {

/// Under a canonical body, the parser's status and message facts pin the
/// boundaries and values through the message field.
#[verifier::rlimit(100)]
proof fn lemma_resp_pin_message(
    s: Seq<u8>,
    status: u64,
    message: Option<Seq<u8>>,
    body: Option<Seq<u8>>,
    headers: Seq<Seq<u8>>,
    id: u64,
    st: u64,
    i1: int,
    m: Option<Seq<u8>>,
    i2: int,
)
    requires
        s == spec_response_bytes(status, message, body, headers, id),
        resp_got_status(s, st, i1),
        got_opt_field(s, TAG_RESP_MESSAGE, i1, m, i2),
    ensures
        st == status,
        i1 == resp_end_of_status(status),
        m == message,
        i2 == resp_end_of_message(status, message),
{
    lemma_resp_pin_status(s, status, message, body, headers, id, st, i1);
    lemma_resp_layout(s, status, message, body, headers, id);
    lemma_resp_markers(s, status, message, body, headers, id);
    let q1 = resp_end_of_status(status);
    let q2 = resp_end_of_message(status, message);
    match message {
        Option::Some(mm) => {
            match m {
                Option::Some(mg) => {
                    assert(s.subrange(i1, s.len() as int) =~= s.subrange(i1, i2) + s.subrange(
                        i2,
                        s.len() as int,
                    ));
                    assert(s.subrange(q1, s.len() as int) =~= s.subrange(q1, q2) + s.subrange(
                        q2,
                        s.len() as int,
                    ));
                    lemma_field_prefix_unique(
                        TAG_RESP_MESSAGE,
                        mg,
                        s.subrange(i2, s.len() as int),
                        mm,
                        s.subrange(q2, s.len() as int),
                    );
                },
                Option::None => {
                    assert(false);
                },
            }
        },
        Option::None => {
            match m {
                Option::Some(mg) => {
                    assert(s[i1] == TAG_RESP_MESSAGE) by {
                        lemma_varint_len_pos(mg.len());
                        assert(s.subrange(i1, i2)[0] == s[i1]);
                        assert(spec_field(TAG_RESP_MESSAGE, mg)[0] == TAG_RESP_MESSAGE);
                    }
                    assert(false);
                },
                Option::None => {},
            }
        },
    }
}

} // verus!

verus! {

/// Generic closing argument: bytes laid out as a repeated field followed
/// by a close tag and a varint pin any in-progress decomposition with the
/// same shape.
proof fn lemma_rep_close_pins(
    s: Seq<u8>,
    tag: u8,
    close_tag: u8,
    start: int,
    full: Seq<Seq<u8>>,
    idn: nat,
    collected: Seq<Seq<u8>>,
    i: int,
)
    requires
        tag != close_tag,
        0 <= start,
        start + spec_rep_fields(tag, full).len() < s.len(),
        s.subrange(start, start + spec_rep_fields(tag, full).len()) == spec_rep_fields(tag, full),
        s[start + spec_rep_fields(tag, full).len()] == close_tag,
        s.subrange(start + spec_rep_fields(tag, full).len() + 1, s.len() as int) == spec_varint(
            idn,
        ),
        start <= i <= s.len(),
        s.subrange(start, i) == spec_rep_fields(tag, collected),
        i == s.len() || s[i] != tag,
    ensures
        collected == full,
        i == start + spec_rep_fields(tag, full).len(),
        i < s.len(),
        s[i] == close_tag,
        s.subrange(i + 1, s.len() as int) == spec_varint(idn),
{
    let qh = start + spec_rep_fields(tag, full).len();
    let close = seq![close_tag] + spec_varint(idn);
    let tail = s.subrange(i, s.len() as int);
    lemma_varint_len_pos(idn);
    assert(s.subrange(start, s.len() as int) =~= spec_rep_fields(tag, full) + close) by {
        assert forall|t: int| 0 <= t < s.len() - start implies s.subrange(start, s.len() as int)[t]
            == (spec_rep_fields(tag, full) + close)[t] by {
            if t < qh - start {
                assert(s.subrange(start, qh)[t] == s[start + t]);
            } else if t == qh - start {
                assert(s[qh] == close_tag);
            } else {
                assert(s.subrange(qh + 1, s.len() as int)[t - (qh - start) - 1] == s[start + t]);
            }
        }
    }
    assert(s.subrange(start, s.len() as int) =~= spec_rep_fields(tag, collected) + tail) by {
        assert forall|t: int| 0 <= t < s.len() - start implies s.subrange(start, s.len() as int)[t]
            == (spec_rep_fields(tag, collected) + tail)[t] by {
            if t < i - start {
                assert(s.subrange(start, i)[t] == s[start + t]);
            } else {
                assert(s.subrange(i, s.len() as int)[t - (i - start)] == s[start + t]);
            }
        }
    }
    lemma_rep_complete(tag, full, collected, close, tail);
    assert(tail =~= close);
    assert(i == qh) by {
        assert(tail.len() == close.len());
    }
    assert(s.subrange(i + 1, s.len() as int) =~= spec_varint(idn)) by {
        assert forall|t: int| 0 <= t < s.len() - i - 1 implies s.subrange(i + 1, s.len() as int)[t]
            == spec_varint(idn)[t] by {
            assert(tail[t + 1] == s[i + 1 + t]);
            assert(close[t + 1] == spec_varint(idn)[t]);
        }
    }
}

/// Generic in-progress argument: with the same layout, a position whose
/// byte is the repeated field's tag carries the next element's field.
proof fn lemma_rep_close_next_field(
    s: Seq<u8>,
    tag: u8,
    close_tag: u8,
    start: int,
    full: Seq<Seq<u8>>,
    idn: nat,
    collected: Seq<Seq<u8>>,
    i: int,
)
    requires
        tag != close_tag,
        0 <= start,
        start + spec_rep_fields(tag, full).len() < s.len(),
        s.subrange(start, start + spec_rep_fields(tag, full).len()) == spec_rep_fields(tag, full),
        s[start + spec_rep_fields(tag, full).len()] == close_tag,
        s.subrange(start + spec_rep_fields(tag, full).len() + 1, s.len() as int) == spec_varint(
            idn,
        ),
        start <= i < s.len(),
        s.subrange(start, i) == spec_rep_fields(tag, collected),
        s[i] == tag,
    ensures
        collected.len() < full.len(),
        i + spec_field(tag, full[collected.len() as int]).len() <= s.len(),
        s.subrange(i, i + spec_field(tag, full[collected.len() as int]).len()) == spec_field(
            tag,
            full[collected.len() as int],
        ),
{
    let qh = start + spec_rep_fields(tag, full).len();
    let close = seq![close_tag] + spec_varint(idn);
    let tail = s.subrange(i, s.len() as int);
    lemma_varint_len_pos(idn);
    assert(s.subrange(start, s.len() as int) =~= spec_rep_fields(tag, full) + close) by {
        assert forall|t: int| 0 <= t < s.len() - start implies s.subrange(start, s.len() as int)[t]
            == (spec_rep_fields(tag, full) + close)[t] by {
            if t < qh - start {
                assert(s.subrange(start, qh)[t] == s[start + t]);
            } else if t == qh - start {
                assert(s[qh] == close_tag);
            } else {
                assert(s.subrange(qh + 1, s.len() as int)[t - (qh - start) - 1] == s[start + t]);
            }
        }
    }
    assert(s.subrange(start, s.len() as int) =~= spec_rep_fields(tag, collected) + tail) by {
        assert forall|t: int| 0 <= t < s.len() - start implies s.subrange(start, s.len() as int)[t]
            == (spec_rep_fields(tag, collected) + tail)[t] by {
            if t < i - start {
                assert(s.subrange(start, i)[t] == s[start + t]);
            } else {
                assert(s.subrange(i, s.len() as int)[t - (i - start)] == s[start + t]);
            }
        }
    }
    assert(tail[0] == tag);
    lemma_rep_next_field(tag, full, collected, close, tail);
    lemma_seq_split(
        s,
        i,
        s.len() as int,
        spec_field(tag, full[collected.len() as int]),
        spec_rep_fields(tag, full.skip(collected.len() as int + 1)) + close,
    );
}

/// Boundaries inside a canonical request encoding.
pub open spec fn req_end_of_verb(verb: Seq<u8>) -> int {
    spec_field(TAG_REQ_VERB, verb).len() as int
}

pub open spec fn req_end_of_path(verb: Seq<u8>, path: Seq<u8>) -> int {
    req_end_of_verb(verb) + spec_field(TAG_REQ_PATH, path).len()
}

pub open spec fn req_end_of_body(verb: Seq<u8>, path: Seq<u8>, body: Option<Seq<u8>>) -> int {
    req_end_of_path(verb, path) + spec_opt_field(TAG_REQ_BODY, body).len()
}

pub open spec fn req_end_of_headers(
    verb: Seq<u8>,
    path: Seq<u8>,
    body: Option<Seq<u8>>,
    headers: Seq<Seq<u8>>,
) -> int {
    req_end_of_body(verb, path, body) + spec_rep_fields(TAG_REQ_HEADER, headers).len()
}

/// The layout of a canonical request encoding.
proof fn lemma_req_layout(
    s: Seq<u8>,
    verb: Seq<u8>,
    path: Seq<u8>,
    body: Option<Seq<u8>>,
    headers: Seq<Seq<u8>>,
    id: u64,
)
    requires
        s == spec_request_bytes(verb, path, body, headers, id),
    ensures
        s.len() == req_end_of_headers(verb, path, body, headers) + 1 + spec_varint(id as nat).len(),
        s.subrange(0, req_end_of_verb(verb)) == spec_field(TAG_REQ_VERB, verb),
        s.subrange(req_end_of_verb(verb), req_end_of_path(verb, path)) == spec_field(
            TAG_REQ_PATH,
            path,
        ),
        s.subrange(req_end_of_path(verb, path), req_end_of_body(verb, path, body))
            == spec_opt_field(TAG_REQ_BODY, body),
        s.subrange(req_end_of_body(verb, path, body), req_end_of_headers(verb, path, body, headers))
            == spec_rep_fields(TAG_REQ_HEADER, headers),
        s[req_end_of_headers(verb, path, body, headers)] == TAG_REQ_ID,
        s.subrange(req_end_of_headers(verb, path, body, headers) + 1, s.len() as int)
            == spec_varint(id as nat),
{
    let a = spec_field(TAG_REQ_VERB, verb);
    let b = spec_field(TAG_REQ_PATH, path);
    let c = spec_opt_field(TAG_REQ_BODY, body);
    let d = spec_rep_fields(TAG_REQ_HEADER, headers);
    let e: Seq<u8> = seq![TAG_REQ_ID];
    let f = spec_varint(id as nat);
    lemma_varint_len_pos(id as nat);
    assert(s.subrange(0, s.len() as int) =~= s);
    lemma_seq_split(s, 0, s.len() as int, a + b + c + d + e, f);
    lemma_seq_split(s, 0, req_end_of_headers(verb, path, body, headers) + 1, a + b + c + d, e);
    lemma_seq_split(s, 0, req_end_of_headers(verb, path, body, headers), a + b + c, d);
    lemma_seq_split(s, 0, req_end_of_body(verb, path, body), a + b, c);
    lemma_seq_split(s, 0, req_end_of_path(verb, path), a, b);
    assert(s[req_end_of_headers(verb, path, body, headers)] == TAG_REQ_ID) by {
        assert(s.subrange(
            req_end_of_headers(verb, path, body, headers),
            req_end_of_headers(verb, path, body, headers) + 1,
        )[0] == s[req_end_of_headers(verb, path, body, headers)]);
    }
}

/// Under a canonical request, the parser's facts through the optional
/// body pin the boundaries and values.
#[verifier::rlimit(100)]
proof fn lemma_req_pin_front(
    s: Seq<u8>,
    verb: Seq<u8>,
    path: Seq<u8>,
    body: Option<Seq<u8>>,
    headers: Seq<Seq<u8>>,
    id: u64,
    vg: Seq<u8>,
    i1: int,
    pg: Seq<u8>,
    i2: int,
    bg: Option<Seq<u8>>,
    i3: int,
)
    requires
        s == spec_request_bytes(verb, path, body, headers, id),
        0 < i1 <= s.len(),
        s.subrange(0, i1) == spec_field(TAG_REQ_VERB, vg),
        i1 <= i2 <= s.len(),
        s.subrange(i1, i2) == spec_field(TAG_REQ_PATH, pg),
        got_opt_field(s, TAG_REQ_BODY, i2, bg, i3),
    ensures
        vg == verb,
        i1 == req_end_of_verb(verb),
        pg == path,
        i2 == req_end_of_path(verb, path),
        bg == body,
        i3 == req_end_of_body(verb, path, body),
{
    lemma_req_layout(s, verb, path, body, headers, id);
    let q1 = req_end_of_verb(verb);
    let q2 = req_end_of_path(verb, path);
    let q3 = req_end_of_body(verb, path, body);
    let q4 = req_end_of_headers(verb, path, body, headers);
    assert(s.subrange(0, s.len() as int) =~= s.subrange(0, i1) + s.subrange(i1, s.len() as int));
    assert(s.subrange(0, s.len() as int) =~= s.subrange(0, q1) + s.subrange(q1, s.len() as int));
    assert(s =~= s.subrange(0, s.len() as int));
    lemma_field_prefix_unique(
        TAG_REQ_VERB,
        vg,
        s.subrange(i1, s.len() as int),
        verb,
        s.subrange(q1, s.len() as int),
    );
    assert(s.subrange(i1, s.len() as int) =~= s.subrange(i1, i2) + s.subrange(i2, s.len() as int));
    assert(s.subrange(q1, s.len() as int) =~= s.subrange(q1, q2) + s.subrange(q2, s.len() as int));
    lemma_field_prefix_unique(
        TAG_REQ_PATH,
        pg,
        s.subrange(i2, s.len() as int),
        path,
        s.subrange(q2, s.len() as int),
    );
    lemma_opt_field_first(TAG_REQ_BODY, body);
    lemma_rep_first_byte_or_empty(TAG_REQ_HEADER, headers);
    assert(q3 < s.len());
    match body {
        Option::Some(bb) => {
            assert(s[q2] == TAG_REQ_BODY) by {
                assert(s.subrange(q2, q3)[0] == s[q2]);
            }
            match bg {
                Option::Some(bgv) => {
                    assert(s.subrange(i2, s.len() as int) =~= s.subrange(i2, i3) + s.subrange(
                        i3,
                        s.len() as int,
                    ));
                    assert(s.subrange(q2, s.len() as int) =~= s.subrange(q2, q3) + s.subrange(
                        q3,
                        s.len() as int,
                    ));
                    lemma_field_prefix_unique(
                        TAG_REQ_BODY,
                        bgv,
                        s.subrange(i3, s.len() as int),
                        bb,
                        s.subrange(q3, s.len() as int),
                    );
                },
                Option::None => {
                    assert(false);
                },
            }
        },
        Option::None => {
            assert(q3 == q2);
            assert(s[q2] != TAG_REQ_BODY) by {
                if headers.len() > 0 {
                    assert(s.subrange(q3, q4)[0] == s[q3]);
                }
            }
            match bg {
                Option::Some(bgv) => {
                    assert(s[i2] == TAG_REQ_BODY) by {
                        lemma_varint_len_pos(bgv.len());
                        assert(s.subrange(i2, i3)[0] == s[i2]);
                        assert(spec_field(TAG_REQ_BODY, bgv)[0] == TAG_REQ_BODY);
                    }
                    assert(false);
                },
                Option::None => {},
            }
        },
    }
}

} // verus!
