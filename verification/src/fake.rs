//! Computation behind the fake chat harness.
//!
//! The harness pairs a local chat connection with a remote handle over an
//! in-memory channel; the channels themselves live in the embedding
//! application. What is computed here: the close code used to inject an
//! interrupted connection, and the terminator-aware split of the
//! newline-joined alert list a fake connection starts with.

use vstd::prelude::*;
use vstd::utf8::encode_utf8;

verus! {

/// The WebSocket close code the harness sends to inject "connection
/// interrupted": policy violation.
pub const CONNECTION_INTERRUPTED_CLOSE_CODE: u16 = 1008;

/// The position of the first newline in `s`, or its length when there is
/// none.
pub open spec fn spec_first_newline(s: Seq<u8>) -> int
    decreases s.len(),
{
    if s.len() == 0 {
        0
    } else if s[0] == 10 {
        0
    } else {
        1 + spec_first_newline(s.drop_first())
    }
}

/// The terminator-aware split of a newline-joined list: an empty input
/// yields no entries at all, and a trailing newline does not create an
/// empty last entry.
pub open spec fn spec_split_lines(s: Seq<u8>) -> Seq<Seq<u8>>
    decreases s.len(),
    via spec_split_lines_decreases
{
    if s.len() == 0 {
        Seq::empty()
    } else {
        let nl = spec_first_newline(s);
        let rest = if nl + 1 <= s.len() {
            s.skip(nl + 1)
        } else {
            Seq::empty()
        };
        seq![s.take(nl)] + spec_split_lines(rest)
    }
}

#[via_fn]
proof fn spec_split_lines_decreases(s: Seq<u8>) {
    if s.len() != 0 {
        lemma_first_newline_bounds(s);
    }
}

proof fn lemma_first_newline_bounds(s: Seq<u8>)
    ensures
        0 <= spec_first_newline(s) <= s.len(),
        spec_first_newline(s) < s.len() ==> s[spec_first_newline(s)] == 10,
        forall|i: int| 0 <= i < spec_first_newline(s) ==> s[i] != 10,
    decreases s.len(),
{
    if s.len() > 0 && s[0] != 10 {
        lemma_first_newline_bounds(s.drop_first());
        let nl = spec_first_newline(s);
        assert forall|i: int| 0 <= i < nl implies s[i] != 10 by {
            if i > 0 {
                assert(s.drop_first()[i - 1] != 10);
            }
        }
        if nl < s.len() {
            assert(s.drop_first()[nl - 1] == 10);
        }
    }
}

/// Splits a newline-joined alert list into its entries, as raw bytes.
/// `""` yields no alerts, while an embedded empty segment (two newlines
/// in a row) is kept.
pub fn split_alerts(joined: &str) -> (r: Vec<Vec<u8>>)
    ensures
        r.deep_view() == spec_split_lines(encode_utf8(joined@)),
{
    let bytes = crate::chat::bytes_of_str(joined);
    let n = bytes.len();
    let mut out: Vec<Vec<u8>> = Vec::new();
    let mut start: usize = 0;
    proof {
        assert(bytes@.skip(0) =~= bytes@);
        assert(out.deep_view() + spec_split_lines(bytes@) =~= spec_split_lines(bytes@));
    }
    while start < n
        invariant
            n == bytes@.len(),
            start <= n,
            out.deep_view() + spec_split_lines(bytes@.skip(start as int)) == spec_split_lines(
                bytes@,
            ),
        decreases n - start,
    {
        // Find the end of the current entry.
        let mut end: usize = start;
        while end < n && bytes[end] != 10
            invariant
                n == bytes@.len(),
                start <= end <= n,
                forall|i: int| start <= i < end ==> bytes@[i] != 10,
            decreases n - end,
        {
            end = end + 1;
        }
        let piece = crate::codec::read_bytes(bytes.as_slice(), start, end - start);
        let ghost old_dv = out.deep_view();
        out.push(piece);
        proof {
            let tail = bytes@.skip(start as int);
            lemma_first_newline_bounds(tail);
            assert(spec_first_newline(tail) == end - start) by {
                if spec_first_newline(tail) < end - start {
                    assert(tail[spec_first_newline(tail)] == 10);
                    assert(bytes@[start + spec_first_newline(tail)] == 10);
                } else if spec_first_newline(tail) > end - start {
                    if end < n {
                        assert(tail[end - start] == 10);
                        assert(bytes@[end as int] != 10);
                    }
                }
            }
            assert(tail.take(end - start) =~= bytes@.subrange(start as int, end as int));
            assert(out.deep_view() =~= old_dv.push(piece@)) by {
                assert forall|m: int| 0 <= m < out.deep_view().len() implies out.deep_view()[m]
                    == old_dv.push(piece@)[m] by {
                    if m < old_dv.len() {
                    } else {
                        assert(out@[m] == piece);
                        assert(piece.deep_view() =~= piece@);
                    }
                }
            }
            if end < n {
                assert(tail.skip(end - start + 1) =~= bytes@.skip(end + 1));
                assert(spec_split_lines(tail) == seq![piece@] + spec_split_lines(
                    bytes@.skip(end + 1),
                ));
            } else {
                assert(spec_split_lines(tail) == seq![piece@] + spec_split_lines(
                    Seq::<u8>::empty(),
                ));
                assert(bytes@.skip(n as int) =~= Seq::<u8>::empty());
            }
            let next: int = if end < n {
                end + 1
            } else {
                n as int
            };
            assert(old_dv.push(piece@) + spec_split_lines(bytes@.skip(next)) =~= spec_split_lines(
                bytes@,
            ));
        }
        start = if end < n {
            end + 1
        } else {
            n
        };
    }
    proof {
        assert(bytes@.skip(start as int) =~= Seq::<u8>::empty());
        assert(out.deep_view() =~= spec_split_lines(bytes@));
    }
    out
}

} // verus!
