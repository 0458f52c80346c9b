//! One history record: parsing a logical line and serializing an entry.
//!
//! A logical line reads `": "<start_time>":"<duration>";"<body>"\n"`.  The
//! body is the metafied command split into physical chunks: every chunk but
//! the last ends in the continuation marker backslash+newline, which stands
//! for a plain newline of the command; the last chunk either ends at the only
//! newline, or — when the command itself ends in a backslash possibly
//! followed by spaces — in one extra marker space before the newline.

use vstd::prelude::*;

use crate::digits::{dec_digits, dec_val, digits_end, lemma_digits_end, push_dec, scan_number};
use crate::meta::{metafy, metafy_spec, unmetafy, unmetafy_ok, unmetafy_spec};
use vstd::slice::slice_subrange;
use vstd::utf8::{decode_utf8, encode_utf8, valid_utf8};

verus! {

/// One command of the history, fully decoded.
#[derive(Debug, Clone, PartialEq, Eq)]
pub struct HistoryEntry {
    /// Unix timestamp at which the command began.
    pub start_time: u64,
    /// `start_time` plus the stored duration.
    pub finish_time: u64,
    /// The decoded command text; it may itself contain newlines.
    pub command: String,
}

impl HistoryEntry {
    /// An entry never finishes before it starts; the duration stored on disk
    /// is unsigned.
    pub open spec fn wf(self) -> bool {
        self.start_time <= self.finish_time
    }
}

/// Why a logical line failed to decode.
#[derive(Debug, Clone, Copy, PartialEq, Eq, Structural)]
pub enum HistoryError {
    /// The header or the physical-line structure of the body is malformed,
    /// or bytes remain after the body closes.
    Malformed,
    /// The metafication escape marker stood last in the command body.
    DanglingMeta,
    /// The unescaped command is not valid UTF-8.
    InvalidUtf8,
}

/// Index of the first continuation marker (backslash immediately followed by
/// newline) at or after `i`, or `s.len()` when there is none.
pub open spec fn marker_from(s: Seq<u8>, i: int) -> int
    decreases s.len() - i,
{
    if i + 1 >= s.len() {
        s.len() as int
    } else if s[i] == 92 && s[i + 1] == 10 {
        i
    } else {
        marker_from(s, i + 1)
    }
}

/// [`marker_from`] finds the first marker position, or the length.
pub proof fn lemma_marker_from(s: Seq<u8>, i: int)
    requires
        0 <= i <= s.len(),
    ensures
        i <= marker_from(s, i) <= s.len(),
        marker_from(s, i) < s.len() ==> marker_from(s, i) + 1 < s.len() && s[marker_from(s, i)]
            == 92 && s[marker_from(s, i) + 1] == 10,
        forall|j: int|
            i <= j < marker_from(s, i) && j + 1 < s.len() ==> !(#[trigger] s[j] == 92 && s[j + 1]
                == 10),
    decreases s.len() - i,
{
    if i + 1 < s.len() && !(s[i] == 92 && s[i + 1] == 10) {
        lemma_marker_from(s, i + 1);
    }
}

/// Whether the chunk ends in a literal backslash, then one or more spaces,
/// then the final newline: the writer's mark for "the command really ends in
/// a backslash".
pub open spec fn ends_slash_space(c: Seq<u8>) -> bool {
    c.len() >= 3 && c[c.len() - 1] == 10 && exists|i: int|
        0 <= i <= c.len() - 3 && #[trigger] c[i] == 92 && (forall|k: int|
            i < k < c.len() - 1 ==> c[k] == 32)
}

/// What the final physical chunk yields: the slash-space form drops exactly
/// one marker space and the newline; otherwise the single newline must stand
/// at the very end and is dropped.
pub open spec fn last_chunk_spec(c: Seq<u8>) -> Option<Seq<u8>> {
    if ends_slash_space(c) {
        Some(c.take(c.len() - 2))
    } else if c.len() >= 1 && c[c.len() - 1] == 10 && (forall|k: int|
        0 <= k < c.len() - 1 ==> c[k] != 10) {
        Some(c.take(c.len() - 1))
    } else {
        None
    }
}

/// The raw command encoded from `s[i]` on: chunks are split at continuation
/// markers and re-joined with plain newlines; the last chunk must close the
/// body exactly, with nothing after it.
pub open spec fn body_from(s: Seq<u8>, i: int) -> Option<Seq<u8>>
    decreases s.len() - i,
    when 0 <= i <= s.len()
    via body_from_decreases
{
    let m = marker_from(s, i);
    if m < s.len() {
        match body_from(s, m + 2) {
            Some(rest) => Some(s.subrange(i, m) + seq![10u8] + rest),
            None => None,
        }
    } else {
        last_chunk_spec(s.subrange(i, s.len() as int))
    }
}

#[via_fn]
proof fn body_from_decreases(s: Seq<u8>, i: int) {
    lemma_marker_from(s, i);
}

/// The record header `": "<digits>":"<digits>";"`: start time, finish time
/// (start plus duration) and the index where the body begins.  `None` when a
/// literal or digit run is missing or a value does not fit in a `u64`.
pub open spec fn header_spec(s: Seq<u8>) -> Option<(u64, u64, int)> {
    if s.len() >= 2 && s[0] == 58 && s[1] == 32 {
        let e1 = digits_end(s, 2);
        let start = dec_val(s.subrange(2, e1));
        if e1 > 2 && e1 < s.len() && s[e1] == 58 {
            let e2 = digits_end(s, e1 + 1);
            let dur = dec_val(s.subrange(e1 + 1, e2));
            if e2 > e1 + 1 && e2 < s.len() && s[e2] == 59 {
                if start + dur <= u64::MAX {
                    Some((start as u64, (start + dur) as u64, e2 + 1))
                } else {
                    None
                }
            } else {
                None
            }
        } else {
            None
        }
    } else {
        None
    }
}

/// The still-metafied reading of one logical line: start time, finish time,
/// and the raw command bytes with continuation markers resolved.
pub open spec fn parse_raw(line: Seq<u8>) -> Option<(u64, u64, Seq<u8>)> {
    match header_spec(line) {
        Some((start, finish, b)) => match body_from(line, b) {
            Some(raw) => Some((start, finish, raw)),
            None => None,
        },
        None => None,
    }
}

/// The full meaning of one logical line, as a decoded entry: the raw command
/// must unescape cleanly and the result must be valid UTF-8.
pub open spec fn decode_spec(line: Seq<u8>) -> Option<(u64, u64, Seq<char>)> {
    match parse_raw(line) {
        Some((start, finish, raw)) => if unmetafy_ok(raw) && valid_utf8(unmetafy_spec(raw)) {
            Some((start, finish, decode_utf8(unmetafy_spec(raw))))
        } else {
            None
        },
        None => None,
    }
}

/// Which error a line that has no meaning is reported with.
pub open spec fn decode_err(line: Seq<u8>) -> HistoryError
    recommends
        decode_spec(line) is None,
{
    match parse_raw(line) {
        None => HistoryError::Malformed,
        Some((start, finish, raw)) => if !unmetafy_ok(raw) {
            HistoryError::DanglingMeta
        } else {
            HistoryError::InvalidUtf8
        },
    }
}

/// Whether `input` ends in a backslash, at least one space, and a newline.
pub fn has_slash_with_space(input: &[u8]) -> (r: bool)
    ensures
        r == ends_slash_space(input@),
{
    let n = input.len();
    if n < 3 || input[n - 1] != 10 {
        return false;
    }
    let mut j: usize = n - 2;
    while j > 0 && input[j] == 32
        invariant
            j <= n - 2,
            n == input@.len(),
            forall|k: int| j < k < n - 1 ==> input@[k] == 32,
        ensures
            j <= n - 2,
            forall|k: int| j < k < n - 1 ==> input@[k] == 32,
            j == 0 || input@[j as int] != 32,
        decreases j,
    {
        j -= 1;
    }
    if input[j] == 92 && j <= n - 3 {
        return true;
    }
    proof {
        if ends_slash_space(input@) {
            let w = choose|i: int|
                0 <= i <= n - 3 && #[trigger] input@[i] == 92 && (forall|k: int|
                    i < k < n - 1 ==> input@[k] == 32);
            if w < j {
                assert(input@[j as int] == 32);
            } else if w > j {
                assert(input@[w] == 32);
            }
            assert(false);
        }
    }
    false
}

/// Resolve the command body that begins at `b`: split at continuation
/// markers, re-join with newlines, and close the last chunk.  `None` mirrors
/// [`body_from`]: the line is malformed.
fn parse_body(line: &[u8], b: usize) -> (r: Option<Vec<u8>>)
    requires
        b <= line@.len(),
    ensures
        r is Some <==> body_from(line@, b as int) is Some,
        r is Some ==> r->0@ == body_from(line@, b as int)->0,
{
    let n = line.len();
    let mut out: Vec<u8> = Vec::new();
    let mut i: usize = b;
    proof {
        assert(out@ =~= Seq::<u8>::empty());
        if body_from(line@, b as int) is Some {
            assert(out@ + body_from(line@, b as int)->0 =~= body_from(line@, b as int)->0);
        }
    }
    loop
        invariant
            b <= i <= n,
            n == line@.len(),
            body_from(line@, b as int) == (match body_from(line@, i as int) {
                Some(rest) => Some(out@ + rest),
                None => None::<Seq<u8>>,
            }),
        decreases n - i,
    {
        // find the next continuation marker
        let mut k: usize = i;
        while k < n && (k + 1 >= n || !(line[k] == 92 && line[k + 1] == 10))
            invariant
                i <= k <= n,
                n == line@.len(),
                marker_from(line@, i as int) == marker_from(line@, k as int),
            ensures
                i <= k <= n,
                marker_from(line@, i as int) == marker_from(line@, k as int),
                k < n ==> k + 1 < n && line@[k as int] == 92 && line@[k + 1] == 10,
                k >= n ==> marker_from(line@, k as int) == n,
            decreases n - k,
        {
            k += 1;
        }
        proof {
            lemma_marker_from(line@, i as int);
        }
        if k < n {
            // a marker stands at k
            proof {
                assert(marker_from(line@, k as int) == k);
            }
            let ghost out0 = out@;
            let ghost i0 = i as int;
            out.extend_from_slice(slice_subrange(line, i, k));
            out.push(10);
            i = k + 2;
            proof {
                assert(out@ =~= out0 + line@.subrange(i0, k as int) + seq![10u8]);
                assert(body_from(line@, i0) == (match body_from(line@, k + 2) {
                    Some(rest) => Some(
                        line@.subrange(i0, k as int) + seq![10u8] + rest,
                    ),
                    None => None::<Seq<u8>>,
                }));
                if body_from(line@, k + 2) is Some {
                    let rest = body_from(line@, k + 2)->0;
                    assert(out0 + (line@.subrange(i0, k as int) + seq![10u8] + rest) =~= out@
                        + rest);
                }
            }
        } else {
            // no marker remains: the rest is the last chunk
            proof {
                assert(marker_from(line@, i as int) == n);
            }
            let c = slice_subrange(line, i, n);
            if has_slash_with_space(c) {
                out.extend_from_slice(slice_subrange(line, i, n - 2));
                proof {
                    assert(c@.take(c@.len() - 2) =~= line@.subrange(i as int, n - 2));
                }
                return Some(out);
            }
            // the single newline must stand at the very end
            let mut k2: usize = i;
            while k2 < n && line[k2] != 10
                invariant
                    i <= k2 <= n,
                    n == line@.len(),
                    forall|j: int| i <= j < k2 ==> line@[j] != 10,
                ensures
                    i <= k2 <= n,
                    forall|j: int| i <= j < k2 ==> line@[j] != 10,
                    k2 < n ==> line@[k2 as int] == 10,
                decreases n - k2,
            {
                k2 += 1;
            }
            if k2 >= n {
                proof {
                    if c@.len() >= 1 {
                        assert(c@[c@.len() - 1] == line@[n - 1] && line@[n - 1] != 10);
                    }
                }
                return None;
            }
            if k2 != n - 1 {
                proof {
                    assert(c@[k2 - i] == 10 && k2 - i < c@.len() - 1);
                }
                return None;
            }
            out.extend_from_slice(slice_subrange(line, i, n - 1));
            proof {
                assert(c@[c@.len() - 1] == 10);
                assert(c@.take(c@.len() - 1) =~= line@.subrange(i as int, n - 1));
            }
            return Some(out);
        }
    }
}

/// Whether the buffer ends in a backslash followed by spaces only.  Written
/// out, such a tail would be read back as the slash-space form, so the writer
/// marks it with one extra space.
pub open spec fn tail_backslashed(s: Seq<u8>) -> bool {
    exists|i: int|
        0 <= i < s.len() && #[trigger] s[i] == 92 && (forall|k: int|
            i < k < s.len() ==> s[k] == 32)
}

/// One payload byte as it is written out: a newline gains a continuation
/// backslash.
pub open spec fn escape_byte(b: u8) -> Seq<u8> {
    if b == 10 {
        seq![92u8, 10u8]
    } else {
        seq![b]
    }
}

/// The payload with every newline turned into a continuation marker.
pub open spec fn escape_nl(s: Seq<u8>) -> Seq<u8>
    decreases s.len(),
{
    if s.len() == 0 {
        seq![]
    } else {
        escape_byte(s[0]) + escape_nl(s.skip(1))
    }
}

/// Appending a byte appends its escaped form.
pub proof fn lemma_escape_nl_push(s: Seq<u8>, b: u8)
    ensures
        escape_nl(s.push(b)) == escape_nl(s) + escape_byte(b),
    decreases s.len(),
{
    let t = s.push(b);
    if s.len() == 0 {
        assert(t[0] == b);
        assert(t.skip(1) =~= Seq::<u8>::empty());
        assert(escape_nl(t) == escape_byte(b) + escape_nl(t.skip(1)));
        assert(escape_byte(b) + Seq::<u8>::empty() =~= escape_byte(b));
        assert(escape_nl(s) + escape_byte(b) =~= escape_byte(b));
    } else {
        assert(t[0] == s[0]);
        assert(t.skip(1) =~= s.skip(1).push(b));
        lemma_escape_nl_push(s.skip(1), b);
        assert(escape_nl(t) == escape_byte(s[0]) + (escape_nl(s.skip(1)) + escape_byte(b)));
        assert(escape_byte(s[0]) + (escape_nl(s.skip(1)) + escape_byte(b)) =~= (escape_byte(s[0])
            + escape_nl(s.skip(1))) + escape_byte(b));
    }
}

/// How the backslash-then-spaces tail evolves as bytes are appended: a
/// backslash starts one, a space keeps one, anything else ends it.
pub proof fn lemma_tail_backslashed_push(s: Seq<u8>, b: u8)
    ensures
        tail_backslashed(s.push(b)) == (b == 92 || (b == 32 && tail_backslashed(s))),
{
    let t = s.push(b);
    if b == 92 {
        assert(t[s.len() as int] == 92);
        assert(tail_backslashed(t));
    } else if b == 32 && tail_backslashed(s) {
        let w = choose|i: int|
            0 <= i < s.len() && #[trigger] s[i] == 92 && (forall|k: int|
                i < k < s.len() ==> s[k] == 32);
        assert(t[w] == 92);
        assert(forall|k: int| w < k < t.len() ==> t[k] == 32);
        assert(tail_backslashed(t));
    } else {
        if tail_backslashed(t) {
            let w = choose|i: int|
                0 <= i < t.len() && #[trigger] t[i] == 92 && (forall|k: int|
                    i < k < t.len() ==> t[k] == 32);
            if w == s.len() {
                assert(t[w] == b);
                assert(b == 92);
            } else {
                assert(t[s.len() as int] == b);
                if b != 32 {
                    assert(t[s.len() as int] == 32);
                    assert(false);
                } else {
                    assert(s[w] == 92);
                    assert forall|k: int| w < k < s.len() implies s[k] == 32 by {
                        assert(t[k] == s[k]);
                        assert(t[k] == 32);
                    }
                    assert(tail_backslashed(s));
                }
            }
        }
    }
}

/// The payload before newline escaping: the header text followed by the
/// metafied command bytes.
pub open spec fn payload_spec(start: u64, finish: u64, cmd: Seq<char>) -> Seq<u8>
    recommends
        start <= finish,
{
    seq![58u8, 32u8] + dec_digits(start as nat) + seq![58u8] + dec_digits((finish - start) as nat)
        + seq![59u8] + metafy_spec(encode_utf8(cmd))
}

/// The exact line written for an entry: every payload newline gains a
/// continuation backslash, and when the payload ends in a backslash followed
/// only by spaces, one extra marker space precedes the final newline.
pub open spec fn entry_line(start: u64, finish: u64, cmd: Seq<char>) -> Seq<u8>
    recommends
        start <= finish,
{
    let p = payload_spec(start, finish, cmd);
    escape_nl(p) + (if tail_backslashed(p) {
        seq![32u8, 10u8]
    } else {
        seq![10u8]
    })
}

/// Relies on `String::from_utf8`: it returns `Ok` exactly when the bytes are
/// a valid UTF-8 encoding, and the returned string then holds exactly those
/// bytes.
#[verifier::external_body]
fn bytes_to_string(v: Vec<u8>) -> (r: Option<String>)
    ensures
        r is Some <==> valid_utf8(v@),
        r is Some ==> encode_utf8(r->0@) == v@,
{
    String::from_utf8(v).ok()
}

impl HistoryEntry {
    /// Parse one logical line into an entry.  Returns `Ok` exactly on the
    /// lines that carry a meaning, with the decoded fields; otherwise the
    /// error says what was wrong with the line.
    pub fn parse(line: &[u8]) -> (r: Result<HistoryEntry, HistoryError>)
        ensures
            r is Ok <==> decode_spec(line@) is Some,
            r is Ok ==> ({
                let (start, finish, cmd) = decode_spec(line@)->0;
                &&& r->Ok_0.start_time == start
                &&& r->Ok_0.finish_time == finish
                &&& r->Ok_0.command@ == cmd
                &&& r->Ok_0.wf()
            }),
            r is Err ==> r->Err_0 == decode_err(line@),
    {
        let n = line.len();
        if n < 2 || line[0] != 58 || line[1] != 32 {
            return Err(HistoryError::Malformed);
        }
        let (start, e1) = match scan_number(line, 2) {
            Some(x) => x,
            None => {
                return Err(HistoryError::Malformed);
            },
        };
        if e1 >= n || line[e1] != 58 {
            proof {
                lemma_digits_end(line@, 2);
            }
            return Err(HistoryError::Malformed);
        }
        let (dur, e2) = match scan_number(line, e1 + 1) {
            Some(x) => x,
            None => {
                return Err(HistoryError::Malformed);
            },
        };
        if e2 >= n || line[e2] != 59 {
            proof {
                lemma_digits_end(line@, e1 + 1);
            }
            return Err(HistoryError::Malformed);
        }
        if dur > u64::MAX - start {
            return Err(HistoryError::Malformed);
        }
        let finish = start + dur;
        let raw = match parse_body(line, e2 + 1) {
            Some(v) => v,
            None => {
                return Err(HistoryError::Malformed);
            },
        };
        let unm = match unmetafy(raw.as_slice()) {
            Some(v) => v,
            None => {
                return Err(HistoryError::DanglingMeta);
            },
        };
        let command = match bytes_to_string(unm) {
            Some(s) => s,
            None => {
                return Err(HistoryError::InvalidUtf8);
            },
        };
        proof {
            vstd::utf8::encode_utf8_decode_utf8(command@);
        }
        Ok(HistoryEntry { start_time: start, finish_time: finish, command })
    }

    /// Serialize the entry into its exact on-disk line.
    pub fn to_bytes(&self) -> (r: Vec<u8>)
        requires
            self.wf(),
        ensures
            r@ == entry_line(self.start_time, self.finish_time, self.command@),
    {
        let dur = self.finish_time - self.start_time;
        let mut payload: Vec<u8> = Vec::new();
        payload.push(58);
        payload.push(32);
        push_dec(&mut payload, self.start_time);
        payload.push(58);
        push_dec(&mut payload, dur);
        payload.push(59);
        let m = metafy(self.command.as_str().as_bytes());
        payload.extend_from_slice(m.as_slice());
        proof {
            assert(payload@ =~= payload_spec(self.start_time, self.finish_time, self.command@));
        }
        let p_len = payload.len();
        let mut buf: Vec<u8> = Vec::new();
        let mut bs = false;
        let mut idx: usize = 0;
        proof {
            assert(payload@.take(0) =~= Seq::<u8>::empty());
            assert(buf@ =~= escape_nl(payload@.take(0)));
            assert(!tail_backslashed(payload@.take(0)));
        }
        while idx < p_len
            invariant
                idx <= p_len,
                p_len == payload@.len(),
                buf@ == escape_nl(payload@.take(idx as int)),
                bs == tail_backslashed(payload@.take(idx as int)),
            decreases p_len - idx,
        {
            let c = payload[idx];
            let ghost seen = payload@.take(idx as int);
            bs = c == 92 || (bs && c == 32);
            if c == 10 {
                buf.push(92);
            }
            buf.push(c);
            proof {
                lemma_escape_nl_push(seen, c);
                lemma_tail_backslashed_push(seen, c);
                assert(payload@.take(idx + 1) =~= seen.push(c));
                if c == 10 {
                    assert(buf@ =~= escape_nl(seen) + seq![92u8, 10u8]);
                } else {
                    assert(buf@ =~= escape_nl(seen) + seq![c]);
                }
            }
            idx += 1;
        }
        proof {
            assert(payload@.take(p_len as int) =~= payload@);
        }
        let ghost escaped = buf@;
        if bs {
            buf.push(32);
        }
        buf.push(10);
        proof {
            if tail_backslashed(payload@) {
                assert(buf@ =~= escaped + seq![32u8, 10u8]);
            } else {
                assert(buf@ =~= escaped + seq![10u8]);
            }
        }
        buf
    }
}

} // verus!
