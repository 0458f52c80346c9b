//! The serialize/parse round trip: the line written for any well-formed
//! entry decodes back to exactly that entry.

use vstd::prelude::*;

use crate::digits::{
    dec_digits, dec_val, lemma_dec_digits_are_digits, lemma_dec_val_dec_digits,
    lemma_digits_end_is,
};
use crate::history::{
    body_from, decode_spec, ends_slash_space, entry_line, escape_byte, escape_nl, header_spec,
    last_chunk_spec, lemma_escape_nl_push, lemma_marker_from, marker_from, parse_raw,
    payload_spec, tail_backslashed,
};
use crate::meta::{lemma_unmetafy_metafy, metafy_spec};
use vstd::utf8::{decode_utf8, encode_utf8, valid_utf8};

verus! {

/// Index of the first newline at or after `i`, or `s.len()` when there is
/// none.
spec fn nl_from(s: Seq<u8>, i: int) -> int
    decreases s.len() - i,
{
    if i < 0 || i >= s.len() {
        s.len() as int
    } else if s[i] == 10 {
        i
    } else {
        nl_from(s, i + 1)
    }
}

proof fn lemma_nl_from(s: Seq<u8>, i: int)
    requires
        0 <= i <= s.len(),
    ensures
        i <= nl_from(s, i) <= s.len(),
        nl_from(s, i) < s.len() ==> s[nl_from(s, i)] == 10,
        forall|j: int| i <= j < nl_from(s, i) ==> s[j] != 10,
    decreases s.len() - i,
{
    if i < s.len() && s[i] != 10 {
        lemma_nl_from(s, i + 1);
    }
}

/// Escaping distributes over concatenation.
proof fn lemma_escape_nl_concat(a: Seq<u8>, b: Seq<u8>)
    ensures
        escape_nl(a + b) == escape_nl(a) + escape_nl(b),
    decreases b.len(),
{
    if b.len() == 0 {
        assert(a + b =~= a);
        assert(escape_nl(a) + escape_nl(b) =~= escape_nl(a));
    } else {
        let b0 = b.drop_last();
        lemma_escape_nl_concat(a, b0);
        assert(a + b =~= (a + b0).push(b.last()));
        assert(b =~= b0.push(b.last()));
        lemma_escape_nl_push(a + b0, b.last());
        lemma_escape_nl_push(b0, b.last());
        assert((escape_nl(a) + escape_nl(b0)) + escape_byte(b.last()) =~= escape_nl(a) + (escape_nl(
            b0,
        ) + escape_byte(b.last())));
    }
}

/// A newline-free sequence escapes to itself.
proof fn lemma_escape_nl_id(s: Seq<u8>)
    requires
        forall|i: int| 0 <= i < s.len() ==> s[i] != 10,
    ensures
        escape_nl(s) == s,
    decreases s.len(),
{
    if s.len() == 0 {
        assert(escape_nl(s) =~= s);
    } else {
        lemma_escape_nl_id(s.skip(1));
        assert(escape_nl(s) =~= s);
    }
}

/// A backslash-free prefix has no say in the backslash-then-spaces tail.
proof fn lemma_tail_backslashed_concat(a: Seq<u8>, b: Seq<u8>)
    requires
        forall|i: int| 0 <= i < a.len() ==> a[i] != 92,
    ensures
        tail_backslashed(a + b) == tail_backslashed(b),
{
    let t = a + b;
    if tail_backslashed(b) {
        let w = choose|i: int|
            0 <= i < b.len() && #[trigger] b[i] == 92 && (forall|k: int|
                i < k < b.len() ==> b[k] == 32);
        assert(t[a.len() + w] == 92);
        assert forall|k: int| a.len() + w < k < t.len() implies t[k] == 32 by {
            assert(t[k] == b[k - a.len()]);
        }
        assert(tail_backslashed(t));
    }
    if tail_backslashed(t) {
        let w = choose|i: int|
            0 <= i < t.len() && #[trigger] t[i] == 92 && (forall|k: int|
                i < k < t.len() ==> t[k] == 32);
        assert(w >= a.len());
        assert(b[w - a.len()] == 92);
        assert forall|k: int| w - a.len() < k < b.len() implies b[k] == 32 by {
            assert(t[a.len() + k] == b[k]);
            assert(t[a.len() + k] == 32);
        }
        assert(tail_backslashed(b));
    }
}

/// The backslash-then-spaces tail is decided after the last newline.
proof fn lemma_tail_backslashed_after_nl(s: Seq<u8>, p: int)
    requires
        0 <= p < s.len(),
        s[p] == 10,
    ensures
        tail_backslashed(s) == tail_backslashed(s.skip(p + 1)),
{
    let b = s.skip(p + 1);
    if tail_backslashed(s) {
        let w = choose|i: int|
            0 <= i < s.len() && #[trigger] s[i] == 92 && (forall|k: int|
                i < k < s.len() ==> s[k] == 32);
        assert(w != p);
        if w < p {
            assert(s[p] == 32);
            assert(false);
        }
        assert(b[w - p - 1] == 92);
        assert forall|k: int| w - p - 1 < k < b.len() implies b[k] == 32 by {
            assert(b[k] == s[p + 1 + k]);
            assert(s[p + 1 + k] == 32);
        }
        assert(tail_backslashed(b));
    }
    if tail_backslashed(b) {
        let w = choose|i: int|
            0 <= i < b.len() && #[trigger] b[i] == 92 && (forall|k: int|
                i < k < b.len() ==> b[k] == 32);
        assert(s[p + 1 + w] == 92);
        assert forall|k: int| p + 1 + w < k < s.len() implies s[k] == 32 by {
            assert(s[k] == b[k - p - 1]);
        }
        assert(tail_backslashed(s));
    }
}

/// The line closing that the writer appends after the escaped payload.
spec fn end_tail(m: Seq<u8>) -> Seq<u8> {
    if tail_backslashed(m) {
        seq![32u8, 10u8]
    } else {
        seq![10u8]
    }
}

/// Reading the body back: when `s[i..]` holds the escaped form of `m`
/// followed by the writer's closing, the body parser recovers exactly `m`.
#[verifier::rlimit(100)]
proof fn lemma_body_escape(s: Seq<u8>, i: int, m: Seq<u8>)
    requires
        0 <= i <= s.len(),
        s.subrange(i, s.len() as int) == escape_nl(m) + end_tail(m),
    ensures
        body_from(s, i) == Some(m),
    decreases m.len(),
{
    let t = s.subrange(i, s.len() as int);
    lemma_nl_from(m, 0);
    let p = nl_from(m, 0);
    lemma_marker_from(s, i);
    let mv = marker_from(s, i);
    if p < m.len() {
        // m = a + newline + b with a newline-free
        let a = m.take(p);
        let b = m.skip(p + 1);
        assert(m =~= a + seq![10u8] + b);
        lemma_escape_nl_concat(a + seq![10u8], b);
        lemma_escape_nl_concat(a, seq![10u8]);
        assert(seq![10u8].skip(1) =~= Seq::<u8>::empty());
        assert(escape_nl(Seq::<u8>::empty()) =~= Seq::<u8>::empty());
        assert(escape_nl(seq![10u8]) == escape_byte(10u8) + escape_nl(seq![10u8].skip(1)));
        assert(escape_nl(seq![10u8]) =~= seq![92u8, 10u8]);
        lemma_escape_nl_id(a);
        assert(escape_nl(m) =~= a + seq![92u8, 10u8] + escape_nl(b));
        lemma_tail_backslashed_after_nl(m, p);
        assert(end_tail(m) == end_tail(b));
        assert(t =~= a + seq![92u8, 10u8] + escape_nl(b) + end_tail(b));
        // the first marker stands where the newline was
        assert(t[p] == 92 && t[p + 1] == 10);
        assert(s[i + p] == 92 && s[i + p + 1] == 10);
        assert forall|j: int| 0 <= j < p + 1 implies t[j] != 10 by {
            if j < p {
                assert(t[j] == a[j]);
            }
        }
        if mv < i + p {
            assert(s[mv + 1] == 10);
            assert(t[mv + 1 - i] == 10 && mv + 1 - i < p + 1);
            assert(false);
        }
        if mv > i + p {
            assert(i <= i + p < mv && i + p + 1 < s.len());
            assert(!(s[i + p] == 92 && s[i + p + 1] == 10));
            assert(false);
        }
        assert(mv == i + p);
        // the rest of the line is the escaped form of b
        assert(s.subrange(i + p + 2, s.len() as int) =~= escape_nl(b) + end_tail(b)) by {
            assert(s.subrange(i + p + 2, s.len() as int) =~= t.skip(p + 2));
            assert(t.skip(p + 2) =~= escape_nl(b) + end_tail(b));
        }
        lemma_body_escape(s, i + p + 2, b);
        assert(s.subrange(i, i + p) =~= a);
        assert(body_from(s, i) == Some(s.subrange(i, mv) + seq![10u8] + b));
        assert(a + seq![10u8] + b =~= m);
    } else {
        // m is newline-free: the whole body is one final chunk
        lemma_escape_nl_id(m);
        assert(t =~= m + end_tail(m));
        // no continuation marker anywhere
        if mv < s.len() {
            assert(s[mv + 1] == 10);
            assert(t[mv + 1 - i] == 10);
            if tail_backslashed(m) {
                assert(t =~= m + seq![32u8, 10u8]);
                assert(mv + 1 - i == t.len() - 1);
                assert(s[mv] == t[t.len() - 2]);
                assert(t[t.len() - 2] == 32);
                assert(false);
            } else {
                assert(t =~= m + seq![10u8]);
                assert(mv + 1 - i == t.len() - 1);
                assert(s[mv] == t[t.len() - 2]);
                if m.len() == 0 {
                    assert(mv + 1 - i < t.len() - 1);
                    assert(false);
                } else {
                    assert(t[t.len() - 2] == m[m.len() - 1]);
                    assert(m[m.len() - 1] == 92);
                    assert(tail_backslashed(m));
                    assert(false);
                }
            }
        }
        assert(mv == s.len());
        assert(body_from(s, i) == last_chunk_spec(t));
        if tail_backslashed(m) {
            let w = choose|j: int|
                0 <= j < m.len() && #[trigger] m[j] == 92 && (forall|k: int|
                    j < k < m.len() ==> m[k] == 32);
            assert(t.len() == m.len() + 2);
            assert(t[t.len() - 1] == 10);
            assert(t[w] == 92);
            assert forall|k: int| w < k < t.len() - 1 implies t[k] == 32 by {
                if k < m.len() {
                    assert(t[k] == m[k]);
                } else {
                    assert(t[k] == 32);
                }
            }
            assert(ends_slash_space(t));
            assert(last_chunk_spec(t) == Some(t.take(t.len() - 2)));
            assert(t.take(t.len() - 2) =~= m);
        } else {
            assert(t =~= m + seq![10u8]);
            if ends_slash_space(t) {
                let w = choose|j: int|
                    0 <= j <= t.len() - 3 && #[trigger] t[j] == 92 && (forall|k: int|
                        j < k < t.len() - 1 ==> t[k] == 32);
                assert(t[w] == m[w]);
                assert forall|k: int| w < k < m.len() implies m[k] == 32 by {
                    assert(m[k] == t[k]);
                    assert(t[k] == 32);
                }
                assert(tail_backslashed(m));
                assert(false);
            }
            assert(t[t.len() - 1] == 10);
            assert forall|k: int| 0 <= k < t.len() - 1 implies t[k] != 10 by {
                assert(t[k] == m[k]);
            }
            assert(last_chunk_spec(t) == Some(t.take(t.len() - 1)));
            assert(t.take(t.len() - 1) =~= m);
        }
    }
}

/// The header text: its bytes are neither newlines nor backslashes.
proof fn lemma_header_bytes(start: u64, dur: u64)
    ensures
        ({
            let hdr = seq![58u8, 32u8] + dec_digits(start as nat) + seq![58u8] + dec_digits(
                dur as nat,
            ) + seq![59u8];
            forall|i: int| 0 <= i < hdr.len() ==> hdr[i] != 10 && hdr[i] != 92
        }),
{
    let d1 = dec_digits(start as nat);
    let d2 = dec_digits(dur as nat);
    let hdr = seq![58u8, 32u8] + d1 + seq![58u8] + d2 + seq![59u8];
    lemma_dec_digits_are_digits(start as nat);
    lemma_dec_digits_are_digits(dur as nat);
    assert forall|i: int| 0 <= i < hdr.len() implies hdr[i] != 10 && hdr[i] != 92 by {
        if 2 <= i < 2 + d1.len() {
            assert(hdr[i] == d1[i - 2]);
        } else if 3 + d1.len() <= i < 3 + d1.len() + d2.len() {
            assert(hdr[i] == d2[i - 3 - d1.len()]);
        }
    }
}

/// Reading the header back: whatever follows it, the header of a written
/// line yields the entry's times and ends where the body begins.
proof fn lemma_header_parse(start: u64, dur: u64, rest: Seq<u8>)
    requires
        start + dur <= u64::MAX,
    ensures
        ({
            let hdr = seq![58u8, 32u8] + dec_digits(start as nat) + seq![58u8] + dec_digits(
                dur as nat,
            ) + seq![59u8];
            header_spec(hdr + rest) == Some(
                (start, (start + dur) as u64, hdr.len() as int),
            )
        }),
{
    let d1 = dec_digits(start as nat);
    let d2 = dec_digits(dur as nat);
    let hdr = seq![58u8, 32u8] + d1 + seq![58u8] + d2 + seq![59u8];
    let s = hdr + rest;
    lemma_dec_digits_are_digits(start as nat);
    lemma_dec_digits_are_digits(dur as nat);
    lemma_dec_val_dec_digits(start as nat);
    lemma_dec_val_dec_digits(dur as nat);
    assert(s[0] == 58 && s[1] == 32);
    let e1 = 2 + d1.len() as int;
    assert forall|j: int| 2 <= j < e1 implies crate::digits::is_digit_byte(s[j]) by {
        assert(s[j] == d1[j - 2]);
    }
    assert(s[e1] == 58);
    lemma_digits_end_is(s, 2, e1);
    assert(s.subrange(2, e1) =~= d1);
    let e2 = e1 + 1 + d2.len() as int;
    assert forall|j: int| e1 + 1 <= j < e2 implies crate::digits::is_digit_byte(s[j]) by {
        assert(s[j] == d2[j - e1 - 1]);
    }
    assert(s[e2] == 59);
    lemma_digits_end_is(s, e1 + 1, e2);
    assert(s.subrange(e1 + 1, e2) =~= d2);
    assert(e2 + 1 == hdr.len());
}

/// Round trip: the line written for a well-formed entry decodes back to the
/// same start time, finish time and command.
pub proof fn lemma_decode_entry_line(start: u64, finish: u64, cmd: Seq<char>)
    requires
        start <= finish,
    ensures
        decode_spec(entry_line(start, finish, cmd)) == Some((start, finish, cmd)),
{
    let dur = (finish - start) as u64;
    let mc = metafy_spec(encode_utf8(cmd));
    let d1 = dec_digits(start as nat);
    let d2 = dec_digits(dur as nat);
    let hdr = seq![58u8, 32u8] + d1 + seq![58u8] + d2 + seq![59u8];
    let p = payload_spec(start, finish, cmd);
    assert(p =~= hdr + mc);
    let line = entry_line(start, finish, cmd);
    lemma_escape_nl_concat(hdr, mc);
    lemma_header_bytes(start, dur);
    lemma_escape_nl_id(hdr);
    lemma_tail_backslashed_concat(hdr, mc);
    assert(tail_backslashed(p) == tail_backslashed(mc));
    assert(line =~= hdr + (escape_nl(mc) + end_tail(mc)));
    lemma_header_parse(start, dur, escape_nl(mc) + end_tail(mc));
    assert(header_spec(line) == Some((start, finish, hdr.len() as int)));
    assert(line.subrange(hdr.len() as int, line.len() as int) =~= escape_nl(mc) + end_tail(mc));
    lemma_body_escape(line, hdr.len() as int, mc);
    assert(parse_raw(line) == Some((start, finish, mc)));
    lemma_unmetafy_metafy(encode_utf8(cmd));
    vstd::utf8::encode_utf8_valid_utf8(cmd);
    vstd::utf8::encode_utf8_decode_utf8(cmd);
}

} // verus!
