//! Splitting a raw history byte stream into logical lines.
//!
//! A logical line runs up to and including the first newline that is not
//! preceded by a backslash; a backslash-newline pair continues the line into
//! the next physical one.  The split keeps every byte: continuation markers
//! are not stripped here, that is the record parser's job.  A final line
//! without a closing newline is handed out as it stands.

use vstd::prelude::*;

use vstd::slice::slice_subrange;

verus! {

/// First index at or after `j` that holds a newline closing the logical line
/// begun at `p` (the newline opens the line or follows a non-backslash), or
/// `s.len()` when no newline closes it.
pub open spec fn line_end(s: Seq<u8>, p: int, j: int) -> int
    decreases s.len() - j,
{
    if j < 0 || j >= s.len() {
        s.len() as int
    } else if s[j] == 10 && (j == p || s[j - 1] != 92) {
        j
    } else {
        line_end(s, p, j + 1)
    }
}

/// The logical lines of a raw history byte stream, handed out one at a time.
#[derive(Debug)]
pub struct HistoryLines {
    /// The raw bytes of the stream.
    pub data: Vec<u8>,
    /// The cursor: everything before it has already been handed out.
    pub pos: usize,
}

impl HistoryLines {
    /// The cursor never leaves the buffer.
    pub open spec fn wf(self) -> bool {
        self.pos <= self.data@.len()
    }

    /// Wrap a fully-read byte stream.
    pub fn new(data: Vec<u8>) -> (r: HistoryLines)
        ensures
            r.wf(),
            r.data@ == data@,
            r.pos == 0,
    {
        HistoryLines { data, pos: 0 }
    }

    /// Hand out the next logical line: every byte from the cursor up to and
    /// including the first newline not preceded by a backslash; the whole
    /// rest of the stream when no such newline remains; `None` once the
    /// stream is exhausted.
    pub fn next(&mut self) -> (r: Option<Vec<u8>>)
        requires
            old(self).wf(),
        ensures
            final(self).wf(),
            final(self).data@ == old(self).data@,
            old(self).pos == old(self).data@.len() ==> r is None && final(self).pos == old(
                self,
            ).pos,
            old(self).pos < old(self).data@.len() ==> ({
                let e = line_end(old(self).data@, old(self).pos as int, old(self).pos as int);
                &&& r is Some
                &&& e < old(self).data@.len() ==> r->0@ == old(self).data@.subrange(
                    old(self).pos as int,
                    e + 1,
                ) && final(self).pos == e + 1
                &&& e == old(self).data@.len() ==> r->0@ == old(self).data@.subrange(
                    old(self).pos as int,
                    e,
                ) && final(self).pos == e
            }),
    {
        let n = self.data.len();
        let p = self.pos;
        if p == n {
            return None;
        }
        let mut j: usize = p;
        while j < n && !(self.data[j] == 10 && (j == p || self.data[j - 1] != 92))
            invariant
                p <= j <= n,
                n == self.data@.len(),
                p == self.pos,
                line_end(self.data@, p as int, p as int) == line_end(self.data@, p as int, j as int),
            ensures
                p <= j <= n,
                n == self.data@.len(),
                p == self.pos,
                line_end(self.data@, p as int, p as int) == line_end(self.data@, p as int, j as int),
                j < n ==> line_end(self.data@, p as int, j as int) == j,
                j == n ==> line_end(self.data@, p as int, j as int) == n,
            decreases n - j,
        {
            j += 1;
        }
        let mut out: Vec<u8> = Vec::new();
        if j < n {
            out.extend_from_slice(slice_subrange(self.data.as_slice(), p, j + 1));
            self.pos = j + 1;
            proof {
                assert(out@ =~= self.data@.subrange(p as int, j + 1));
            }
        } else {
            out.extend_from_slice(slice_subrange(self.data.as_slice(), p, n));
            self.pos = n;
            proof {
                assert(out@ =~= self.data@.subrange(p as int, n as int));
            }
        }
        Some(out)
    }
}

} // verus!
