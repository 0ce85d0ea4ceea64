use crate::errors::DecodeError;
use crate::record::{json_decode, parse_record, Record};
use vstd::prelude::*;

verus! {

/// Longest snippet of a malformed record carried inside a `DecodeError`.
pub const SNIPPET_LIMIT: usize = 64;

/// Index of the newline that ends the line starting at `from`, or the end of
/// the source.
pub open spec fn line_end(s: Seq<u8>, from: int) -> int
    decreases s.len() - from,
{
    if from < 0 || from >= s.len() {
        s.len() as int
    } else if s[from] == 10u8 {
        from
    } else {
        line_end(s, from + 1)
    }
}

/// Start and end of the first non-empty line at or after `from`, if any.
pub open spec fn next_record_line(s: Seq<u8>, from: int) -> Option<(int, int)>
    decreases s.len() - from,
{
    if from < 0 || from >= s.len() {
        None
    } else if s[from] == 10u8 {
        next_record_line(s, from + 1)
    } else {
        Some((from, line_end(s, from)))
    }
}

/// One successfully decoded record together with the exact text it came from
/// and the byte offset where that text starts.
pub struct StreamItem {
    pub record: Record,
    pub raw: Vec<u8>,
    pub offset: usize,
}

/// Lazy, forward-only reader of newline-delimited self-describing records
/// over a byte source. Decoding happens strictly in source order; the
/// sequence is finite and consumed exactly once.
pub struct RecordReader<'a> {
    pub src: &'a [u8],
    pub pos: usize,
}

impl<'a> RecordReader<'a> {
    pub open spec fn wf(&self) -> bool {
        self.pos <= self.src@.len()
    }

    /// Opens a reader at the start of the source.
    pub fn open(src: &'a [u8]) -> (r: RecordReader<'a>)
        ensures
            r.wf(),
            r.src@ == src@,
            r.pos == 0,
    {
        RecordReader { src, pos: 0 }
    }

    /// Yields the next record, or `Ok(None)` at the end of the source. A
    /// malformed record surfaces as a recoverable error carrying its byte
    /// offset and a snippet; the reader advances past it either way, so the
    /// caller chooses whether to skip, stop, or collect and continue.
    pub fn next(&mut self) -> (r: Result<Option<StreamItem>, DecodeError>)
        requires
            old(self).wf(),
        ensures
            final (self).wf(),
            final (self).src@ == old(self).src@,
            match r {
                Ok(None) => next_record_line(old(self).src@, old(self).pos as int) is None
                    && final (self).pos == old(self).src@.len(),
                Ok(Some(item)) => {
                    &&& final (self).pos > old(self).pos
                    &&& next_record_line(old(self).src@, old(self).pos as int) is Some
                    &&& {
                        let (start, end) = next_record_line(
                            old(self).src@,
                            old(self).pos as int,
                        ).unwrap();
                        &&& item.offset == start
                        &&& item.raw@ == old(self).src@.subrange(start, end)
                        &&& json_decode(item.raw@) == Some(item.record)
                        &&& final (self).pos == (if end == old(self).src@.len() {
                            end
                        } else {
                            end + 1
                        })
                    }
                },
                Err(e) => {
                    &&& final (self).pos > old(self).pos
                    &&& next_record_line(old(self).src@, old(self).pos as int) is Some
                    &&& {
                        let (start, end) = next_record_line(
                            old(self).src@,
                            old(self).pos as int,
                        ).unwrap();
                        &&& e.offset == start
                        &&& json_decode(old(self).src@.subrange(start, end)) is None
                        &&& e.snippet@ == old(self).src@.subrange(
                            start,
                            if end - start <= SNIPPET_LIMIT as int {
                                end
                            } else {
                                start + SNIPPET_LIMIT as int
                            },
                        )
                        &&& final (self).pos == (if end == old(self).src@.len() {
                            end
                        } else {
                            end + 1
                        })
                    }
                },
            },
    {
        let n: usize = self.src.len();
        while self.pos < n && *vstd::slice::slice_index_get(self.src, self.pos) == 10u8
            invariant
                self.src@ == old(self).src@,
                old(self).pos <= self.pos,
                self.pos <= n,
                n == self.src@.len(),
                next_record_line(self.src@, old(self).pos as int) == next_record_line(
                    self.src@,
                    self.pos as int,
                ),
            decreases n - self.pos,
        {
            self.pos = self.pos + 1;
        }
        if self.pos >= n {
            return Ok(None);
        }
        let start: usize = self.pos;
        let mut end: usize = start;
        while end < n && *vstd::slice::slice_index_get(self.src, end) != 10u8
            invariant
                self.src@ == old(self).src@,
                start <= end <= n,
                n == self.src@.len(),
                line_end(self.src@, start as int) == line_end(self.src@, end as int),
            decreases n - end,
        {
            end = end + 1;
        }
        proof {
            assert(line_end(self.src@, end as int) == end);
            assert(self.src@[start as int] != 10u8);
            if end == start {
                assert(false);
            }
        }
        let line: Vec<u8> = vstd::slice::slice_to_vec(
            vstd::slice::slice_subrange(self.src, start, end),
        );
        self.pos = if end == n {
            end
        } else {
            end + 1
        };
        match parse_record(line.as_slice()) {
            Some(rec) => Ok(Some(StreamItem { record: rec, raw: line, offset: start })),
            None => {
                let cap: usize = if end - start <= SNIPPET_LIMIT {
                    end
                } else {
                    start + SNIPPET_LIMIT
                };
                let snippet: Vec<u8> = vstd::slice::slice_to_vec(
                    vstd::slice::slice_subrange(self.src, start, cap),
                );
                Err(DecodeError { offset: start, snippet })
            },
        }
    }
}

} // verus!
