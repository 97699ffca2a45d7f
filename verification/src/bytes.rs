//! A byte-cursor over an in-memory buffer, with delimiter-driven reads.

use vstd::prelude::*;
use crate::index::scan_to;

verus! {

/// A forward-only cursor over a byte buffer.
pub struct ByteReader {
    pub data: Vec<u8>,
    pub pos: usize,
}

impl ByteReader {
    /// Cursor position stays within the buffer.
    pub open spec fn wf(&self) -> bool {
        self.pos <= self.data@.len()
    }

    /// A cursor at the start of the buffer.
    pub fn new(data: Vec<u8>) -> (r: ByteReader)
        ensures
            r.wf(),
            r.data@ == data@,
            r.pos == 0,
    {
        ByteReader { data, pos: 0 }
    }

    /// The next byte, or `None` at the end of the buffer.
    pub fn next_byte(&mut self) -> (r: Option<u8>)
        requires
            old(self).wf(),
        ensures
            final(self).wf(),
            final(self).data@ == old(self).data@,
            match r {
                Some(b) => old(self).pos < old(self).data@.len() && b == old(self).data@[old(
                    self,
                ).pos as int] && final(self).pos == old(self).pos + 1,
                None => old(self).pos == old(self).data@.len() && final(self).pos == old(
                    self,
                ).pos,
            },
    {
        if self.pos < self.data.len() {
            let b = self.data[self.pos];
            self.pos = self.pos + 1;
            Some(b)
        } else {
            None
        }
    }

    /// Appends the bytes up to and including the next `byte` (or to the end
    /// of the buffer) to `buf`; returns how many bytes were consumed.
    pub fn read_until(&mut self, byte: u8, buf: &mut Vec<u8>) -> (r: usize)
        requires
            old(self).wf(),
        ensures
            final(self).wf(),
            final(self).data@ == old(self).data@,
            ({
                let e = scan_to(old(self).data@, byte, old(self).pos as int, old(
                    self,
                ).data@.len() as int);
                let stop = if e < old(self).data@.len() {
                    e + 1
                } else {
                    e
                };
                &&& final(self).pos == stop
                &&& final(buf)@ == old(buf)@ + old(self).data@.subrange(
                    old(self).pos as int,
                    stop,
                )
                &&& r == stop - old(self).pos
            }),
    {
        let n = self.data.len();
        let e = crate::index::find_byte(&self.data, byte, self.pos, n);
        let stop = if e < n {
            e + 1
        } else {
            e
        };
        let mut i = self.pos;
        while i < stop
            invariant
                old(self).pos <= i <= stop <= self.data@.len(),
                self == old(self),
                buf@ == old(buf)@ + self.data@.subrange(old(self).pos as int, i as int),
            decreases stop - i,
        {
            let ghost pre = buf@;
            buf.push(self.data[i]);
            proof {
                assert(pre.push(self.data@[i as int]) =~= old(buf)@ + self.data@.subrange(
                    old(self).pos as int,
                    i as int + 1,
                ));
            }
            i = i + 1;
        }
        let consumed = stop - self.pos;
        self.pos = stop;
        consumed
    }

    /// Skips bytes up to and including the next `delim` (or to the end of
    /// the buffer).
    pub fn seek_until_byte(&mut self, delim: u8)
        requires
            old(self).wf(),
        ensures
            final(self).wf(),
            final(self).data@ == old(self).data@,
            ({
                let e = scan_to(old(self).data@, delim, old(self).pos as int, old(
                    self,
                ).data@.len() as int);
                final(self).pos == if e < old(self).data@.len() {
                    e + 1
                } else {
                    e
                }
            }),
    {
        let n = self.data.len();
        let e = crate::index::find_byte(&self.data, delim, self.pos, n);
        self.pos = if e < n {
            e + 1
        } else {
            e
        };
    }

    /// Appends one line to `buf` without its newline; returns how many bytes
    /// were consumed and whether the buffer ended without a newline.
    pub fn read_line_trim_newline(&mut self, buf: &mut Vec<u8>) -> (r: (usize, bool))
        requires
            old(self).wf(),
            old(self).pos < old(self).data@.len(),
        ensures
            final(self).wf(),
            final(self).data@ == old(self).data@,
            ({
                let e = scan_to(old(self).data@, 10, old(self).pos as int, old(
                    self,
                ).data@.len() as int);
                &&& final(buf)@ == old(buf)@ + old(self).data@.subrange(old(self).pos as int, e)
                &&& r.1 == (e == old(self).data@.len())
                &&& r.0 == (if e < old(self).data@.len() {
                    e + 1
                } else {
                    e
                }) - old(self).pos
                &&& final(self).pos == old(self).pos + r.0
            }),
    {
        let n = self.data.len();
        let e = crate::index::find_byte(&self.data, 10, self.pos, n);
        let mut i = self.pos;
        while i < e
            invariant
                old(self).pos <= i <= e <= self.data@.len(),
                self == old(self),
                buf@ == old(buf)@ + self.data@.subrange(old(self).pos as int, i as int),
            decreases e - i,
        {
            let ghost pre = buf@;
            buf.push(self.data[i]);
            proof {
                assert(pre.push(self.data@[i as int]) =~= old(buf)@ + self.data@.subrange(
                    old(self).pos as int,
                    i as int + 1,
                ));
            }
            i = i + 1;
        }
        let stop = if e < n {
            e + 1
        } else {
            e
        };
        let consumed = stop - self.pos;
        self.pos = stop;
        (consumed, e == n)
    }
}

impl ByteReader {
    /// Reads up to and over the next `delim` and hands the bytes before it
    /// (to the delimiter, or to the end of the buffer) to `f`, sixteen at a
    /// time; returns how many bytes were consumed, delimiter included. Only
    /// the cursor movement is specified: what `f` does with the chunks is
    /// the caller's business.
    pub fn apply_on_slice_until_byte<F: FnMut(&[u8])>(&mut self, delim: u8, f: F) -> (r: usize)
        requires
            old(self).wf(),
            forall|g: F, s: &[u8]| call_requires(g, (s,)),
        ensures
            final(self).wf(),
            final(self).data@ == old(self).data@,
            ({
                let e = scan_to(old(self).data@, delim, old(self).pos as int, old(
                    self,
                ).data@.len() as int);
                let stop = if e < old(self).data@.len() {
                    e + 1
                } else {
                    e
                };
                &&& final(self).pos == stop
                &&& r == stop - old(self).pos
            }),
    {
        let mut f = f;
        let n = self.data.len();
        let e = crate::index::find_byte(&self.data, delim, self.pos, n);
        let mut i = self.pos;
        while i < e
            invariant
                old(self).pos <= i <= e <= self.data@.len(),
                self == old(self),
                forall|g: F, s: &[u8]| call_requires(g, (s,)),
            decreases e - i,
        {
            let upper = if e - i < 16 {
                e
            } else {
                i + 16
            };
            let mut chunk: Vec<u8> = Vec::new();
            let mut j = i;
            while j < upper
                invariant
                    i <= j <= upper <= self.data@.len(),
                    self == old(self),
                decreases upper - j,
            {
                chunk.push(self.data[j]);
                j = j + 1;
            }
            f(chunk.as_slice());
            i = upper;
        }
        let stop = if e < n {
            e + 1
        } else {
            e
        };
        let consumed = stop - self.pos;
        self.pos = stop;
        consumed
    }

    /// Reads up to and over the next `delim` and hands each byte before it
    /// to `f`; returns how many bytes were consumed, delimiter included.
    pub fn apply_until_byte<F: FnMut(u8)>(&mut self, delim: u8, f: F) -> (r: usize)
        requires
            old(self).wf(),
            forall|g: F, b: u8| call_requires(g, (b,)),
        ensures
            final(self).wf(),
            final(self).data@ == old(self).data@,
            ({
                let e = scan_to(old(self).data@, delim, old(self).pos as int, old(
                    self,
                ).data@.len() as int);
                let stop = if e < old(self).data@.len() {
                    e + 1
                } else {
                    e
                };
                &&& final(self).pos == stop
                &&& r == stop - old(self).pos
            }),
    {
        let mut f = f;
        let n = self.data.len();
        let e = crate::index::find_byte(&self.data, delim, self.pos, n);
        let mut i = self.pos;
        while i < e
            invariant
                old(self).pos <= i <= e <= self.data@.len(),
                self == old(self),
                forall|g: F, b: u8| call_requires(g, (b,)),
            decreases e - i,
        {
            f(self.data[i]);
            i = i + 1;
        }
        let stop = if e < n {
            e + 1
        } else {
            e
        };
        let consumed = stop - self.pos;
        self.pos = stop;
        consumed
    }

    /// Appends one line, newline included, to `buf` as text; returns how
    /// many bytes were consumed, or `None` — consuming nothing — when the
    /// line is not valid text.
    pub fn read_line(&mut self, buf: &mut String) -> (r: Option<usize>)
        requires
            old(self).wf(),
        ensures
            final(self).wf(),
            final(self).data@ == old(self).data@,
            ({
                let e = scan_to(old(self).data@, 10, old(self).pos as int, old(
                    self,
                ).data@.len() as int);
                let stop = if e < old(self).data@.len() {
                    e + 1
                } else {
                    e
                };
                let segment = old(self).data@.subrange(old(self).pos as int, stop);
                match r {
                    Some(n) => {
                        &&& vstd::utf8::valid_utf8(segment)
                        &&& final(buf)@ == old(buf)@ + vstd::utf8::decode_utf8(segment)
                        &&& final(self).pos == stop
                        &&& n == stop - old(self).pos
                    },
                    None => {
                        &&& !vstd::utf8::valid_utf8(segment)
                        &&& final(buf)@ == old(buf)@
                        &&& final(self).pos == old(self).pos
                    },
                }
            }),
    {
        let n = self.data.len();
        let e = crate::index::find_byte(&self.data, 10, self.pos, n);
        let stop = if e < n {
            e + 1
        } else {
            e
        };
        match crate::index::bytes_to_string(&self.data, self.pos, stop) {
            None => None,
            Some(s) => {
                buf.append(s.as_str());
                let consumed = stop - self.pos;
                self.pos = stop;
                Some(consumed)
            },
        }
    }
}

} // verus!
