//! A byte stream held in memory, to read lines and bytes from.

use crate::text::{copy_range, string_from_utf8};
use vstd::prelude::*;
use vstd::utf8::{decode_utf8, encode_utf8, valid_utf8};

verus! {

/// The bytes of a line end.
pub open spec fn crlf_bytes() -> Seq<u8> {
    seq![13u8, 10u8]
}

/// The texts that a list of string slices holds.
pub open spec fn slice_texts(lines: Seq<&str>) -> Seq<Seq<char>> {
    Seq::new(lines.len(), |i: int| lines[i]@)
}

/// The bytes of the lines with a line end between each two of them.
pub open spec fn joined(lines: Seq<Seq<char>>) -> Seq<u8>
    decreases lines.len(),
{
    if lines.len() == 0 {
        Seq::empty()
    } else if lines.len() == 1 {
        encode_utf8(lines[0])
    } else {
        joined(lines.drop_last()) + crlf_bytes() + encode_utf8(lines.last())
    }
}

/// The length of the first line of the bytes: up to and with the first
/// line feed, or all of them where there is none.
pub open spec fn line_len(bytes: Seq<u8>) -> nat
    decreases bytes.len(),
{
    if bytes.len() == 0 {
        0
    } else if bytes[0] == 10u8 {
        1
    } else {
        1 + line_len(bytes.drop_first())
    }
}

/// A line is never longer than the bytes, and not empty unless they are.
pub proof fn lemma_line_len_bounds(bytes: Seq<u8>)
    ensures
        line_len(bytes) <= bytes.len(),
        bytes.len() > 0 ==> line_len(bytes) >= 1,
    decreases bytes.len(),
{
    if bytes.len() > 0 && bytes[0] != 10u8 {
        lemma_line_len_bounds(bytes.drop_first());
    }
}

/// Bytes that are no line feed all belong to the first line.
pub proof fn lemma_line_len_scan(bytes: Seq<u8>, k: int)
    requires
        0 <= k <= bytes.len(),
        forall|j: int| 0 <= j < k ==> bytes[j] != 10u8,
    ensures
        line_len(bytes) == k + line_len(bytes.skip(k)),
    decreases k,
{
    if k == 0 {
        assert(bytes.skip(0) =~= bytes);
    } else {
        assert(bytes[0] != 10u8);
        let rest = bytes.drop_first();
        assert forall|j: int| 0 <= j < k - 1 implies rest[j] != 10u8 by {
            assert(rest[j] == bytes[j + 1]);
        }
        lemma_line_len_scan(rest, k - 1);
        assert(rest.skip(k - 1) =~= bytes.skip(k));
    }
}

/// A stream of bytes in memory. What was read is gone from it.
pub struct MockReadableStream {
    buf: Vec<u8>,
    offset: usize,
}

impl MockReadableStream {
    #[verifier::type_invariant]
    spec fn inv(self) -> bool {
        self.offset <= self.buf.len()
    }

    /// The bytes that are still to be read.
    pub closed spec fn remaining(&self) -> Seq<u8> {
        self.buf@.skip(self.offset as int)
    }

    /// A stream of the given lines, with a line end between each two of
    /// them.
    pub fn new(lines: Vec<&str>) -> (r: Self)
        ensures
            r.remaining() == joined(slice_texts(lines@)),
    {
        let mut buf: Vec<u8> = Vec::new();
        let mut i: usize = 0;
        while i < lines.len()
            invariant
                i <= lines.len(),
                buf@ == joined(slice_texts(lines@).take(i as int)),
            decreases lines.len() - i,
        {
            let ghost before = slice_texts(lines@).take(i as int);
            let ghost after = slice_texts(lines@).take(i + 1);
            proof {
                assert(after.drop_last() =~= before);
                assert(after.last() == lines@[i as int]@);
            }
            if i > 0 {
                buf.push(13u8);
                buf.push(10u8);
            }
            let mut bytes = lines[i].as_bytes_vec();
            buf.append(&mut bytes);
            proof {
                if i > 0 {
                    assert(buf@ =~= joined(before) + crlf_bytes() + encode_utf8(lines@[i as int]@));
                } else {
                    assert(buf@ =~= encode_utf8(lines@[i as int]@));
                }
            }
            i = i + 1;
        }
        proof {
            assert(slice_texts(lines@).take(lines.len() as int) =~= slice_texts(lines@));
            assert(buf@.skip(0) =~= buf@);
        }
        MockReadableStream { buf, offset: 0 }
    }

    /// A stream of the given bytes.
    pub fn from_bytes(bytes: Vec<u8>) -> (r: Self)
        ensures
            r.remaining() == bytes@,
    {
        proof {
            assert(bytes@.skip(0) =~= bytes@);
        }
        MockReadableStream { buf: bytes, offset: 0 }
    }

    /// The number of bytes that are still to be read.
    pub fn available(&self) -> (r: usize)
        ensures
            r == self.remaining().len(),
    {
        proof {
            use_type_invariant(self);
        }
        self.buf.len() - self.offset
    }

    /// Reads up to `max` bytes: as many as are left, if those are fewer.
    pub fn read(&mut self, max: usize) -> (r: Vec<u8>)
        ensures
            r@.len() == if max <= old(self).remaining().len() {
                max as int
            } else {
                old(self).remaining().len() as int
            },
            r@ == old(self).remaining().take(r@.len() as int),
            final(self).remaining() == old(self).remaining().skip(r@.len() as int),
    {
        proof {
            use_type_invariant(&*self);
        }
        let left: usize = self.buf.len() - self.offset;
        let count: usize = if max <= left {
            max
        } else {
            left
        };
        let out = copy_range(&self.buf, self.offset, self.offset + count);
        proof {
            assert(out@ =~= self.remaining().take(count as int));
            assert(self.buf@.skip(self.offset + count) =~= self.remaining().skip(count as int));
        }
        self.offset = self.offset + count;
        out
    }

    /// Reads exactly `count` bytes. Where fewer are left, nothing is read.
    pub fn read_exact(&mut self, count: usize) -> (r: Option<Vec<u8>>)
        ensures
            match r {
                Some(bytes) => {
                    &&& count <= old(self).remaining().len()
                    &&& bytes@ == old(self).remaining().take(count as int)
                    &&& final(self).remaining() == old(self).remaining().skip(count as int)
                },
                None => count > old(self).remaining().len() && final(self).remaining() == old(
                    self,
                ).remaining(),
            },
    {
        if count > self.available() {
            None
        } else {
            Some(self.read(count))
        }
    }

    /// Reads a line: the bytes up to and with the next line feed, or all
    /// that are left where there is none. At the end of the stream the line
    /// is empty. The bytes are gone from the stream even where they are no
    /// valid UTF-8 and the result is `None`.
    pub fn read_line(&mut self) -> (r: Option<String>)
        ensures
            final(self).remaining() == old(self).remaining().skip(
                line_len(old(self).remaining()) as int,
            ),
            r is Some <==> valid_utf8(
                old(self).remaining().take(line_len(old(self).remaining()) as int),
            ),
            r matches Some(line) ==> line@ == decode_utf8(
                old(self).remaining().take(line_len(old(self).remaining()) as int),
            ),
    {
        proof {
            use_type_invariant(&*self);
        }
        let ghost rem = self.remaining();
        let start: usize = self.offset;
        let mut end: usize = start;
        while end < self.buf.len() && self.buf[end] != 10u8
            invariant
                start == self.offset,
                start <= end <= self.buf.len(),
                rem == self.buf@.skip(start as int),
                forall|j: int| 0 <= j < end - start ==> rem[j] != 10u8,
            decreases self.buf.len() - end,
        {
            end = end + 1;
        }
        proof {
            lemma_line_len_scan(rem, end - start);
            let tail = rem.skip(end - start);
            if end < self.buf.len() {
                assert(tail[0] == 10u8);
                assert(line_len(tail) == 1);
            } else {
                assert(tail.len() == 0);
                assert(line_len(tail) == 0);
            }
        }
        if end < self.buf.len() {
            end = end + 1;
        }
        let bytes = copy_range(&self.buf, start, end);
        proof {
            assert(bytes@ =~= rem.take(end - start));
            assert(self.buf@.skip(end as int) =~= rem.skip(end - start));
        }
        self.offset = end;
        string_from_utf8(bytes)
    }

    /// Reads all that is left as one text; `None` where it is no valid
    /// UTF-8.
    pub fn read_to_string(&mut self) -> (r: Option<String>)
        ensures
            final(self).remaining().len() == 0,
            r is Some <==> valid_utf8(old(self).remaining()),
            r matches Some(text) ==> text@ == decode_utf8(old(self).remaining()),
    {
        let left = self.available();
        let ghost rem = self.remaining();
        let bytes = self.read(left);
        proof {
            assert(rem.take(left as int) =~= rem);
        }
        string_from_utf8(bytes)
    }
}

} // verus!
