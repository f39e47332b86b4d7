//! A stream of bytes in memory.
//!
//! A host has to hand the plugin somewhere to write its state. A DAW would use a chunk of its
//! project file; here it is a `Vec<u8>` that can be inspected, which is what lets a test
//! assert on exactly what the plugin persisted.

use vstd::prelude::*;



verus! {

/// Why a stream refuses a call.
#[derive(Clone, Copy, PartialEq, Eq, Debug, Structural)]
pub enum StreamError {
    InvalidArgument,
}

/// Seek from the start, from the position, and from the end.
pub const SEEK_SET: i32 = 0;

pub const SEEK_CUR: i32 = 1;

pub const SEEK_END: i32 = 2;

/// The bytes of a stream, and the position it is read and written at.
#[verifier::ext_equal]
pub struct Stream {
    pub data: Seq<u8>,
    pub pos: int,
}

impl Stream {
    /// The position is one in the data, or its end.
    pub open spec fn wf(self) -> bool {
        0 <= self.pos <= self.data.len()
    }

    /// How many bytes a read of `n` gets.
    pub open spec fn readable(self, n: int) -> int {
        if n <= self.data.len() - self.pos {
            n
        } else {
            self.data.len() - self.pos
        }
    }

    /// What a read of `n` bytes gets.
    pub open spec fn peeked(self, n: int) -> Seq<u8> {
        self.data.subrange(self.pos, self.pos + self.readable(n))
    }

    /// The stream after a read of `n` bytes.
    pub open spec fn after_read(self, n: int) -> Stream {
        Stream { pos: self.pos + self.readable(n), ..self }
    }

    /// The stream after a write: the bytes overwrite what stands at the position, and go on
    /// past the end.
    pub open spec fn after_write(self, src: Seq<u8>) -> Stream {
        let end = self.pos + src.len();
        Stream {
            data: self.data.subrange(0, self.pos) + src + if end < self.data.len() {
                self.data.subrange(end, self.data.len() as int)
            } else {
                Seq::empty()
            },
            pos: end,
        }
    }

    /// The stream at another position, held within the data.
    pub open spec fn at(self, target: int) -> Stream {
        Stream {
            pos: if target < 0 {
                0
            } else if target > self.data.len() {
                self.data.len() as int
            } else {
                target
            },
            ..self
        }
    }

    /// Where a seek counts from. None if there is no such mode.
    pub open spec fn seek_base(self, mode: i32) -> Option<int> {
        if mode == SEEK_SET {
            Some(0)
        } else if mode == SEEK_CUR {
            Some(self.pos)
        } else if mode == SEEK_END {
            Some(self.data.len() as int)
        } else {
            None
        }
    }
}

/// A stream of bytes in memory.
pub struct MemoryStream {
    data: Vec<u8>,
    pos: usize,
}

impl View for MemoryStream {
    type V = Stream;

    closed spec fn view(&self) -> Stream {
        Stream { data: self.data@, pos: self.pos as int }
    }
}

impl Default for MemoryStream {
    fn default() -> (s: MemoryStream)
        ensures
            s@ == (Stream { data: Seq::empty(), pos: 0 }),
    {
        MemoryStream::new()
    }
}

impl MemoryStream {
    /// An empty stream.
    pub fn new() -> (s: MemoryStream)
        ensures
            s@ == (Stream { data: Seq::empty(), pos: 0 }),
    {
        MemoryStream { data: Vec::new(), pos: 0 }
    }

    /// A stream that holds `data`, at its start.
    pub fn with_data(data: Vec<u8>) -> (s: MemoryStream)
        ensures
            s@ == (Stream { data: data@, pos: 0 }),
    {
        MemoryStream { data, pos: 0 }
    }

    /// A copy of everything written so far.
    pub fn data(&self) -> (r: Vec<u8>)
        ensures
            r@ == self@.data,
    {
        vstd::slice::slice_to_vec(self.data.as_slice())
    }

    /// Rewind, so the plugin reads from the beginning.
    pub fn rewind(&mut self)
        ensures
            final(self)@ == (Stream { pos: 0, ..old(self)@ }),
    {
        self.pos = 0;
    }

    /// Read up to `num_bytes` bytes. A negative number is refused.
    pub fn read(&mut self, num_bytes: i32) -> (r: Result<Vec<u8>, StreamError>)
        requires
            old(self)@.wf(),
        ensures
            match r {
                Ok(bytes) => {
                    &&& num_bytes >= 0
                    &&& bytes@ == old(self)@.peeked(num_bytes as int)
                    &&& final(self)@ == old(self)@.after_read(num_bytes as int)
                },
                Err(e) => num_bytes < 0 && e == StreamError::InvalidArgument && final(self)@
                    == old(self)@,
            },
            final(self)@.wf(),
    {
        if num_bytes < 0 {
            return Err(StreamError::InvalidArgument);
        }
        let available: usize = self.data.len() - self.pos;
        let n: usize = if available as u128 <= num_bytes as u128 {
            available
        } else {
            num_bytes as usize
        };
        let mut out: Vec<u8> = Vec::new();
        let mut i: usize = 0;
        while i < n
            invariant
                i <= n,
                self.pos + n <= self.data.len(),
                out@ == self.data@.subrange(self.pos as int, self.pos + i),
            decreases n - i,
        {
            out.push(self.data[self.pos + i]);
            i += 1;
            proof {
                assert(out@ =~= self.data@.subrange(self.pos as int, self.pos + i));
            }
        }
        self.pos = self.pos + n;
        Ok(out)
    }

    /// Write bytes at the position, and say how many.
    pub fn write(&mut self, src: &[u8]) -> (n: usize)
        requires
            old(self)@.wf(),
            old(self)@.pos + src@.len() <= usize::MAX,
        ensures
            n == src@.len(),
            final(self)@ == old(self)@.after_write(src@),
            final(self)@.wf(),
    {
        let ghost before = self@;
        let n: usize = src.len();
        let start: usize = self.pos;
        let mut i: usize = 0;
        proof {
            assert(before.data.subrange(0, start as int) + src@.subrange(0, 0) + before.data.subrange(
                start as int,
                before.data.len() as int,
            ) =~= before.data);
            assert(Stream { pos: start as int, ..before }.after_write(src@.subrange(0, 0)).data
                =~= before.data);
        }
        while i < n
            invariant
                i <= n,
                n == src@.len(),
                start + n <= usize::MAX,
                before.wf(),
                before.pos == start,
                self.pos == start,
                self.data@ == before.after_write(src@.subrange(0, i as int)).data,
            decreases n - i,
        {
            let ghost now = self.data@;
            let x: u8 = src[i];
            if start + i < self.data.len() {
                self.data.set(start + i, x);
            } else {
                self.data.push(x);
            }
            proof {
                assert(src@.subrange(0, i + 1) =~= src@.subrange(0, i as int).push(x));
                assert(self.data@ =~= before.after_write(src@.subrange(0, i + 1)).data);
            }
            i += 1;
        }
        proof {
            assert(src@.subrange(0, n as int) =~= src@);
        }
        self.pos = start + n;
        n
    }

    /// Move to a position counted from `mode`, held within the data, and say where that is.
    pub fn seek(&mut self, pos: i64, mode: i32) -> (r: Result<usize, StreamError>)
        requires
            old(self)@.wf(),
        ensures
            match (r, old(self)@.seek_base(mode)) {
                (Ok(target), Some(base)) => {
                    &&& final(self)@ == old(self)@.at(base + pos)
                    &&& target == final(self)@.pos
                },
                (Err(e), None) => e == StreamError::InvalidArgument && final(self)@ == old(self)@,
                _ => false,
            },
            final(self)@.wf(),
    {
        let len: usize = self.data.len();
        let base: i128 = if mode == SEEK_SET {
            0
        } else if mode == SEEK_CUR {
            self.pos as i128
        } else if mode == SEEK_END {
            len as i128
        } else {
            return Err(StreamError::InvalidArgument);
        };
        let target: i128 = base + pos as i128;
        let held: usize = if target < 0 {
            0
        } else if target > len as i128 {
            len
        } else {
            target as usize
        };
        self.pos = held;
        Ok(held)
    }

    /// The position.
    pub fn tell(&self) -> (r: usize)
        ensures
            r == self@.pos,
    {
        self.pos
    }
}

/// What was written is what a read from the same place gets back, and the stream ends up where
/// the write left it.
pub proof fn law_read_gives_back_what_was_written(s: Stream, src: Seq<u8>)
    requires
        s.wf(),
    ensures
        ({
            let t = s.after_write(src);
            let back = t.at(s.pos);
            &&& back.peeked(src.len() as int) == src
            &&& back.after_read(src.len() as int) == t
        }),
{
    let t = s.after_write(src);
    let back = t.at(s.pos);
    assert(back.peeked(src.len() as int) =~= src);
}

/// A write changes nothing before the position, and nothing past what it wrote.
pub proof fn law_write_touches_nothing_else(s: Stream, src: Seq<u8>, i: int)
    requires
        s.wf(),
        0 <= i < s.data.len(),
        i < s.pos || i >= s.pos + src.len(),
    ensures
        s.after_write(src).data[i] == s.data[i],
        s.after_write(src).data.len() >= s.data.len(),
{
}

/// Two writes one after the other come to one write of both.
pub proof fn law_writes_join(s: Stream, a: Seq<u8>, b: Seq<u8>)
    requires
        s.wf(),
    ensures
        s.after_write(a).after_write(b) == s.after_write(a + b),
{
    assert(s.after_write(a).after_write(b).data =~= s.after_write(a + b).data);
}

/// Two reads one after the other come to one read of both.
pub proof fn law_reads_join(s: Stream, m: int, n: int)
    requires
        s.wf(),
        0 <= m,
        0 <= n,
    ensures
        s.peeked(m) + s.after_read(m).peeked(n) == s.peeked(m + n),
        s.after_read(m).after_read(n) == s.after_read(m + n),
{
    assert(s.peeked(m) + s.after_read(m).peeked(n) =~= s.peeked(m + n));
}

/// A seek never leaves the data.
pub proof fn law_seek_stays_inside(s: Stream, target: int)
    ensures
        s.at(target).wf(),
        s.at(target).data == s.data,
        0 <= target <= s.data.len() ==> s.at(target).pos == target,
{
}

/// A seek counts from the start, from the position, or from the end, and in no other way.
pub proof fn law_seek_counts_from(s: Stream, mode: i32)
    ensures
        s.seek_base(0) == Some(0int),
        s.seek_base(1) == Some(s.pos),
        s.seek_base(2) == Some(s.data.len() as int),
        mode < 0 || mode > 2 ==> s.seek_base(mode) is None,
{
}

/// A seek past either end stops there.
pub proof fn law_seek_stops_at_the_ends(s: Stream, target: int)
    ensures
        target < 0 ==> s.at(target).pos == 0,
        target > s.data.len() ==> s.at(target).pos == s.data.len(),
{
}

/// A read takes what was asked for, or what is left of the data, from the position on, and goes
/// past it. It leaves the data as it is.
pub proof fn law_read_takes_what_is_left(s: Stream, n: int)
    requires
        s.wf(),
        0 <= n,
    ensures
        s.peeked(n).len() <= n,
        s.peeked(n).len() == n || s.pos + s.peeked(n).len() == s.data.len(),
        forall|i: int| 0 <= i < s.peeked(n).len() ==> #[trigger] s.peeked(n)[i] == s.data[s.pos + i],
        s.after_read(n).pos == s.pos + s.peeked(n).len(),
        s.after_read(n).data == s.data,
{
}

/// A write goes over the data from the position on, lengthens them if it has to, and ends where
/// it stopped writing.
pub proof fn law_write_goes_over_the_data(s: Stream, src: Seq<u8>)
    requires
        s.wf(),
    ensures
        ({
            let t = s.after_write(src);
            let end = s.pos + src.len();
            &&& t.wf()
            &&& t.pos == end
            &&& t.data.len() == s.data.len() || t.data.len() == end
            &&& t.data.len() >= s.data.len() && t.data.len() >= end
            &&& forall|i: int| 0 <= i < src.len() ==> t.data[s.pos + i] == #[trigger] src[i]
        }),
{
}

} // verus!
