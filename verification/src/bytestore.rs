use vstd::prelude::*;

use crate::error::ParcelError;
use vstd::pervasive::VecAdditionalExecFns;

verus! {

/// The bytes a write leaves behind: the store grows to cover the written
/// range (any gap past the old end is zero-filled), the range itself holds
/// the buffer, and all other bytes keep their old values.  An empty write
/// changes nothing.
pub open spec fn write_result(data: Seq<u8>, pos: int, buf: Seq<u8>) -> Seq<u8> {
    if buf.len() == 0 {
        data
    } else {
        Seq::new(
            if data.len() >= pos + buf.len() {
                data.len()
            } else {
                (pos + buf.len()) as nat
            },
            |i: int|
                if pos <= i < pos + buf.len() {
                    buf[i - pos]
                } else if i < data.len() {
                    data[i]
                } else {
                    0u8
                },
        )
    }
}

/// A random-access byte store held in memory: the backing every parcel
/// reads from and writes to.  A host keeps the bytes of a parcel file in
/// one of these while the parcel is open, and writes them back out when it
/// is done.
#[derive(Debug, Clone)]
pub struct ByteStore {
    data: Vec<u8>,
    pos: u64,
}

impl View for ByteStore {
    type V = Seq<u8>;

    /// The stored bytes.
    closed spec fn view(&self) -> Seq<u8> {
        self.data@
    }
}

impl ByteStore {
    /// The current stream position.
    pub closed spec fn cursor(&self) -> u64 {
        self.pos
    }

    /// An empty store with the cursor at the start.
    pub fn new() -> (r: Self)
        ensures
            r@ == Seq::<u8>::empty(),
            r.cursor() == 0,
    {
        ByteStore { data: Vec::new(), pos: 0 }
    }

    /// A store holding the given bytes, cursor at the start.
    pub fn from_vec(data: Vec<u8>) -> (r: Self)
        ensures
            r@ == data@,
            r.cursor() == 0,
    {
        ByteStore { data, pos: 0 }
    }

    /// The stored bytes, to hand back to whatever holds the real file.
    pub fn to_vec(&self) -> (r: Vec<u8>)
        ensures
            r@ == self@,
    {
        self.data.clone()
    }

    /// The number of stored bytes.
    pub fn len(&self) -> (r: u64)
        ensures
            r == self@.len(),
    {
        self.data.len() as u64
    }

    /// Move the cursor to an absolute position, possibly past the end.
    pub fn seek(&mut self, pos: u64)
        ensures
            final(self)@ == old(self)@,
            final(self).cursor() == pos,
    {
        self.pos = pos;
    }

    /// The cursor's position.
    pub fn stream_position(&self) -> (r: u64)
        ensures
            r == self.cursor(),
    {
        self.pos
    }

    /// Read exactly `n` bytes at the cursor and advance it.  Fails, moving
    /// nothing, when fewer than `n` bytes lie between cursor and end.
    pub fn read_exact(&mut self, n: u64) -> (r: Result<Vec<u8>, ParcelError>)
        ensures
            final(self)@ == old(self)@,
            n == 0 ==> (r matches Ok(b) && b@ == Seq::<u8>::empty() && final(self).cursor()
                == old(self).cursor()),
            n > 0 && old(self).cursor() + n <= old(self)@.len() ==> (r matches Ok(b) && b@
                == old(self)@.subrange(
                old(self).cursor() as int,
                old(self).cursor() + n,
            ) && final(self).cursor() == old(self).cursor() + n),
            n > 0 && old(self).cursor() + n > old(self)@.len() ==> (r matches Err(e) && e
                == ParcelError::Io && final(self).cursor() == old(self).cursor()),
    {
        if n == 0 {
            return Ok(Vec::new());
        }
        let len = self.data.len() as u64;
        if self.pos > len || n > len - self.pos {
            return Err(ParcelError::Io);
        }
        let start = self.pos as usize;
        let count = n as usize;
        let dl = self.data.len();
        let mut out: Vec<u8> = Vec::new();
        let mut i: usize = 0;
        while i < count
            invariant
                i <= count,
                dl == self.data@.len(),
                start + count <= dl,
                out@ == self.data@.subrange(start as int, start + i),
            decreases count - i,
        {
            out.push(self.data[start + i]);
            proof {
                assert(out@ =~= self.data@.subrange(start as int, start + i + 1));
            }
            i += 1;
        }
        self.pos = self.pos + n;
        Ok(out)
    }

    /// Read every byte from the cursor (clamped to the end) to the end,
    /// leaving the cursor at the end.
    pub fn read_to_end(&mut self) -> (r: Vec<u8>)
        ensures
            final(self)@ == old(self)@,
            r@ == old(self)@.subrange(
                if old(self).cursor() <= old(self)@.len() {
                    old(self).cursor() as int
                } else {
                    old(self)@.len() as int
                },
                old(self)@.len() as int,
            ),
            final(self).cursor() == old(self)@.len(),
    {
        let len = self.data.len() as u64;
        let start_pos = if self.pos <= len {
            self.pos
        } else {
            len
        };
        let start = start_pos as usize;
        let dl = self.data.len();
        let count = dl - start;
        let mut out: Vec<u8> = Vec::new();
        let mut i: usize = 0;
        while i < count
            invariant
                i <= count,
                dl == self.data@.len(),
                start + count == dl,
                out@ == self.data@.subrange(start as int, start + i),
            decreases count - i,
        {
            out.push(self.data[start + i]);
            proof {
                assert(out@ =~= self.data@.subrange(start as int, start + i + 1));
            }
            i += 1;
        }
        self.pos = len;
        out
    }

    /// Write the buffer at the cursor and advance it, zero-filling any gap
    /// between the old end and the cursor.
    pub fn write_all(&mut self, buf: &[u8])
        requires
            old(self).cursor() + buf@.len() <= usize::MAX,
        ensures
            final(self)@ == write_result(old(self)@, old(self).cursor() as int, buf@),
            final(self).cursor() == old(self).cursor() + buf@.len(),
    {
        let ghost orig = self.data@;
        let ghost gpos = self.pos as int;
        if buf.len() == 0 {
            return;
        }
        let start = self.pos as usize;
        while self.data.len() < start
            invariant
                self.pos == old(self).pos,
                self.data@ == orig + Seq::new((self.data@.len() - orig.len()) as nat, |i: int| 0u8),
                orig.len() <= self.data@.len(),
                self.data@.len() <= start || self.data@.len() == orig.len(),
            decreases start - self.data@.len(),
        {
            self.data.push(0u8);
        }
        let ghost padded = self.data@;
        proof {
            assert(padded.len() == if orig.len() >= start {
                orig.len() as int
            } else {
                start as int
            });
        }
        let mut i: usize = 0;
        while i < buf.len()
            invariant
                self.pos == old(self).pos,
                i <= buf@.len(),
                start + buf@.len() <= usize::MAX,
                padded.len() == if orig.len() >= start {
                    orig.len() as int
                } else {
                    start as int
                },
                padded == orig + Seq::new((padded.len() - orig.len()) as nat, |j: int| 0u8),
                self.data@.len() == if padded.len() >= start + i {
                    padded.len() as int
                } else {
                    start + i
                },
                forall|j: int|
                    0 <= j < self.data@.len() ==> self.data@[j] == if start <= j < start + i {
                        buf@[j - start]
                    } else if j < padded.len() {
                        padded[j]
                    } else {
                        0u8
                    },
            decreases buf@.len() - i,
        {
            if start + i < self.data.len() {
                self.data.set(start + i, buf[i]);
            } else {
                self.data.push(buf[i]);
            }
            i += 1;
        }
        proof {
            assert(self.data@ =~= write_result(orig, gpos, buf@));
        }
        self.pos = self.pos + buf.len() as u64;
    }

    /// Write `n` ASCII space bytes at the cursor.
    pub fn write_spaces(&mut self, n: u64)
        requires
            old(self).cursor() + n <= usize::MAX,
        ensures
            final(self)@ == write_result(
                old(self)@,
                old(self).cursor() as int,
                Seq::new(n as nat, |i: int| 32u8),
            ),
            final(self).cursor() == old(self).cursor() + n,
    {
        let buf: Vec<u8> = vec![32u8; n as usize];
        self.write_all(buf.as_slice());
    }

    /// Flushing an in-memory store does nothing; the real file is written
    /// by whoever owns it.
    pub fn flush(&mut self)
        ensures
            final(self)@ == old(self)@,
            final(self).cursor() == old(self).cursor(),
    {
    }
}

} // verus!
