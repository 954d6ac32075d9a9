//! A bounds-checked big-endian cursor over a byte slice.

use vstd::prelude::*;
use crate::errors::CoreError;
use crate::util::{be_value, pow256, lemma_be_value_bound, lemma_pow256_values};

verus! {

/// Position-tracking reader over an in-memory HPROF image.
pub struct ByteReader<'a> {
    pub data: &'a [u8],
    pub pos: usize,
}

impl<'a> ByteReader<'a> {
    pub open spec fn wf(&self) -> bool {
        self.pos <= self.data@.len()
    }

    pub open spec fn remaining(&self) -> nat {
        (self.data@.len() - self.pos) as nat
    }

    /// The `n` bytes that start at the cursor.
    pub open spec fn ahead(&self, n: nat) -> Seq<u8> {
        self.data@.subrange(self.pos as int, self.pos + n)
    }

    pub fn new(data: &'a [u8]) -> (r: Self)
        ensures
            r.data@ == data@,
            r.pos == 0,
            r.wf(),
    {
        ByteReader { data, pos: 0 }
    }

    pub fn is_at_end(&self) -> (b: bool)
        requires
            self.wf(),
        ensures
            b == (self.pos == self.data@.len()),
    {
        self.pos >= self.data.len()
    }

    /// Reads `n <= 8` bytes as an unsigned big-endian number.
    pub fn read_be(&mut self, n: usize) -> (res: Result<u64, CoreError>)
        requires
            old(self).wf(),
            n <= 8,
        ensures
            final(self).wf(),
            final(self).data == old(self).data,
            match res {
                Ok(v) => {
                    &&& old(self).pos + n <= old(self).data@.len()
                    &&& final(self).pos == old(self).pos + n
                    &&& v as nat == be_value(old(self).ahead(n as nat))
                },
                Err(e) => {
                    &&& old(self).pos + n > old(self).data@.len()
                    &&& e == CoreError::UnexpectedEof
                    &&& final(self).pos == old(self).pos
                },
            },
    {
        if n > self.data.len() - self.pos {
            return Err(CoreError::UnexpectedEof);
        }
        let start = self.pos;
        let mut v: u64 = 0;
        let mut k: usize = 0;
        while k < n
            invariant
                self.wf(),
                start + n <= self.data@.len(),
                start + n <= usize::MAX,
                self.pos == start,
                k <= n <= 8,
                v as nat == be_value(self.data@.subrange(start as int, start + k)),
            decreases n - k,
        {
            let ghost prev = self.data@.subrange(start as int, start + k);
            let ghost next = self.data@.subrange(start as int, start + k + 1);
            proof {
                assert(next.drop_last() =~= prev);
                lemma_be_value_bound(prev);
                lemma_pow256_mono(k as nat, 7);
                lemma_pow256_values();
            }
            let b = self.data[start + k];
            v = v * 256 + b as u64;
            k = k + 1;
        }
        self.pos = start + n;
        Ok(v)
    }

    pub fn read_u8(&mut self) -> (res: Result<u8, CoreError>)
        requires
            old(self).wf(),
        ensures
            final(self).wf(),
            final(self).data == old(self).data,
            match res {
                Ok(v) => {
                    &&& old(self).pos + 1 <= old(self).data@.len()
                    &&& final(self).pos == old(self).pos + 1
                    &&& v == old(self).data@[old(self).pos as int]
                },
                Err(e) => old(self).pos + 1 > old(self).data@.len() && e == CoreError::UnexpectedEof
                    && final(self).pos == old(self).pos,
            },
    {
        if self.pos >= self.data.len() {
            return Err(CoreError::UnexpectedEof);
        }
        let b = self.data[self.pos];
        self.pos = self.pos + 1;
        Ok(b)
    }

    pub fn read_u16(&mut self) -> (res: Result<u16, CoreError>)
        requires
            old(self).wf(),
        ensures
            final(self).wf(),
            final(self).data == old(self).data,
            match res {
                Ok(v) => {
                    &&& old(self).pos + 2 <= old(self).data@.len()
                    &&& final(self).pos == old(self).pos + 2
                    &&& v as nat == be_value(old(self).ahead(2))
                },
                Err(e) => old(self).pos + 2 > old(self).data@.len() && e == CoreError::UnexpectedEof
                    && final(self).pos == old(self).pos,
            },
    {
        let ghost s = self.ahead(2);
        let v = self.read_be(2)?;
        proof {
            lemma_be_value_bound(s);
            lemma_pow256_values();
        }
        Ok(v as u16)
    }

    pub fn read_u32(&mut self) -> (res: Result<u32, CoreError>)
        requires
            old(self).wf(),
        ensures
            final(self).wf(),
            final(self).data == old(self).data,
            match res {
                Ok(v) => {
                    &&& old(self).pos + 4 <= old(self).data@.len()
                    &&& final(self).pos == old(self).pos + 4
                    &&& v as nat == be_value(old(self).ahead(4))
                },
                Err(e) => old(self).pos + 4 > old(self).data@.len() && e == CoreError::UnexpectedEof
                    && final(self).pos == old(self).pos,
            },
    {
        let ghost s = self.ahead(4);
        let v = self.read_be(4)?;
        proof {
            lemma_be_value_bound(s);
            lemma_pow256_values();
        }
        Ok(v as u32)
    }

    pub fn read_u64(&mut self) -> (res: Result<u64, CoreError>)
        requires
            old(self).wf(),
        ensures
            final(self).wf(),
            final(self).data == old(self).data,
            match res {
                Ok(v) => {
                    &&& old(self).pos + 8 <= old(self).data@.len()
                    &&& final(self).pos == old(self).pos + 8
                    &&& v as nat == be_value(old(self).ahead(8))
                },
                Err(e) => old(self).pos + 8 > old(self).data@.len() && e == CoreError::UnexpectedEof
                    && final(self).pos == old(self).pos,
            },
    {
        self.read_be(8)
    }

    /// Reads an object identifier of the dump's identifier size.
    pub fn read_id(&mut self, id_size: u8) -> (res: Result<u64, CoreError>)
        requires
            old(self).wf(),
            id_size == 4 || id_size == 8,
        ensures
            final(self).wf(),
            final(self).data == old(self).data,
            match res {
                Ok(v) => {
                    &&& old(self).pos + id_size <= old(self).data@.len()
                    &&& final(self).pos == old(self).pos + id_size
                    &&& v as nat == be_value(old(self).ahead(id_size as nat))
                },
                Err(e) => old(self).pos + id_size > old(self).data@.len() && e
                    == CoreError::UnexpectedEof && final(self).pos == old(self).pos,
            },
    {
        self.read_be(id_size as usize)
    }

    /// Advances over `len` bytes.
    pub fn skip(&mut self, len: u64) -> (res: Result<(), CoreError>)
        requires
            old(self).wf(),
        ensures
            final(self).wf(),
            final(self).data == old(self).data,
            match res {
                Ok(_) => old(self).pos + len <= old(self).data@.len() && final(self).pos
                    == old(self).pos + len,
                Err(e) => old(self).pos + len > old(self).data@.len() && e == CoreError::UnexpectedEof
                    && final(self).pos == old(self).pos,
            },
    {
        let rem = self.data.len() - self.pos;
        if len > rem as u64 {
            return Err(CoreError::UnexpectedEof);
        }
        self.pos = self.pos + len as usize;
        Ok(())
    }

    /// Copies the next `len` bytes out.
    pub fn read_vec(&mut self, len: usize) -> (res: Result<Vec<u8>, CoreError>)
        requires
            old(self).wf(),
        ensures
            final(self).wf(),
            final(self).data == old(self).data,
            match res {
                Ok(v) => {
                    &&& old(self).pos + len <= old(self).data@.len()
                    &&& final(self).pos == old(self).pos + len
                    &&& v@ == old(self).ahead(len as nat)
                },
                Err(e) => old(self).pos + len > old(self).data@.len() && e == CoreError::UnexpectedEof
                    && final(self).pos == old(self).pos,
            },
    {
        if len > self.data.len() - self.pos {
            return Err(CoreError::UnexpectedEof);
        }
        let start = self.pos;
        let mut out: Vec<u8> = Vec::with_capacity(len);
        let mut k: usize = 0;
        while k < len
            invariant
                self.wf(),
                self.pos == start,
                start + len <= self.data@.len(),
                start + len <= usize::MAX,
                k <= len,
                out@ == self.data@.subrange(start as int, start + k),
            decreases len - k,
        {
            out.push(self.data[start + k]);
            k = k + 1;
            proof {
                assert(out@ =~= self.data@.subrange(start as int, start + k));
            }
        }
        self.pos = start + len;
        Ok(out)
    }
}

pub proof fn lemma_pow256_mono(a: nat, b: nat)
    requires
        a <= b,
    ensures
        pow256(a) <= pow256(b),
    decreases b,
{
    if a < b {
        lemma_pow256_mono(a, (b - 1) as nat);
    }
}

} // verus!
