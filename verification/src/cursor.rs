//! Sequential, bounds-checked big-endian reader over an in-memory byte
//! buffer. Every read either returns the value and advances the position by
//! its exact width, or signals `UnexpectedEnd` and leaves the position where
//! it was; no read is partial.

use vstd::prelude::*;
use crate::error::NbtError;
use crate::model::{
    be_u16, be_u32, be_u64, enc_i32s, enc_i64s, is_utf8, lemma_cast_u32_i32, lemma_cast_u64_i64,
    lemma_enc_be_u32, lemma_enc_be_u64, lemma_enc_i32s_push, lemma_enc_i64s_push,
};

verus! {

broadcast use vstd::seq::group_seq_axioms;

/// Relies on core::str::from_utf8: it returns Ok exactly when the bytes are
/// valid UTF-8.
#[verifier::external_body]
fn utf8_check(bytes: &Vec<u8>) -> (r: bool)
    ensures
        r == is_utf8(bytes@),
{
    core::str::from_utf8(bytes.as_slice()).is_ok()
}

/// A read position inside a borrowed byte buffer.
pub struct Cursor<'a> {
    buf: &'a Vec<u8>,
    pos: usize,
}

impl<'a> Cursor<'a> {
    /// The whole underlying buffer.
    pub closed spec fn spec_data(self) -> Seq<u8> {
        self.buf@
    }

    /// The current read position.
    pub closed spec fn spec_pos(self) -> int {
        self.pos as int
    }

    /// The position has not run past the buffer.
    pub open spec fn wf(self) -> bool {
        0 <= self.spec_pos() <= self.spec_data().len()
    }

    /// How many bytes are left to read.
    pub open spec fn remaining(self) -> int {
        self.spec_data().len() - self.spec_pos()
    }

    /// A cursor at the start of `buf`.
    pub fn new(buf: &'a Vec<u8>) -> (r: Cursor<'a>)
        ensures
            r.wf(),
            r.spec_data() == buf@,
            r.spec_pos() == 0,
    {
        Cursor { buf, pos: 0 }
    }

    /// The current read position.
    pub fn pos(&self) -> (r: usize)
        ensures
            r == self.spec_pos(),
    {
        self.pos
    }

    /// Reads one byte.
    pub fn next_u8(&mut self) -> (r: Result<u8, NbtError>)
        requires
            old(self).wf(),
        ensures
            final(self).wf(),
            final(self).spec_data() == old(self).spec_data(),
            old(self).remaining() >= 1 ==> r == Ok::<u8, NbtError>(
                old(self).spec_data()[old(self).spec_pos()],
            ) && final(self).spec_pos() == old(self).spec_pos() + 1,
            old(self).remaining() < 1 ==> r == Err::<u8, NbtError>(NbtError::UnexpectedEnd)
                && final(self).spec_pos() == old(self).spec_pos(),
    {
        if self.buf.len() - self.pos >= 1 {
            let b = self.buf[self.pos];
            self.pos = self.pos + 1;
            Ok(b)
        } else {
            Err(NbtError::UnexpectedEnd)
        }
    }

    /// Reads a big-endian 16-bit unsigned value.
    pub fn next_u16(&mut self) -> (r: Result<u16, NbtError>)
        requires
            old(self).wf(),
        ensures
            final(self).wf(),
            final(self).spec_data() == old(self).spec_data(),
            old(self).remaining() >= 2 ==> r == Ok::<u16, NbtError>(
                be_u16(
                    old(self).spec_data()[old(self).spec_pos()],
                    old(self).spec_data()[old(self).spec_pos() + 1],
                ),
            ) && final(self).spec_pos() == old(self).spec_pos() + 2,
            old(self).remaining() < 2 ==> r == Err::<u16, NbtError>(NbtError::UnexpectedEnd)
                && final(self).spec_pos() == old(self).spec_pos(),
    {
        if self.buf.len() - self.pos >= 2 {
            let b0 = self.buf[self.pos];
            let b1 = self.buf[self.pos + 1];
            self.pos = self.pos + 2;
            Ok((b0 as u16) * 0x100 + (b1 as u16))
        } else {
            Err(NbtError::UnexpectedEnd)
        }
    }

    /// Reads a big-endian 32-bit unsigned value.
    pub fn next_u32(&mut self) -> (r: Result<u32, NbtError>)
        requires
            old(self).wf(),
        ensures
            final(self).wf(),
            final(self).spec_data() == old(self).spec_data(),
            old(self).remaining() >= 4 ==> r == Ok::<u32, NbtError>(
                be_u32(
                    old(self).spec_data()[old(self).spec_pos()],
                    old(self).spec_data()[old(self).spec_pos() + 1],
                    old(self).spec_data()[old(self).spec_pos() + 2],
                    old(self).spec_data()[old(self).spec_pos() + 3],
                ),
            ) && final(self).spec_pos() == old(self).spec_pos() + 4,
            old(self).remaining() < 4 ==> r == Err::<u32, NbtError>(NbtError::UnexpectedEnd)
                && final(self).spec_pos() == old(self).spec_pos(),
    {
        if self.buf.len() - self.pos >= 4 {
            let b0 = self.buf[self.pos];
            let b1 = self.buf[self.pos + 1];
            let b2 = self.buf[self.pos + 2];
            let b3 = self.buf[self.pos + 3];
            self.pos = self.pos + 4;
            Ok((b0 as u32) * 0x100_0000 + (b1 as u32) * 0x1_0000 + (b2 as u32) * 0x100 + (
            b3 as u32))
        } else {
            Err(NbtError::UnexpectedEnd)
        }
    }

    /// Reads a big-endian 64-bit unsigned value.
    pub fn next_u64(&mut self) -> (r: Result<u64, NbtError>)
        requires
            old(self).wf(),
        ensures
            final(self).wf(),
            final(self).spec_data() == old(self).spec_data(),
            old(self).remaining() >= 8 ==> r == Ok::<u64, NbtError>(
                be_u64(
                    old(self).spec_data()[old(self).spec_pos()],
                    old(self).spec_data()[old(self).spec_pos() + 1],
                    old(self).spec_data()[old(self).spec_pos() + 2],
                    old(self).spec_data()[old(self).spec_pos() + 3],
                    old(self).spec_data()[old(self).spec_pos() + 4],
                    old(self).spec_data()[old(self).spec_pos() + 5],
                    old(self).spec_data()[old(self).spec_pos() + 6],
                    old(self).spec_data()[old(self).spec_pos() + 7],
                ),
            ) && final(self).spec_pos() == old(self).spec_pos() + 8,
            old(self).remaining() < 8 ==> r == Err::<u64, NbtError>(NbtError::UnexpectedEnd)
                && final(self).spec_pos() == old(self).spec_pos(),
    {
        if self.buf.len() - self.pos >= 8 {
            let b0 = self.buf[self.pos];
            let b1 = self.buf[self.pos + 1];
            let b2 = self.buf[self.pos + 2];
            let b3 = self.buf[self.pos + 3];
            let b4 = self.buf[self.pos + 4];
            let b5 = self.buf[self.pos + 5];
            let b6 = self.buf[self.pos + 6];
            let b7 = self.buf[self.pos + 7];
            self.pos = self.pos + 8;
            Ok((b0 as u64) * 0x100_0000_0000_0000 + (b1 as u64) * 0x1_0000_0000_0000 + (
            b2 as u64) * 0x100_0000_0000 + (b3 as u64) * 0x1_0000_0000 + (b4 as u64) * 0x100_0000
                + (b5 as u64) * 0x1_0000 + (b6 as u64) * 0x100 + (b7 as u64))
        } else {
            Err(NbtError::UnexpectedEnd)
        }
    }

    /// Reads one byte as a signed value.
    pub fn next_i8(&mut self) -> (r: Result<i8, NbtError>)
        requires
            old(self).wf(),
        ensures
            final(self).wf(),
            final(self).spec_data() == old(self).spec_data(),
            old(self).remaining() >= 1 ==> r == Ok::<i8, NbtError>(
                old(self).spec_data()[old(self).spec_pos()] as i8,
            ) && final(self).spec_pos() == old(self).spec_pos() + 1,
            old(self).remaining() < 1 ==> r == Err::<i8, NbtError>(NbtError::UnexpectedEnd)
                && final(self).spec_pos() == old(self).spec_pos(),
    {
        match self.next_u8() {
            Ok(v) => Ok(v as i8),
            Err(e) => Err(e),
        }
    }

    /// Reads a big-endian 16-bit signed value.
    pub fn next_i16(&mut self) -> (r: Result<i16, NbtError>)
        requires
            old(self).wf(),
        ensures
            final(self).wf(),
            final(self).spec_data() == old(self).spec_data(),
            old(self).remaining() >= 2 ==> r == Ok::<i16, NbtError>(
                be_u16(
                    old(self).spec_data()[old(self).spec_pos()],
                    old(self).spec_data()[old(self).spec_pos() + 1],
                ) as i16,
            ) && final(self).spec_pos() == old(self).spec_pos() + 2,
            old(self).remaining() < 2 ==> r == Err::<i16, NbtError>(NbtError::UnexpectedEnd)
                && final(self).spec_pos() == old(self).spec_pos(),
    {
        match self.next_u16() {
            Ok(v) => Ok(v as i16),
            Err(e) => Err(e),
        }
    }

    /// Reads a big-endian 32-bit signed value.
    pub fn next_i32(&mut self) -> (r: Result<i32, NbtError>)
        requires
            old(self).wf(),
        ensures
            final(self).wf(),
            final(self).spec_data() == old(self).spec_data(),
            old(self).remaining() >= 4 ==> r == Ok::<i32, NbtError>(
                be_u32(
                    old(self).spec_data()[old(self).spec_pos()],
                    old(self).spec_data()[old(self).spec_pos() + 1],
                    old(self).spec_data()[old(self).spec_pos() + 2],
                    old(self).spec_data()[old(self).spec_pos() + 3],
                ) as i32,
            ) && final(self).spec_pos() == old(self).spec_pos() + 4,
            old(self).remaining() < 4 ==> r == Err::<i32, NbtError>(NbtError::UnexpectedEnd)
                && final(self).spec_pos() == old(self).spec_pos(),
    {
        match self.next_u32() {
            Ok(v) => Ok(v as i32),
            Err(e) => Err(e),
        }
    }

    /// Reads a big-endian 64-bit signed value.
    pub fn next_i64(&mut self) -> (r: Result<i64, NbtError>)
        requires
            old(self).wf(),
        ensures
            final(self).wf(),
            final(self).spec_data() == old(self).spec_data(),
            old(self).remaining() >= 8 ==> r == Ok::<i64, NbtError>(
                be_u64(
                    old(self).spec_data()[old(self).spec_pos()],
                    old(self).spec_data()[old(self).spec_pos() + 1],
                    old(self).spec_data()[old(self).spec_pos() + 2],
                    old(self).spec_data()[old(self).spec_pos() + 3],
                    old(self).spec_data()[old(self).spec_pos() + 4],
                    old(self).spec_data()[old(self).spec_pos() + 5],
                    old(self).spec_data()[old(self).spec_pos() + 6],
                    old(self).spec_data()[old(self).spec_pos() + 7],
                ) as i64,
            ) && final(self).spec_pos() == old(self).spec_pos() + 8,
            old(self).remaining() < 8 ==> r == Err::<i64, NbtError>(NbtError::UnexpectedEnd)
                && final(self).spec_pos() == old(self).spec_pos(),
    {
        match self.next_u64() {
            Ok(v) => Ok(v as i64),
            Err(e) => Err(e),
        }
    }

    /// Reads `n` raw bytes.
    pub fn next_n_vec(&mut self, n: usize) -> (r: Result<Vec<u8>, NbtError>)
        requires
            old(self).wf(),
        ensures
            final(self).wf(),
            final(self).spec_data() == old(self).spec_data(),
            old(self).remaining() >= n ==> (r matches Ok(v) && v@ == old(self).spec_data().subrange(
                old(self).spec_pos(),
                old(self).spec_pos() + n,
            ) && final(self).spec_pos() == old(self).spec_pos() + n),
            old(self).remaining() < n ==> r == Err::<Vec<u8>, NbtError>(NbtError::UnexpectedEnd)
                && final(self).spec_pos() == old(self).spec_pos(),
    {
        if self.buf.len() - self.pos >= n {
            let ghost data = self.spec_data();
            let ghost p0 = self.spec_pos();
            let mut v: Vec<u8> = Vec::new();
            let mut k: usize = 0;
            while k < n
                invariant
                    self.wf(),
                    self.spec_data() == data,
                    self.spec_pos() == p0,
                    k <= n,
                    p0 + n <= data.len(),
                    p0 + n <= usize::MAX,
                    v@ == data.subrange(p0, p0 + k),
                decreases n - k,
            {
                v.push(self.buf[self.pos + k]);
                k = k + 1;
                proof {
                    assert(v@ =~= data.subrange(p0, p0 + k));
                }
            }
            self.pos = self.pos + n;
            Ok(v)
        } else {
            Err(NbtError::UnexpectedEnd)
        }
    }

    /// Reads `n` bytes as signed values.
    pub fn next_n_i8_vec(&mut self, n: usize) -> (r: Result<Vec<i8>, NbtError>)
        requires
            old(self).wf(),
        ensures
            final(self).wf(),
            final(self).spec_data() == old(self).spec_data(),
            old(self).remaining() >= n ==> (r matches Ok(v) && v@.len() == n && (forall|j: int|
                0 <= j < n ==> #[trigger] v@[j] == old(self).spec_data()[old(self).spec_pos()
                    + j] as i8) && final(self).spec_pos() == old(self).spec_pos() + n),
            old(self).remaining() < n ==> r == Err::<Vec<i8>, NbtError>(NbtError::UnexpectedEnd)
                && final(self).spec_pos() == old(self).spec_pos(),
    {
        let bytes = match self.next_n_vec(n) {
            Ok(v) => v,
            Err(e) => {
                return Err(e);
            },
        };
        let ghost data = old(self).spec_data();
        let ghost p0 = old(self).spec_pos();
        let mut v: Vec<i8> = Vec::new();
        let mut k: usize = 0;
        while k < n
            invariant
                k <= n,
                n == bytes@.len(),
                0 <= p0 && p0 + n <= data.len(),
                bytes@ == data.subrange(p0, p0 + n),
                v@.len() == k,
                forall|j: int| 0 <= j < k ==> #[trigger] v@[j] == data[p0 + j] as i8,
            decreases n - k,
        {
            proof {
                assert(data.subrange(p0, p0 + n)[k as int] == data[p0 + k]);
            }
            v.push(bytes[k] as i8);
            k = k + 1;
        }
        Ok(v)
    }

    /// Reads `n` big-endian 32-bit signed values.
    pub fn next_n_i32_vec(&mut self, n: usize) -> (r: Result<Vec<i32>, NbtError>)
        requires
            old(self).wf(),
        ensures
            final(self).wf(),
            final(self).spec_data() == old(self).spec_data(),
            old(self).remaining() >= 4 * n ==> (r matches Ok(v) && v@.len() == n && enc_i32s(
                v@,
                0,
            ) == old(self).spec_data().subrange(
                old(self).spec_pos(),
                old(self).spec_pos() + 4 * n,
            ) && final(self).spec_pos() == old(self).spec_pos() + 4 * n),
            old(self).remaining() < 4 * n ==> r == Err::<Vec<i32>, NbtError>(
                NbtError::UnexpectedEnd,
            ) && final(self).spec_pos() == old(self).spec_pos(),
    {
        let rem = self.buf.len() - self.pos;
        if n <= rem / 4 {
            proof {
                assert(4 * n <= rem) by (nonlinear_arith)
                    requires
                        n <= rem / 4,
                        rem >= 0,
                ;
            }
            let ghost data = self.spec_data();
            let ghost p0 = self.spec_pos();
            let mut v: Vec<i32> = Vec::new();
            let mut k: usize = 0;
            while k < n
                invariant
                    self.wf(),
                    self.spec_data() == data,
                    self.spec_pos() == p0 + 4 * k,
                    k <= n,
                    0 <= p0,
                    p0 + 4 * n <= data.len(),
                    v@.len() == k,
                    enc_i32s(v@, 0) == data.subrange(p0, p0 + 4 * k),
                decreases n - k,
            {
                let ghost q = self.spec_pos();
                let x = match self.next_i32() {
                    Ok(x) => x,
                    Err(_) => {
                        proof {
                            assert(false);
                        }
                        return Err(NbtError::UnexpectedEnd);
                    },
                };
                proof {
                    let w = be_u32(data[q], data[q + 1], data[q + 2], data[q + 3]);
                    lemma_cast_u32_i32(w);
                    lemma_enc_be_u32(data[q], data[q + 1], data[q + 2], data[q + 3]);
                    lemma_enc_i32s_push(v@, x);
                    assert(crate::model::enc_u32(x as u32) == seq![
                        data[q],
                        data[q + 1],
                        data[q + 2],
                        data[q + 3],
                    ]);
                    assert(seq![data[q], data[q + 1], data[q + 2], data[q + 3]] =~= data.subrange(
                        q,
                        q + 4,
                    ));
                    crate::model::lemma_subrange_split(data, p0, q, q + 4);
                }
                v.push(x);
                k = k + 1;
            }
            Ok(v)
        } else {
            proof {
                if old(self).remaining() >= 4 * n {
                    assert(n <= rem / 4) by (nonlinear_arith)
                        requires
                            4 * n <= rem,
                            rem >= 0,
                    ;
                    assert(false);
                }
            }
            Err(NbtError::UnexpectedEnd)
        }
    }

    /// Reads `n` big-endian 64-bit signed values.
    #[verifier::rlimit(80)]
    pub fn next_n_i64_vec(&mut self, n: usize) -> (r: Result<Vec<i64>, NbtError>)
        requires
            old(self).wf(),
        ensures
            final(self).wf(),
            final(self).spec_data() == old(self).spec_data(),
            old(self).remaining() >= 8 * n ==> (r matches Ok(v) && v@.len() == n && enc_i64s(
                v@,
                0,
            ) == old(self).spec_data().subrange(
                old(self).spec_pos(),
                old(self).spec_pos() + 8 * n,
            ) && final(self).spec_pos() == old(self).spec_pos() + 8 * n),
            old(self).remaining() < 8 * n ==> r == Err::<Vec<i64>, NbtError>(
                NbtError::UnexpectedEnd,
            ) && final(self).spec_pos() == old(self).spec_pos(),
    {
        let rem = self.buf.len() - self.pos;
        if n <= rem / 8 {
            proof {
                assert(8 * n <= rem) by (nonlinear_arith)
                    requires
                        n <= rem / 8,
                        rem >= 0,
                ;
            }
            let ghost data = self.spec_data();
            let ghost p0 = self.spec_pos();
            let mut v: Vec<i64> = Vec::new();
            let mut k: usize = 0;
            while k < n
                invariant
                    self.wf(),
                    self.spec_data() == data,
                    self.spec_pos() == p0 + 8 * k,
                    k <= n,
                    0 <= p0,
                    p0 + 8 * n <= data.len(),
                    v@.len() == k,
                    enc_i64s(v@, 0) == data.subrange(p0, p0 + 8 * k),
                decreases n - k,
            {
                let ghost q = self.spec_pos();
                let x = match self.next_i64() {
                    Ok(x) => x,
                    Err(_) => {
                        proof {
                            assert(false);
                        }
                        return Err(NbtError::UnexpectedEnd);
                    },
                };
                proof {
                    let w = be_u64(
                        data[q],
                        data[q + 1],
                        data[q + 2],
                        data[q + 3],
                        data[q + 4],
                        data[q + 5],
                        data[q + 6],
                        data[q + 7],
                    );
                    lemma_cast_u64_i64(w);
                    lemma_enc_be_u64(
                        data[q],
                        data[q + 1],
                        data[q + 2],
                        data[q + 3],
                        data[q + 4],
                        data[q + 5],
                        data[q + 6],
                        data[q + 7],
                    );
                    lemma_enc_i64s_push(v@, x);
                    assert(crate::model::enc_u64(x as u64) == seq![
                        data[q],
                        data[q + 1],
                        data[q + 2],
                        data[q + 3],
                        data[q + 4],
                        data[q + 5],
                        data[q + 6],
                        data[q + 7],
                    ]);
                    assert(seq![
                        data[q],
                        data[q + 1],
                        data[q + 2],
                        data[q + 3],
                        data[q + 4],
                        data[q + 5],
                        data[q + 6],
                        data[q + 7],
                    ] =~= data.subrange(q, q + 8));
                    crate::model::lemma_subrange_split(data, p0, q, q + 8);
                }
                v.push(x);
                k = k + 1;
            }
            Ok(v)
        } else {
            proof {
                if old(self).remaining() >= 8 * n {
                    assert(n <= rem / 8) by (nonlinear_arith)
                        requires
                            8 * n <= rem,
                            rem >= 0,
                    ;
                    assert(false);
                }
            }
            Err(NbtError::UnexpectedEnd)
        }
    }

    /// Reads `n` bytes that must be valid UTF-8.
    pub fn next_string(&mut self, n: usize) -> (r: Result<Vec<u8>, NbtError>)
        requires
            old(self).wf(),
        ensures
            final(self).wf(),
            final(self).spec_data() == old(self).spec_data(),
            old(self).remaining() >= n && is_utf8(
                old(self).spec_data().subrange(old(self).spec_pos(), old(self).spec_pos() + n),
            ) ==> (r matches Ok(v) && v@ == old(self).spec_data().subrange(
                old(self).spec_pos(),
                old(self).spec_pos() + n,
            ) && is_utf8(v@) && final(self).spec_pos() == old(self).spec_pos() + n),
            old(self).remaining() >= n && !is_utf8(
                old(self).spec_data().subrange(old(self).spec_pos(), old(self).spec_pos() + n),
            ) ==> r == Err::<Vec<u8>, NbtError>(NbtError::InvalidEncoding),
            old(self).remaining() < n ==> r == Err::<Vec<u8>, NbtError>(NbtError::UnexpectedEnd)
                && final(self).spec_pos() == old(self).spec_pos(),
    {
        let bytes = match self.next_n_vec(n) {
            Ok(v) => v,
            Err(e) => {
                return Err(e);
            },
        };
        if utf8_check(&bytes) {
            Ok(bytes)
        } else {
            Err(NbtError::InvalidEncoding)
        }
    }
}

} // verus!
