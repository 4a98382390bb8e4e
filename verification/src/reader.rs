//! In-memory byte stream with a read cursor.
//!
//! All decoding works over a fully loaded byte buffer: `ByteReader` pairs the
//! buffer with a position, and every primitive read advances the position
//! past exactly the bytes it consumed.  Each executable read is specified
//! against a spec-level mirror over `Seq<u8>`, so the byte-exact meaning of
//! the wire format lives in spec functions that the rest of the decoder's
//! contracts can build on.

use vstd::prelude::*;

use crate::DecodeError;

verus! {

/// A positioned reader over an in-memory byte buffer.
pub struct ByteReader {
    pub data: Vec<u8>,
    pub pos: usize,
}

/// One byte at `p`, or end-of-stream.
pub open spec fn spec_read_u8(d: Seq<u8>, p: nat) -> Result<(u8, nat), DecodeError> {
    if p < d.len() {
        Ok((d[p as int], (p + 1) as nat))
    } else {
        Err(DecodeError::UnexpectedEndOfStream)
    }
}

/// The big-endian value of the `w` bytes starting at `p` (most significant
/// byte first).
pub open spec fn spec_be_value(d: Seq<u8>, p: nat, w: nat) -> nat
    decreases w,
{
    if w == 0 {
        0
    } else {
        (spec_be_value(d, p, (w - 1) as nat) * 0x100 + d[p + w - 1]) as nat
    }
}

/// A fixed-width big-endian unsigned read: value and new position, or
/// end-of-stream if fewer than `w` bytes remain.
pub open spec fn spec_read_be(d: Seq<u8>, p: nat, w: nat) -> Result<(nat, nat), DecodeError> {
    if p + w <= d.len() {
        Ok((spec_be_value(d, p, w), (p + w) as nat))
    } else {
        Err(DecodeError::UnexpectedEndOfStream)
    }
}

/// The variable-length ("gamma") encoding of an unsigned integer: the number
/// of leading one bits of the first byte selects one of five widths, the
/// remaining bits of the first byte are the most significant payload bits.
pub open spec fn spec_read_gamma(d: Seq<u8>, p: nat) -> Result<(nat, nat), DecodeError> {
    if p >= d.len() {
        Err(DecodeError::UnexpectedEndOfStream)
    } else {
        let b = d[p as int];
        if b & 0x80 == 0 {
            Ok((((b & 0x7f) as nat), (p + 1) as nat))
        } else if b & 0x40 == 0 {
            if p + 2 <= d.len() {
                Ok((((b & 0x3f) as nat) * 0x100 + spec_be_value(d, (p + 1) as nat, 1), (p
                    + 2) as nat))
            } else {
                Err(DecodeError::UnexpectedEndOfStream)
            }
        } else if b & 0x20 == 0 {
            if p + 3 <= d.len() {
                Ok((((b & 0x1f) as nat) * 0x1_0000 + spec_be_value(d, (p + 1) as nat, 2), (p
                    + 3) as nat))
            } else {
                Err(DecodeError::UnexpectedEndOfStream)
            }
        } else if b & 0x10 == 0 {
            if p + 4 <= d.len() {
                Ok((((b & 0x0f) as nat) * 0x100_0000 + spec_be_value(d, (p + 1) as nat, 3), (p
                    + 4) as nat))
            } else {
                Err(DecodeError::UnexpectedEndOfStream)
            }
        } else {
            if p + 5 <= d.len() {
                Ok((((b & 0x0f) as nat) * 0x1_0000_0000 + spec_be_value(d, (p + 1) as nat, 4), (p
                    + 5) as nat))
            } else {
                Err(DecodeError::UnexpectedEndOfStream)
            }
        }
    }
}

/// A length-prefixed byte string: a gamma-coded length, then that many raw
/// bytes.
pub open spec fn spec_read_str(d: Seq<u8>, p: nat) -> Result<(Seq<u8>, nat), DecodeError> {
    match spec_read_gamma(d, p) {
        Err(e) => Err(e),
        Ok((n, q)) => if q + n <= d.len() {
            Ok((d.subrange(q as int, (q + n) as int), (q + n) as nat))
        } else {
            Err(DecodeError::UnexpectedEndOfStream)
        },
    }
}

/// A successful gamma read always consumes at least one byte and stays
/// inside the buffer; its value fits in 36 bits.
pub proof fn lemma_gamma_bounds(d: Seq<u8>, p: nat)
    ensures
        spec_read_gamma(d, p) matches Ok(r) ==> p < r.1 <= d.len(),
{
}

/// A successful string read always consumes at least one byte and stays
/// inside the buffer.
pub proof fn lemma_str_bounds(d: Seq<u8>, p: nat)
    ensures
        spec_read_str(d, p) matches Ok(r) ==> p < r.1 <= d.len(),
{
    lemma_gamma_bounds(d, p);
}

/// 256 to the power `w`; bounds the value of a `w`-byte big-endian read.
pub open spec fn pow256(w: nat) -> nat
    decreases w,
{
    if w == 0 {
        1
    } else {
        0x100 * pow256((w - 1) as nat)
    }
}

pub proof fn lemma_be_value_bound(d: Seq<u8>, p: nat, w: nat)
    ensures
        spec_be_value(d, p, w) < pow256(w),
    decreases w,
{
    if w > 0 {
        lemma_be_value_bound(d, p, (w - 1) as nat);
        let prev = spec_be_value(d, p, (w - 1) as nat);
        assert(prev * 0x100 + 0xff < pow256((w - 1) as nat) * 0x100) by (nonlinear_arith)
            requires
                prev < pow256((w - 1) as nat),
        ;
    }
}

impl ByteReader {
    /// Wraps a fully loaded buffer with the cursor at its start.
    pub fn new(data: Vec<u8>) -> (r: ByteReader)
        ensures
            r.data@ == data@,
            r.pos == 0,
    {
        ByteReader { data, pos: 0 }
    }

    /// Reads one byte.
    pub fn read_u8(&mut self) -> (res: Result<u8, DecodeError>)
        ensures
            final(self).data@ == old(self).data@,
            (match res {
                Ok(b) => spec_read_u8(old(self).data@, old(self).pos as nat) == Ok::<
                    (u8, nat),
                    DecodeError,
                >((b, final(self).pos as nat)),
                Err(e) => spec_read_u8(old(self).data@, old(self).pos as nat) == Err::<
                    (u8, nat),
                    DecodeError,
                >(e),
            }),
    {
        if self.pos < self.data.len() {
            let b = self.data[self.pos];
            self.pos = self.pos + 1;
            Ok(b)
        } else {
            Err(DecodeError::UnexpectedEndOfStream)
        }
    }

    /// Reads a `w`-byte big-endian unsigned value.
    pub fn read_be(&mut self, w: usize) -> (res: Result<u64, DecodeError>)
        requires
            1 <= w <= 8,
        ensures
            final(self).data@ == old(self).data@,
            (match res {
                Ok(v) => spec_read_be(old(self).data@, old(self).pos as nat, w as nat) == Ok::<
                    (nat, nat),
                    DecodeError,
                >((v as nat, final(self).pos as nat)),
                Err(e) => spec_read_be(old(self).data@, old(self).pos as nat, w as nat) == Err::<
                    (nat, nat),
                    DecodeError,
                >(e),
            }),
    {
        if self.data.len() < w || self.pos > self.data.len() - w {
            return Err(DecodeError::UnexpectedEndOfStream);
        }
        let ghost d = self.data@;
        let ghost p0 = self.pos as nat;
        let dlen = self.data.len();
        let mut acc: u64 = 0;
        let mut i: usize = 0;
        while i < w
            invariant
                i <= w <= 8,
                self.data@ == d,
                dlen == d.len(),
                self.pos == p0 + i,
                p0 + w <= d.len(),
                acc as nat == spec_be_value(d, p0, i as nat),
                acc < pow256(i as nat),
            decreases w - i,
        {
            let b = self.data[self.pos];
            proof {
                assert(pow256(8) == 0x1_0000_0000_0000_0000) by {
                    reveal_with_fuel(pow256, 9);
                }
                assert(acc * 0x100 + b < pow256((i + 1) as nat)) by (nonlinear_arith)
                    requires
                        acc < pow256(i as nat),
                        b < 0x100,
                        pow256((i + 1) as nat) == 0x100 * pow256(i as nat),
                ;
                if i + 1 < 8 {
                    lemma_pow256_monotonic((i + 1) as nat, 8);
                }
            }
            acc = acc * 0x100 + b as u64;
            self.pos = self.pos + 1;
            i = i + 1;
        }
        Ok(acc)
    }

    /// Reads a gamma-coded unsigned integer.
    pub fn read_gamma(&mut self) -> (res: Result<u64, DecodeError>)
        ensures
            final(self).data@ == old(self).data@,
            (match res {
                Ok(v) => spec_read_gamma(old(self).data@, old(self).pos as nat) == Ok::<
                    (nat, nat),
                    DecodeError,
                >((v as nat, final(self).pos as nat)),
                Err(e) => spec_read_gamma(old(self).data@, old(self).pos as nat) == Err::<
                    (nat, nat),
                    DecodeError,
                >(e),
            }),
    {
        let ghost d = self.data@;
        let ghost p0 = self.pos as nat;
        let b = match self.read_u8() {
            Ok(b) => b,
            Err(e) => { return Err(e) },
        };
        proof {
            assert(b & 0x7f < 0x80 && b & 0x3f < 0x40 && b & 0x1f < 0x20 && b & 0x0f < 0x10)
                by (bit_vector);
            lemma_be_value_bound(d, (p0 + 1) as nat, 1);
            lemma_be_value_bound(d, (p0 + 1) as nat, 2);
            lemma_be_value_bound(d, (p0 + 1) as nat, 3);
            lemma_be_value_bound(d, (p0 + 1) as nat, 4);
            reveal_with_fuel(pow256, 5);
        }
        if b & 0x80 == 0 {
            Ok((b & 0x7f) as u64)
        } else if b & 0x40 == 0 {
            let t = match self.read_be(1) {
                Ok(t) => t,
                Err(e) => { return Err(e) },
            };
            Ok(((b & 0x3f) as u64) * 0x100 + t)
        } else if b & 0x20 == 0 {
            let t = match self.read_be(2) {
                Ok(t) => t,
                Err(e) => { return Err(e) },
            };
            Ok(((b & 0x1f) as u64) * 0x1_0000 + t)
        } else if b & 0x10 == 0 {
            let t = match self.read_be(3) {
                Ok(t) => t,
                Err(e) => { return Err(e) },
            };
            Ok(((b & 0x0f) as u64) * 0x100_0000 + t)
        } else {
            let t = match self.read_be(4) {
                Ok(t) => t,
                Err(e) => { return Err(e) },
            };
            Ok(((b & 0x0f) as u64) * 0x1_0000_0000 + t)
        }
    }

    /// Reads a length-prefixed byte string.
    pub fn read_str(&mut self) -> (res: Result<Vec<u8>, DecodeError>)
        ensures
            final(self).data@ == old(self).data@,
            (match res {
                Ok(s) => spec_read_str(old(self).data@, old(self).pos as nat) == Ok::<
                    (Seq<u8>, nat),
                    DecodeError,
                >((s@, final(self).pos as nat)),
                Err(e) => spec_read_str(old(self).data@, old(self).pos as nat) == Err::<
                    (Seq<u8>, nat),
                    DecodeError,
                >(e),
            }),
    {
        let ghost d = self.data@;
        let ghost p0 = self.pos as nat;
        let n = match self.read_gamma() {
            Ok(v) => v,
            Err(e) => { return Err(e) },
        };
        proof {
            lemma_gamma_bounds(d, p0);
        }
        if n > (self.data.len() - self.pos) as u64 {
            return Err(DecodeError::UnexpectedEndOfStream);
        }
        let len = n as usize;
        let ghost q = self.pos as nat;
        let dlen = self.data.len();
        let mut out: Vec<u8> = Vec::new();
        let mut i: usize = 0;
        while i < len
            invariant
                i <= len,
                self.data@ == d,
                dlen == d.len(),
                self.pos == q + i,
                q + len <= d.len(),
                out@ == d.subrange(q as int, (q + i) as int),
            decreases len - i,
        {
            let b = self.data[self.pos];
            out.push(b);
            self.pos = self.pos + 1;
            i = i + 1;
            proof {
                assert(out@ =~= d.subrange(q as int, (q + i) as int));
            }
        }
        Ok(out)
    }
}

proof fn lemma_pow256_monotonic(a: nat, b: nat)
    ensures
        a <= b ==> pow256(a) <= pow256(b),
    decreases b,
{
    if a < b {
        lemma_pow256_monotonic(a, (b - 1) as nat);
        lemma_pow256_pos((b - 1) as nat);
        let prev = pow256((b - 1) as nat);
        assert(prev <= 0x100 * prev) by (nonlinear_arith)
            requires
                prev >= 1,
        ;
    }
}

proof fn lemma_pow256_pos(w: nat)
    ensures
        pow256(w) >= 1,
    decreases w,
{
    if w > 0 {
        lemma_pow256_pos((w - 1) as nat);
    }
}

} // verus!
