use vstd::prelude::*;
use vstd::arithmetic::div_mod::{lemma_add_mod_noop, lemma_mul_mod_noop_left, lemma_mul_mod_noop_right};
use vstd::arithmetic::power2::{pow2, lemma_pow2_adds, lemma2_to64};
use crate::error::DecodeError;

verus! {

/// Tag of a byte that ends a field but not the packet.
pub const MSEO_EOF: u8 = 1;

/// Tag of the last byte of a packet.
pub const MSEO_LAST: u8 = 3;

/// The two-bit framing tag of a trace byte (bits 1-0).
pub open spec fn mseo(b: u8) -> u8 {
    b % 4
}

/// The six payload bits of a trace byte (bits 7-2).
pub open spec fn mdo(b: u8) -> nat {
    (b / 4) as nat
}

/// 2^64, the modulus of a 64-bit field.
pub open spec fn modulus64() -> nat {
    0x1_0000_0000_0000_0000
}

/// Index of the first byte at or after `i` whose tag is `tag`, or `s.len()`
/// where no byte from `i` on has it.
pub open spec fn run_end(s: Seq<u8>, i: int, tag: u8) -> int
    decreases s.len() - i,
{
    if i < 0 || i >= s.len() {
        s.len() as int
    } else if mseo(s[i]) == tag {
        i
    } else {
        run_end(s, i + 1, tag)
    }
}

/// A field run ends no earlier than where it starts.
pub proof fn lemma_run_end_bounds(s: Seq<u8>, i: int, tag: u8)
    requires
        0 <= i,
    ensures
        i <= run_end(s, i, tag) || i > s.len(),
        run_end(s, i, tag) <= s.len(),
    decreases s.len() - i,
{
    if i < s.len() && mseo(s[i]) != tag {
        lemma_run_end_bounds(s, i + 1, tag);
    }
}

/// Cutting a stream at `k` leaves a run end that lies before `k` where it is,
/// and turns any later one into "not found".
pub proof fn lemma_run_end_take(s: Seq<u8>, i: int, tag: u8, k: int)
    requires
        0 <= i,
        0 <= k <= s.len(),
    ensures
        run_end(s.take(k), i, tag) == if run_end(s, i, tag) < k {
            run_end(s, i, tag)
        } else {
            k
        },
    decreases s.len() - i,
{
    lemma_run_end_bounds(s, i, tag);
    if i < k && mseo(s[i]) != tag {
        lemma_run_end_take(s, i + 1, tag, k);
    }
}

/// Six-bit groups of `s`, little-endian, the first of them at bit `base`.
pub open spec fn groups_value(s: Seq<u8>, base: nat) -> nat
    decreases s.len(),
{
    if s.len() == 0 {
        0
    } else {
        groups_value(s.drop_last(), base) + mdo(s.last()) * pow2(base + 6 * (s.len() - 1) as nat)
    }
}

/// The number that a field run encodes when the top `head_bits` bits of its
/// first byte are the low bits of the number and each later byte adds a
/// six-bit group above them.
pub open spec fn field_value(s: Seq<u8>, head_bits: nat) -> nat {
    s[0] as nat / pow2((8 - head_bits) as nat) + groups_value(s.drop_first(), head_bits)
}

/// A field run whose first byte is a full six-bit group.
pub open spec fn plain_value(s: Seq<u8>) -> nat {
    field_value(s, 6)
}

/// A wrapping addition is the sum kept to 64 bits.
pub proof fn lemma_wrapping_add(a: u64, b: u64)
    ensures
        a.wrapping_add(b) as int == (a + b) % (modulus64() as int),
{
}

/// Packs a field run: the value of `field_value`, kept to its low 64 bits.
pub fn pack_field(data: &Vec<u8>, head_bits: u64) -> (r: u64)
    requires
        data@.len() >= 1,
        head_bits == 2 || head_bits == 4 || head_bits == 6,
    ensures
        r as nat == field_value(data@, head_bits as nat) % modulus64(),
{
    let ghost s = data@;
    let ghost h = head_bits as nat;
    let n = data.len();
    let b0 = data[0];
    proof {
        lemma2_to64();
    }
    let (head, mut p): (u64, u64) = if head_bits == 2 {
        ((b0 / 64) as u64, 4)
    } else if head_bits == 4 {
        ((b0 / 16) as u64, 16)
    } else {
        ((b0 / 4) as u64, 64)
    };
    let mut acc: u64 = head;
    let mut i: usize = 1;
    proof {
        assert(s.subrange(1, 1).len() == 0);
        assert(groups_value(s.subrange(1, 1), h) == 0);
    }
    while i < n
        invariant
            1 <= i <= n,
            n == s.len(),
            s == data@,
            h == head_bits as nat,
            head as nat == s[0] as nat / pow2((8 - h) as nat),
            acc as nat == (head as nat + groups_value(s.subrange(1, i as int), h)) % modulus64(),
            p as nat == pow2(h + 6 * (i - 1) as nat) % modulus64(),
        decreases n - i,
    {
        let g: u64 = (data[i] / 4) as u64;
        let ghost e = h + 6 * (i - 1) as nat;
        let ghost x = head as nat + groups_value(s.subrange(1, i as int), h);
        proof {
            let t = s.subrange(1, i + 1);
            assert(t.drop_last() =~= s.subrange(1, i as int));
            assert(t.last() == s[i as int]);
            assert(groups_value(t, h) == groups_value(s.subrange(1, i as int), h) + mdo(s[i as int])
                * pow2(e));
            lemma_mul_mod_noop_right(g as int, pow2(e) as int, modulus64() as int);
            lemma_add_mod_noop(x as int, g * pow2(e), modulus64() as int);
            lemma2_to64();
            lemma_pow2_adds(e, 6);
            assert(h + 6 * ((i + 1) - 1) as nat == e + 6);
            lemma_mul_mod_noop_left(pow2(e) as int, 64, modulus64() as int);
            lemma_wrapping_add(acc, g.wrapping_mul(p));
        }
        acc = acc.wrapping_add(g.wrapping_mul(p));
        p = p.wrapping_mul(64);
        i = i + 1;
    }
    proof {
        assert(s.subrange(1, n as int) =~= s.drop_first());
    }
    acc
}

} // verus!

verus! {

/// A trace byte stream and the position of the next byte to read.
pub struct TraceStream {
    pub data: Vec<u8>,
    pub pos: usize,
}

impl TraceStream {
    /// The position lies within the stream (at its end at most).
    pub open spec fn wf(&self) -> bool {
        self.pos <= self.data@.len()
    }

    /// A stream positioned at the first byte of `data`.
    pub fn new(data: Vec<u8>) -> (r: TraceStream)
        ensures
            r.data@ == data@,
            r.pos == 0,
            r.wf(),
    {
        TraceStream { data, pos: 0 }
    }

    /// Whether every byte has been read.
    pub fn at_end(&self) -> (r: bool)
        requires
            self.wf(),
        ensures
            r == (self.pos == self.data@.len()),
    {
        self.pos == self.data.len()
    }

    /// Reads the next byte.
    pub fn read_u8(&mut self) -> (r: Result<u8, DecodeError>)
        requires
            old(self).wf(),
        ensures
            final(self).wf(),
            final(self).data@ == old(self).data@,
            old(self).pos < old(self).data@.len() ==> r == Ok::<u8, DecodeError>(
                old(self).data@[old(self).pos as int],
            ) && final(self).pos == old(self).pos + 1,
            old(self).pos == old(self).data@.len() ==> r == Err::<u8, DecodeError>(
                DecodeError::UnexpectedEof,
            ) && final(self).pos == old(self).pos,
    {
        if self.pos < self.data.len() {
            let b = self.data[self.pos];
            self.pos = self.pos + 1;
            Ok(b)
        } else {
            Err(DecodeError::UnexpectedEof)
        }
    }

    /// Reads the bytes up to and including the first whose tag is `tag`.
    /// Fails with `UnexpectedEof` where no byte left in the stream has it.
    pub fn read_until(&mut self, tag: u8) -> (r: Result<Vec<u8>, DecodeError>)
        requires
            old(self).wf(),
        ensures
            final(self).wf(),
            final(self).data@ == old(self).data@,
            r.is_ok() ==> r.unwrap()@.len() >= 1,
            ({
                let s = old(self).data@;
                let e = run_end(s, old(self).pos as int, tag);
                &&& e < s.len() ==> r.is_ok() && r.unwrap()@ == s.subrange(old(self).pos as int, e + 1)
                    && final(self).pos == e + 1
                &&& e >= s.len() ==> r == Err::<Vec<u8>, DecodeError>(DecodeError::UnexpectedEof)
                    && final(self).pos == s.len()
            }),
    {
        let ghost s = self.data@;
        let ghost start = self.pos as int;
        let mut result: Vec<u8> = Vec::new();
        loop
            invariant
                self.wf(),
                self.data@ == s,
                s == old(self).data@,
                start == old(self).pos,
                start <= self.pos,
                run_end(s, start, tag) == run_end(s, self.pos as int, tag),
                result@ == s.subrange(start, self.pos as int),
            decreases s.len() - self.pos,
        {
            let b = self.read_u8();
            match b {
                Err(e) => {
                    return Err(e);
                },
                Ok(byte) => {
                    result.push(byte);
                    proof {
                        assert(result@ =~= s.subrange(start, self.pos as int));
                    }
                    if byte % 4 == tag {
                        return Ok(result);
                    }
                },
            }
        }
    }

    /// Reads a field run that ends the packet.
    pub fn read_till_last(&mut self) -> (r: Result<Vec<u8>, DecodeError>)
        requires
            old(self).wf(),
        ensures
            final(self).wf(),
            final(self).data@ == old(self).data@,
            r.is_ok() ==> r.unwrap()@.len() >= 1,
            ({
                let s = old(self).data@;
                let e = run_end(s, old(self).pos as int, MSEO_LAST);
                &&& e < s.len() ==> r.is_ok() && r.unwrap()@ == s.subrange(old(self).pos as int, e + 1)
                    && final(self).pos == e + 1
                &&& e >= s.len() ==> r == Err::<Vec<u8>, DecodeError>(DecodeError::UnexpectedEof)
                    && final(self).pos == s.len()
            }),
    {
        self.read_until(MSEO_LAST)
    }

    /// Reads a field run that another field follows.
    pub fn read_till_eof(&mut self) -> (r: Result<Vec<u8>, DecodeError>)
        requires
            old(self).wf(),
        ensures
            final(self).wf(),
            final(self).data@ == old(self).data@,
            r.is_ok() ==> r.unwrap()@.len() >= 1,
            ({
                let s = old(self).data@;
                let e = run_end(s, old(self).pos as int, MSEO_EOF);
                &&& e < s.len() ==> r.is_ok() && r.unwrap()@ == s.subrange(old(self).pos as int, e + 1)
                    && final(self).pos == e + 1
                &&& e >= s.len() ==> r == Err::<Vec<u8>, DecodeError>(DecodeError::UnexpectedEof)
                    && final(self).pos == s.len()
            }),
    {
        self.read_until(MSEO_EOF)
    }
}

/// The low 16 bits of a 64-bit value.
pub proof fn lemma_u16_cast(v: u64)
    ensures
        (v as u16) as int == v % 0x10000,
{
    assert(v as u16 == v & 0xffff) by (bit_vector);
    assert(v & 0xffff == v % 0x10000) by (bit_vector);
}

} // verus!
