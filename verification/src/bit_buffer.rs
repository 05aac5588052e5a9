//! A reader of bit fields that are packed most significant bit first.

use crate::decimal::Decimal;
use crate::error::{BufrError, ErrorKind};
use vstd::arithmetic::div_mod::lemma_div_denominator;
use vstd::arithmetic::power2::{
    lemma2_to64, lemma2_to64_rest, lemma_pow2_adds, lemma_pow2_pos, lemma_pow2_unfold, pow2,
};
use vstd::bits::{lemma_u64_pow2_no_overflow, lemma_u64_shl_is_mul};
use vstd::prelude::*;
use vstd::utf8::{
    decode_utf8, encode_utf8, encode_utf8_decode_utf8, encode_utf8_valid_utf8, valid_utf8,
};

verus! {

/// The widest field that can be read as a number.
pub const MAX_FIELD_BITS: usize = 64;

/// Bit `i` of `bytes`, counted from the most significant bit of the first
/// byte: 0 or 1.
pub open spec fn bit_at(bytes: Seq<u8>, i: int) -> nat {
    ((bytes[i / 8] >> ((7 - i % 8) as u8)) & 1u8) as nat
}

/// The number that the `n` bits from bit `pos` on spell, the first of them
/// being the most significant.
pub open spec fn bits_value(bytes: Seq<u8>, pos: int, n: nat) -> nat
    decreases n,
{
    if n == 0 {
        0
    } else {
        2 * bits_value(bytes, pos, (n - 1) as nat) + bit_at(bytes, pos + n - 1)
    }
}

/// The `n` bits of `b` above its lowest `shift` bits, as a number.
pub open spec fn byte_field(b: u8, shift: u8, n: u8) -> u8 {
    (b >> shift) & (0xFFu8 >> ((8 - n) as u8))
}

/// A field of one bit is that bit.
proof fn lemma_byte_field_one(b: u8, shift: u8)
    by (bit_vector)
    requires
        shift < 8,
    ensures
        byte_field(b, shift, 1) == (b >> shift) & 1u8,
{
}

/// A field is twice the field without its last bit, plus that bit.
proof fn lemma_byte_field_step(b: u8, shift: u8, n: u8)
    by (bit_vector)
    requires
        2 <= n <= 8,
        shift + n <= 8,
    ensures
        byte_field(b, shift, n) == 2 * byte_field(b, (shift + 1) as u8, (n - 1) as u8) + ((b
            >> shift) & 1u8),
{
}

/// A field that lies within one byte is that byte, shifted and masked.
proof fn lemma_field_in_byte(bytes: Seq<u8>, index: int, offset: int, n: nat)
    requires
        0 <= index < bytes.len(),
        0 <= offset,
        1 <= n,
        offset + n <= 8,
    ensures
        bits_value(bytes, 8 * index + offset, n) == byte_field(
            bytes[index],
            (8 - offset - n) as u8,
            n as u8,
        ),
    decreases n,
{
    let pos = 8 * index + offset;
    let b = bytes[index];
    let shift = (8 - offset - n) as u8;
    assert((pos + n - 1) / 8 == index);
    assert((pos + n - 1) % 8 == offset + n - 1);
    assert(bit_at(bytes, pos + n - 1) == ((b >> shift) & 1u8) as nat);
    if n == 1 {
        assert(bits_value(bytes, pos, 0) == 0);
        lemma_byte_field_one(b, shift);
    } else {
        lemma_field_in_byte(bytes, index, offset, (n - 1) as nat);
        lemma_byte_field_step(b, shift, n as u8);
    }
}

/// A field is its first `a` bits, shifted left, plus the `m` bits after them.
pub proof fn lemma_bits_value_split(bytes: Seq<u8>, pos: int, a: nat, m: nat)
    ensures
        bits_value(bytes, pos, a + m) == bits_value(bytes, pos, a) * pow2(m) + bits_value(
            bytes,
            pos + a,
            m,
        ),
    decreases m,
{
    if m == 0 {
        lemma2_to64();
    } else {
        lemma_bits_value_split(bytes, pos, a, (m - 1) as nat);
        lemma_pow2_unfold(m);
        let high = bits_value(bytes, pos, a);
        let rest = bits_value(bytes, pos + a, (m - 1) as nat);
        let p = pow2((m - 1) as nat);
        assert(2 * (high * p + rest) == high * (2 * p) + 2 * rest) by (nonlinear_arith);
    }
}

/// A field of `n` bits is less than `2^n`.
pub proof fn lemma_bits_value_bound(bytes: Seq<u8>, pos: int, n: nat)
    ensures
        bits_value(bytes, pos, n) < pow2(n),
    decreases n,
{
    if n == 0 {
        lemma2_to64();
    } else {
        lemma_bits_value_bound(bytes, pos, (n - 1) as nat);
        lemma_pow2_unfold(n);
        let b = bytes[(pos + n - 1) / 8];
        let s = (7 - (pos + n - 1) % 8) as u8;
        assert(((b >> s) & 1u8) <= 1) by (bit_vector);
    }
}

/// The outcome of reading a field of `bits` bits at bit `pos` of `bytes`,
/// for a reader that takes fields of up to `limit` bits.
pub open spec fn read_raw(bytes: Seq<u8>, pos: nat, bits: nat, limit: nat) -> Result<
    nat,
    BufrError,
> {
    if bits < 1 || bits > limit {
        Err(BufrError::bare(ErrorKind::UnsupportedFeature))
    } else if pos + bits > 8 * bytes.len() {
        Err(BufrError::bare(ErrorKind::BitBufferOverrun))
    } else {
        Ok(bits_value(bytes, pos as int, bits))
    }
}

/// The bytes of a data section and the position of the next bit to read.
pub struct BitBuffer {
    buffer: Vec<u8>,
    bit_position: usize,
    byte_position: usize,
}

impl BitBuffer {
    #[verifier::type_invariant]
    spec fn inv(&self) -> bool {
        &&& self.bit_position < 8
        &&& self.byte_position <= self.buffer.len()
        &&& self.byte_position == self.buffer.len() ==> self.bit_position == 0
    }

    /// The bytes that the buffer reads from.
    pub closed spec fn bytes(&self) -> Seq<u8> {
        self.buffer@
    }

    /// The index of the next bit to read, counted from the most significant
    /// bit of the first byte.
    pub closed spec fn position(&self) -> nat {
        (8 * self.byte_position + self.bit_position) as nat
    }

    /// A buffer over `data`, positioned at its first bit.
    pub fn new(data: Vec<u8>) -> (b: BitBuffer)
        ensures
            b.bytes() == data@,
            b.position() == 0,
    {
        BitBuffer { buffer: data, bit_position: 0, byte_position: 0 }
    }

    /// Where the next bit to read lies: the index of its byte, and its
    /// index within the byte, counted from the most significant bit.
    pub fn cursor(&self) -> (r: (usize, usize))
        ensures
            8 * r.0 + r.1 == self.position(),
            r.1 < 8,
            r.0 <= self.bytes().len(),
    {
        proof {
            use_type_invariant(self);
        }
        (self.byte_position, self.bit_position)
    }

    /// The least number of bytes that hold `n` bits.
    pub fn num_bytes_to_hold_bits(n: usize) -> (r: usize)
        ensures
            r == (n + 7) / 8,
    {
        if n % 8 == 0 {
            n / 8
        } else {
            n / 8 + 1
        }
    }

    /// Whether `bits` more bits can be read.
    fn holds(&self, bits: usize) -> (r: bool)
        requires
            bits <= MAX_FIELD_BITS,
        ensures
            r == (self.position() + bits <= 8 * self.bytes().len()),
            self.position() <= 8 * self.bytes().len(),
    {
        proof {
            use_type_invariant(self);
        }
        BitBuffer::num_bytes_to_hold_bits(self.bit_position + bits) <= self.buffer.len()
            - self.byte_position
    }

    /// Reads a field of 1 to 8 bits. On failure nothing is consumed.
    pub fn read_u8(&mut self, bits: usize) -> (r: Result<u8, BufrError>)
        ensures
            final(self).bytes() == old(self).bytes(),
            match r {
                Ok(v) => {
                    &&& read_raw(old(self).bytes(), old(self).position(), bits as nat, 8) == Ok::<
                        nat,
                        BufrError,
                    >(v as nat)
                    &&& final(self).position() == old(self).position() + bits
                },
                Err(e) => {
                    &&& read_raw(old(self).bytes(), old(self).position(), bits as nat, 8) == Err::<
                        nat,
                        BufrError,
                    >(e)
                    &&& final(self).position() == old(self).position()
                },
            },
    {
        proof {
            use_type_invariant(&*self);
        }
        if bits < 1 || bits > 8 {
            return Err(BufrError::new(ErrorKind::UnsupportedFeature));
        }
        if !self.holds(bits) {
            return Err(BufrError::new(ErrorKind::BitBufferOverrun));
        }
        let ghost start = self.position() as int;
        let index = self.byte_position;
        let offset = self.bit_position;
        let bits_left_in_byte = 8 - offset;
        let byte = self.buffer[index];
        if bits_left_in_byte < bits {
            // The field ends in the next byte: the low bits of this one,
            // then the high bits of the next.
            let num_bits_in_next_byte = bits - bits_left_in_byte;
            let next = self.buffer[index + 1];
            let low_mask: u8 = 0xFFu8 >> (offset as u8);
            let shift = num_bits_in_next_byte as u8;
            let val: u8 = ((byte & low_mask) << shift) | (next >> (8 - shift));
            proof {
                let head = bits_left_in_byte as nat;
                let tail = num_bits_in_next_byte as nat;
                lemma_field_in_byte(self.buffer@, index as int, offset as int, head);
                lemma_field_in_byte(self.buffer@, index + 1, 0, tail);
                lemma_bits_value_split(self.buffer@, start, head, tail);
                lemma_straddle(byte, next, offset as u8, shift);
                lemma_shl_is_pow2(shift);
            }
            self.bit_position = 0;
            self.byte_position = index + 1;
            self.bit_position = num_bits_in_next_byte;
            Ok(val)
        } else {
            // The field lies within this byte.
            let mask: u8 = 0xFFu8 >> ((8 - bits) as u8);
            let shift = (8 - offset - bits) as u8;
            let val: u8 = (byte & (mask << shift)) >> shift;
            proof {
                lemma_field_in_byte(self.buffer@, index as int, offset as int, bits as nat);
                lemma_mask_in_place(byte, shift, bits as u8);
            }
            if offset + bits == 8 {
                self.bit_position = 0;
                self.byte_position = index + 1;
            } else {
                self.bit_position = offset + bits;
            }
            Ok(val)
        }
    }

    /// Reads a field of 1 to 64 bits as a number. On failure nothing is
    /// consumed.
    pub fn read_n_bits(&mut self, n: usize) -> (r: Result<u64, BufrError>)
        ensures
            final(self).bytes() == old(self).bytes(),
            match r {
                Ok(v) => {
                    &&& read_raw(old(self).bytes(), old(self).position(), n as nat, 64) == Ok::<
                        nat,
                        BufrError,
                    >(v as nat)
                    &&& final(self).position() == old(self).position() + n
                },
                Err(e) => {
                    &&& read_raw(old(self).bytes(), old(self).position(), n as nat, 64) == Err::<
                        nat,
                        BufrError,
                    >(e)
                    &&& final(self).position() == old(self).position()
                },
            },
    {
        if n < 1 || n > MAX_FIELD_BITS {
            return Err(BufrError::new(ErrorKind::UnsupportedFeature));
        }
        if !self.holds(n) {
            return Err(BufrError::new(ErrorKind::BitBufferOverrun));
        }
        let ghost bytes = self.bytes();
        let ghost start = self.position();
        // The leading bits that do not fill a byte come first, then whole
        // groups of eight.
        let bits_first_byte: usize = if n % 8 == 0 {
            8
        } else {
            n % 8
        };
        let mut val: u64 = match self.read_u8(bits_first_byte) {
            Ok(v) => v as u64,
            Err(e) => {
                return Err(e);
            },
        };
        let whole_bytes: usize = (n - bits_first_byte) / 8;
        assert(n == bits_first_byte + 8 * whole_bytes);
        let mut k: usize = 0;
        while k < whole_bytes
            invariant
                k <= whole_bytes <= 7,
                1 <= bits_first_byte <= 8,
                n == bits_first_byte + 8 * whole_bytes,
                self.bytes() == bytes,
                self.position() == start + bits_first_byte + 8 * k,
                start + n <= 8 * bytes.len(),
                val == bits_value(bytes, start as int, (bits_first_byte + 8 * k) as nat),
            decreases whole_bytes - k,
        {
            let ghost done = (bits_first_byte + 8 * k) as nat;
            let next: u64 = match self.read_u8(8) {
                Ok(v) => v as u64,
                Err(e) => {
                    return Err(e);
                },
            };
            proof {
                lemma_extend_by_byte(bytes, start as int, done, val, next);
            }
            val = (val << 8) | next;
            k = k + 1;
        }
        Ok(val)
    }

    /// Reads a field of 1 to 64 bits. The result is `None` where every bit
    /// of the field is set. On failure nothing is consumed.
    pub fn read_u64(&mut self, bits: usize) -> (r: Result<Option<u64>, BufrError>)
        ensures
            final(self).bytes() == old(self).bytes(),
            r == spec_read_u64(old(self).bytes(), old(self).position(), bits as nat),
            final(self).position() == old(self).position() + if r is Ok {
                bits as nat
            } else {
                0
            },
    {
        let raw = self.read_n_bits(bits)?;
        proof {
            lemma_bits_value_bound(old(self).bytes(), old(self).position() as int, bits as nat);
            lemma2_to64();
            lemma2_to64_rest();
            if bits < 64 {
                lemma_u64_pow2_no_overflow(bits as nat);
                lemma_u64_shl_is_mul(1, bits as u64);
            }
        }
        let all_ones: u64 = if bits == 64 {
            u64::MAX
        } else {
            (1u64 << (bits as u64)) - 1
        };
        if raw == all_ones {
            Ok(None)
        } else {
            Ok(Some(raw))
        }
    }

    /// Reads a field of 1 to 64 bits as a count. A field whose bits are all
    /// set, or whose value does not fit, is an error.
    pub fn read_usize(&mut self, bits: usize) -> (r: Result<usize, BufrError>)
        ensures
            final(self).bytes() == old(self).bytes(),
            r == spec_read_usize(old(self).bytes(), old(self).position(), bits as nat),
            final(self).position() == old(self).position() + consumed(
                old(self).bytes(),
                old(self).position(),
                bits as nat,
            ),
    {
        match self.read_u64(bits)? {
            Some(val) => {
                if val > usize::MAX as u64 {
                    Err(BufrError::new(ErrorKind::InvalidLayout))
                } else {
                    Ok(val as usize)
                }
            },
            None => Err(BufrError::new(ErrorKind::InvalidLayout)),
        }
    }

    /// Reads a field of 1 to 64 bits and adds `reference_val` to it. The
    /// result is `None` where every bit of the field is set. A sum that does
    /// not fit is an error.
    pub fn read_i64(&mut self, bits: usize, reference_val: i64) -> (r: Result<
        Option<i64>,
        BufrError,
    >)
        ensures
            final(self).bytes() == old(self).bytes(),
            r == spec_read_i64(
                old(self).bytes(),
                old(self).position(),
                bits as nat,
                reference_val,
            ),
            final(self).position() == old(self).position() + consumed(
                old(self).bytes(),
                old(self).position(),
                bits as nat,
            ),
    {
        match self.read_u64(bits)? {
            Some(val) => {
                let sum: i128 = val as i128 + reference_val as i128;
                if sum < i64::MIN as i128 || sum > i64::MAX as i128 {
                    Err(BufrError::new(ErrorKind::InvalidLayout))
                } else {
                    Ok(Some(sum as i64))
                }
            },
            None => Ok(None),
        }
    }

    /// Reads a field of 1 to 64 bits, adds `reference_val` to it and gives
    /// the sum the decimal scale `scale`. The result is `None` where every
    /// bit of the field is set, whatever the scale.
    pub fn read_decimal(&mut self, bits: usize, reference_val: i64, scale: i32) -> (r: Result<
        Option<Decimal>,
        BufrError,
    >)
        ensures
            final(self).bytes() == old(self).bytes(),
            r == spec_read_decimal(
                old(self).bytes(),
                old(self).position(),
                bits as nat,
                reference_val,
                scale,
            ),
            final(self).position() == old(self).position() + consumed(
                old(self).bytes(),
                old(self).position(),
                bits as nat,
            ),
    {
        match self.read_i64(bits, reference_val)? {
            Some(mantissa) => Ok(Some(Decimal::new(mantissa, scale))),
            None => Ok(None),
        }
    }

    /// Reads `bits / 8` octets as text and drops the NUL octets among them.
    /// `bits` is a positive multiple of 8. On failure nothing is consumed.
    pub fn read_text(&mut self, bits: usize) -> (r: Result<String, BufrError>)
        ensures
            final(self).bytes() == old(self).bytes(),
            match spec_read_text(old(self).bytes(), old(self).position(), bits as nat) {
                Ok(text) => {
                    &&& r matches Ok(s) && s@ == text
                    &&& final(self).position() == old(self).position() + bits
                },
                Err(e) => {
                    &&& r matches Err(x) && x == e
                    &&& final(self).position() == old(self).position()
                },
            },
    {
        proof {
            use_type_invariant(&*self);
        }
        if bits == 0 || bits % 8 != 0 {
            return Err(BufrError::new(ErrorKind::UnsupportedFeature));
        }
        let num_chars = bits / 8;
        let bytes_left = self.buffer.len() - self.byte_position;
        if num_chars > bytes_left || (self.bit_position > 0 && num_chars == bytes_left) {
            return Err(BufrError::new(ErrorKind::BitBufferOverrun));
        }
        let saved_byte = self.byte_position;
        let saved_bit = self.bit_position;
        let ghost bytes = self.bytes();
        let ghost start = self.position();
        let mut buf: Vec<u8> = Vec::with_capacity(num_chars);
        let mut i: usize = 0;
        while i < num_chars
            invariant
                i <= num_chars,
                bits == 8 * num_chars,
                self.bytes() == bytes,
                self.position() == start + 8 * i,
                start + bits <= 8 * bytes.len(),
                buf@ == text_octets(bytes, start as int, i as nat).filter(|b: u8| b != 0),
            decreases num_chars - i,
        {
            let c = match self.read_u8(8) {
                Ok(c) => c,
                Err(e) => {
                    return Err(e);
                },
            };
            proof {
                let before = text_octets(bytes, start as int, i as nat);
                let after = text_octets(bytes, start as int, (i + 1) as nat);
                lemma_bits_value_bound(bytes, start + 8 * i, 8);
                lemma2_to64();
                assert(after =~= before.push(c));
                before.lemma_filter_push(c, |b: u8| b != 0);
            }
            if c != 0 {
                buf.push(c);
            }
            i = i + 1;
        }
        let ghost kept = buf@;
        match string_from_utf8(buf) {
            Some(s) => {
                proof {
                    encode_utf8_decode_utf8(s@);
                    encode_utf8_valid_utf8(s@);
                }
                Ok(s)
            },
            None => {
                self.bit_position = 0;
                self.byte_position = saved_byte;
                self.bit_position = saved_bit;
                Err(BufrError::new(ErrorKind::InvalidLayout))
            },
        }
    }
}

/// `String::from_utf8`: the string whose UTF-8 encoding is `bytes`, or
/// `None` where `bytes` is not valid UTF-8.
#[verifier::external_body]
fn string_from_utf8(bytes: Vec<u8>) -> (r: Option<String>)
    ensures
        match r {
            Some(s) => encode_utf8(s@) == bytes@,
            None => !valid_utf8(bytes@),
        },
{
    String::from_utf8(bytes).ok()
}

/// How many bits a numeric read of `bits` bits at `pos` consumes: all of
/// them where the field can be read, none otherwise.
pub open spec fn consumed(bytes: Seq<u8>, pos: nat, bits: nat) -> nat {
    if read_raw(bytes, pos, bits, 64) is Ok {
        bits
    } else {
        0
    }
}

/// The outcome of reading a count of `bits` bits at bit `pos` of `bytes`.
pub open spec fn spec_read_usize(bytes: Seq<u8>, pos: nat, bits: nat) -> Result<usize, BufrError> {
    match spec_read_u64(bytes, pos, bits) {
        Err(e) => Err(e),
        Ok(None) => Err(BufrError::bare(ErrorKind::InvalidLayout)),
        Ok(Some(raw)) => if raw <= usize::MAX {
            Ok(raw as usize)
        } else {
            Err(BufrError::bare(ErrorKind::InvalidLayout))
        },
    }
}

/// The outcome of reading a number of `bits` bits at bit `pos` of `bytes`
/// and adding `reference_val` to it.
pub open spec fn spec_read_i64(bytes: Seq<u8>, pos: nat, bits: nat, reference_val: i64) -> Result<
    Option<i64>,
    BufrError,
> {
    match spec_read_u64(bytes, pos, bits) {
        Err(e) => Err(e),
        Ok(None) => Ok(None),
        Ok(Some(raw)) => if i64::MIN <= raw + reference_val <= i64::MAX {
            Ok(Some((raw + reference_val) as i64))
        } else {
            Err(BufrError::bare(ErrorKind::InvalidLayout))
        },
    }
}

/// The outcome of reading a scaled number of `bits` bits at bit `pos` of
/// `bytes`.
pub open spec fn spec_read_decimal(
    bytes: Seq<u8>,
    pos: nat,
    bits: nat,
    reference_val: i64,
    scale: i32,
) -> Result<Option<Decimal>, BufrError> {
    match spec_read_i64(bytes, pos, bits, reference_val) {
        Err(e) => Err(e),
        Ok(None) => Ok(None),
        Ok(Some(mantissa)) => Ok(Some(Decimal { mantissa, scale })),
    }
}

/// The `count` octets that start at bit `pos` of `bytes`.
pub open spec fn text_octets(bytes: Seq<u8>, pos: int, count: nat) -> Seq<u8> {
    Seq::new(count, |i: int| bits_value(bytes, pos + 8 * i, 8) as u8)
}

/// The outcome of reading a text of `bits` bits at bit `pos` of `bytes`.
pub open spec fn spec_read_text(bytes: Seq<u8>, pos: nat, bits: nat) -> Result<
    Seq<char>,
    BufrError,
> {
    if bits == 0 || bits % 8 != 0 {
        Err(BufrError::bare(ErrorKind::UnsupportedFeature))
    } else if pos + bits > 8 * bytes.len() {
        Err(BufrError::bare(ErrorKind::BitBufferOverrun))
    } else {
        let kept = text_octets(bytes, pos as int, bits / 8).filter(|b: u8| b != 0);
        if valid_utf8(kept) {
            Ok(decode_utf8(kept))
        } else {
            Err(BufrError::bare(ErrorKind::InvalidLayout))
        }
    }
}

/// The outcome of reading a number of `bits` bits at bit `pos` of `bytes`:
/// `None` where every bit of the field is set.
pub open spec fn spec_read_u64(bytes: Seq<u8>, pos: nat, bits: nat) -> Result<
    Option<u64>,
    BufrError,
> {
    match read_raw(bytes, pos, bits, 64) {
        Err(e) => Err(e),
        Ok(raw) => if raw == pow2(bits) - 1 {
            Ok(None)
        } else {
            Ok(Some(raw as u64))
        },
    }
}

/// A field of `done` bits, at most 56, extended by the eight bits after it.
proof fn lemma_extend_by_byte(bytes: Seq<u8>, start: int, done: nat, val: u64, next: u64)
    requires
        done <= 56,
        val == bits_value(bytes, start, done),
        next == bits_value(bytes, start + done, 8),
    ensures
        ((val << 8) | next) == bits_value(bytes, start, done + 8),
        ((val << 8) | next) < pow2(done + 8),
{
    lemma_bits_value_bound(bytes, start, done);
    lemma_bits_value_bound(bytes, start + done, 8);
    lemma_bits_value_bound(bytes, start, done + 8);
    lemma_bits_value_split(bytes, start, done, 8);
    lemma_pow2_adds(done, (56 - done) as nat);
    lemma_pow2_pos((56 - done) as nat);
    let p = pow2(done);
    let q = pow2((56 - done) as nat);
    assert(p <= p * q) by (nonlinear_arith)
        requires
            q >= 1,
            p >= 0,
    ;
    assert(pow2(56) == 0x100_0000_0000_0000) by {
        lemma2_to64_rest();
    }
    assert(pow2(8) == 256) by {
        lemma2_to64();
    }
    lemma_append_byte(val, next);
}

/// Shifting a number of at most 56 bits left by a byte and setting the low
/// byte appends that byte.
proof fn lemma_append_byte(val: u64, next: u64)
    by (bit_vector)
    requires
        val < 0x100_0000_0000_0000,
        next < 0x100,
    ensures
        ((val << 8) | next) == val * 256 + next,
{
}

/// Masking a field where it lies and then shifting it down gives the same
/// as shifting first.
proof fn lemma_mask_in_place(b: u8, shift: u8, n: u8)
    by (bit_vector)
    requires
        1 <= n <= 8,
        shift + n <= 8,
    ensures
        (b & ((0xFFu8 >> ((8 - n) as u8)) << shift)) >> shift == byte_field(b, shift, n),
{
}

/// The low `8 - offset` bits of `first` followed by the high `tail` bits of
/// `second`, where both together are at most 8 bits.
proof fn lemma_straddle(first: u8, second: u8, offset: u8, tail: u8)
    by (bit_vector)
    requires
        1 <= offset < 8,
        1 <= tail,
        (8 - offset) + tail <= 8,
    ensures
        (((first & (0xFFu8 >> offset)) << tail) | (second >> ((8 - tail) as u8))) == byte_field(
            first,
            0,
            (8 - offset) as u8,
        ) * (1u16 << tail) + byte_field(second, (8 - tail) as u8, tail),
{
}

/// A shift of 1 by up to eight bits is a power of two.
proof fn lemma_shl_is_pow2(n: u8)
    requires
        n <= 8,
    ensures
        (1u16 << n) == pow2(n as nat),
{
    lemma2_to64();
    assert(n <= 8 ==> (1u16 << n) == if n == 0 {
        1u16
    } else if n == 1 {
        2u16
    } else if n == 2 {
        4u16
    } else if n == 3 {
        8u16
    } else if n == 4 {
        16u16
    } else if n == 5 {
        32u16
    } else if n == 6 {
        64u16
    } else if n == 7 {
        128u16
    } else {
        256u16
    }) by (bit_vector);
}

/// A field whose bits are all set is the largest number of its width.
pub proof fn lemma_all_set(bytes: Seq<u8>, pos: int, bits: nat)
    requires
        forall|i: int| 0 <= i < bits ==> #[trigger] bit_at(bytes, pos + i) == 1,
    ensures
        bits_value(bytes, pos, bits) == pow2(bits) - 1,
    decreases bits,
{
    if bits == 0 {
        lemma2_to64();
    } else {
        lemma_all_set(bytes, pos, (bits - 1) as nat);
        lemma_pow2_unfold(bits);
        assert(bit_at(bytes, pos + (bits - 1)) == 1);
    }
}

/// Bit `k` of `value`, counted from the least significant: 0 or 1.
pub open spec fn bit_of(value: nat, k: nat) -> nat {
    (value / pow2(k)) % 2
}

/// Whether the `bits` bits from bit `pos` of `bytes` on are those of
/// `value`, the most significant first.
pub open spec fn holds_field(bytes: Seq<u8>, pos: int, bits: nat, value: nat) -> bool {
    forall|i: int|
        0 <= i < bits ==> #[trigger] bit_at(bytes, pos + i) == bit_of(value, (bits - 1 - i) as nat)
}

/// The bits of a number of `bits` bits spell that number.
pub proof fn lemma_field_value(bytes: Seq<u8>, pos: int, bits: nat, value: nat)
    requires
        value < pow2(bits),
        holds_field(bytes, pos, bits, value),
    ensures
        bits_value(bytes, pos, bits) == value,
    decreases bits,
{
    if bits == 0 {
        lemma2_to64();
    } else {
        lemma_pow2_unfold(bits);
        let half = value / 2;
        assert forall|i: int| 0 <= i < bits - 1 implies #[trigger] bit_at(bytes, pos + i) == bit_of(
            half,
            (bits - 2 - i) as nat,
        ) by {
            let k = (bits - 2 - i) as nat;
            assert(bit_at(bytes, pos + i) == bit_of(value, (bits - 1 - i) as nat));
            lemma_pow2_unfold(k + 1);
            lemma_pow2_pos(k);
            lemma_div_denominator(value as int, 2, pow2(k) as int);
        }
        lemma_field_value(bytes, pos, (bits - 1) as nat, half);
        assert(bit_at(bytes, pos + (bits - 1)) == bit_of(value, 0));
        assert(pow2(0) == 1) by {
            lemma2_to64();
        }
    }
}

/// Bit `i` of the bytes that hold `value` in `bits` bits, the most
/// significant first: what is left of the last byte is 0.
pub open spec fn packed_bit(value: nat, bits: nat, i: int) -> u8 {
    if i < bits {
        bit_of(value, (bits - 1 - i) as nat) as u8
    } else {
        0
    }
}

/// The bytes that hold `value` in `bits` bits, the most significant first.
pub open spec fn packed(value: nat, bits: nat) -> Seq<u8> {
    Seq::new(
        ((bits + 7) / 8) as nat,
        |j: int|
            (128 * packed_bit(value, bits, 8 * j) + 64 * packed_bit(value, bits, 8 * j + 1) + 32
                * packed_bit(value, bits, 8 * j + 2) + 16 * packed_bit(value, bits, 8 * j + 3) + 8
                * packed_bit(value, bits, 8 * j + 4) + 4 * packed_bit(value, bits, 8 * j + 5) + 2
                * packed_bit(value, bits, 8 * j + 6) + packed_bit(value, bits, 8 * j + 7)) as u8,
    )
}

/// The bits of a byte that is put together of eight bits are those bits.
proof fn lemma_byte_of_bits(b0: u8, b1: u8, b2: u8, b3: u8, b4: u8, b5: u8, b6: u8, b7: u8)
    by (bit_vector)
    requires
        b0 <= 1,
        b1 <= 1,
        b2 <= 1,
        b3 <= 1,
        b4 <= 1,
        b5 <= 1,
        b6 <= 1,
        b7 <= 1,
    ensures
        128 * b0 + 64 * b1 + 32 * b2 + 16 * b3 + 8 * b4 + 4 * b5 + 2 * b6 + b7 < 256,
        (((128 * b0 + 64 * b1 + 32 * b2 + 16 * b3 + 8 * b4 + 4 * b5 + 2 * b6 + b7) as u8) >> 7u8)
            & 1u8 == b0,
        (((128 * b0 + 64 * b1 + 32 * b2 + 16 * b3 + 8 * b4 + 4 * b5 + 2 * b6 + b7) as u8) >> 6u8)
            & 1u8 == b1,
        (((128 * b0 + 64 * b1 + 32 * b2 + 16 * b3 + 8 * b4 + 4 * b5 + 2 * b6 + b7) as u8) >> 5u8)
            & 1u8 == b2,
        (((128 * b0 + 64 * b1 + 32 * b2 + 16 * b3 + 8 * b4 + 4 * b5 + 2 * b6 + b7) as u8) >> 4u8)
            & 1u8 == b3,
        (((128 * b0 + 64 * b1 + 32 * b2 + 16 * b3 + 8 * b4 + 4 * b5 + 2 * b6 + b7) as u8) >> 3u8)
            & 1u8 == b4,
        (((128 * b0 + 64 * b1 + 32 * b2 + 16 * b3 + 8 * b4 + 4 * b5 + 2 * b6 + b7) as u8) >> 2u8)
            & 1u8 == b5,
        (((128 * b0 + 64 * b1 + 32 * b2 + 16 * b3 + 8 * b4 + 4 * b5 + 2 * b6 + b7) as u8) >> 1u8)
            & 1u8 == b6,
        (((128 * b0 + 64 * b1 + 32 * b2 + 16 * b3 + 8 * b4 + 4 * b5 + 2 * b6 + b7) as u8) >> 0u8)
            & 1u8 == b7,
{
}

/// The bytes that hold a number hold its bits.
pub proof fn lemma_packed_holds(value: nat, bits: nat)
    ensures
        packed(value, bits).len() == (bits + 7) / 8,
        holds_field(packed(value, bits), 0, bits, value),
{
    let bytes = packed(value, bits);
    assert forall|i: int| 0 <= i < bits implies #[trigger] bit_at(bytes, 0 + i) == bit_of(
        value,
        (bits - 1 - i) as nat,
    ) by {
        let j = i / 8;
        lemma_byte_of_bits(
            packed_bit(value, bits, 8 * j),
            packed_bit(value, bits, 8 * j + 1),
            packed_bit(value, bits, 8 * j + 2),
            packed_bit(value, bits, 8 * j + 3),
            packed_bit(value, bits, 8 * j + 4),
            packed_bit(value, bits, 8 * j + 5),
            packed_bit(value, bits, 8 * j + 6),
            packed_bit(value, bits, 8 * j + 7),
        );
        assert(packed_bit(value, bits, i) == bit_of(value, (bits - 1 - i) as nat));
    }
}

/// A number of `bits` bits that is written and then read is read as it was
/// written, but for the largest of its width, which is read as the missing
/// value.
pub proof fn lemma_written_is_read(value: nat, bits: nat)
    requires
        1 <= bits <= 64,
        value < pow2(bits),
    ensures
        spec_read_u64(packed(value, bits), 0, bits) == Ok::<Option<u64>, BufrError>(
            if value == pow2(bits) - 1 {
                None
            } else {
                Some(value as u64)
            },
        ),
{
    lemma_packed_holds(value, bits);
    lemma_field_value(packed(value, bits), 0, bits, value);
}

/// A number that is written in `bits` bits, the most significant first,
/// and is not the largest of that width, is read back as it was written.
pub proof fn lemma_read_back(bytes: Seq<u8>, pos: nat, bits: nat, value: nat)
    requires
        1 <= bits <= 64,
        value < pow2(bits) - 1,
        pos + bits <= 8 * bytes.len(),
        holds_field(bytes, pos as int, bits, value),
    ensures
        spec_read_u64(bytes, pos, bits) == Ok::<Option<u64>, BufrError>(Some(value as u64)),
{
    lemma_field_value(bytes, pos as int, bits, value);
}

/// A field of `bits` bits that are all set is read as the missing value.
pub proof fn lemma_read_all_set(bytes: Seq<u8>, pos: nat, bits: nat)
    requires
        1 <= bits <= 64,
        pos + bits <= 8 * bytes.len(),
        forall|i: int| 0 <= i < bits ==> #[trigger] bit_at(bytes, pos + i) == 1,
    ensures
        spec_read_u64(bytes, pos, bits) == Ok::<Option<u64>, BufrError>(None),
{
    lemma_all_set(bytes, pos as int, bits);
}

/// A field that is not the missing value is read as the field plus the
/// reference value, with the scale beside it where one is asked for; the
/// missing value is read as such, whatever the reference value and the
/// scale.
pub proof fn lemma_reference_and_scale(
    bytes: Seq<u8>,
    pos: nat,
    bits: nat,
    reference_val: i64,
    scale: i32,
)
    ensures
        match spec_read_u64(bytes, pos, bits) {
            Ok(Some(raw)) => if i64::MIN <= raw + reference_val <= i64::MAX {
                &&& spec_read_i64(bytes, pos, bits, reference_val) == Ok::<Option<i64>, BufrError>(
                    Some((raw + reference_val) as i64),
                )
                &&& spec_read_decimal(bytes, pos, bits, reference_val, scale) == Ok::<
                    Option<Decimal>,
                    BufrError,
                >(Some(Decimal { mantissa: (raw + reference_val) as i64, scale }))
            } else {
                &&& spec_read_i64(bytes, pos, bits, reference_val) is Err
                &&& spec_read_decimal(bytes, pos, bits, reference_val, scale) is Err
            },
            Ok(None) => {
                &&& spec_read_i64(bytes, pos, bits, reference_val) == Ok::<Option<i64>, BufrError>(
                    None,
                )
                &&& spec_read_decimal(bytes, pos, bits, reference_val, scale) == Ok::<
                    Option<Decimal>,
                    BufrError,
                >(None)
            },
            Err(e) => {
                &&& spec_read_i64(bytes, pos, bits, reference_val) == Err::<
                    Option<i64>,
                    BufrError,
                >(e)
                &&& spec_read_decimal(bytes, pos, bits, reference_val, scale) == Err::<
                    Option<Decimal>,
                    BufrError,
                >(e)
            },
        },
{
}

} // verus!
