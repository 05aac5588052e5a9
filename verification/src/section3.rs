//! Descriptors and the descriptor list of Section 3.

use crate::error::{BufrError, ErrorKind};
use crate::stream::ByteStream;
use crate::types::{BufrMessageBuilder, MessageView};
use crate::{
    octet_1, octet_2, octet_3, octets_available, read_1_octet_u8, read_2_octet_u16,
    read_3_octet_usize, required,
};
use vstd::prelude::*;
use vstd::string::StrSliceExecFns;

verus! {

/// An F-X-Y descriptor.
#[derive(Clone, Copy, Debug, Hash, PartialEq, Eq)]
pub struct Descriptor {
    pub f: u8,
    pub x: u8,
    pub y: u8,
}

/// The character of the decimal digit `n`, for `n` below ten.
pub open spec fn digit(n: int) -> char {
    ('0' as int + n) as char
}

/// The decimal digits of `n`, padded with zeros on the left to at least
/// `width` characters.
pub open spec fn decimal_text(n: nat, width: nat) -> Seq<char>
    decreases n, width,
{
    if n < 10 && width <= 1 {
        seq![digit(n as int)]
    } else {
        let left = if width == 0 {
            0
        } else {
            (width - 1) as nat
        };
        decimal_text(n / 10, left).push(digit((n % 10) as int))
    }
}

/// The number that the decimal digit `c` stands for, or `None` where `c` is
/// no decimal digit.
pub open spec fn digit_value(c: char) -> Option<int> {
    if '0' <= c && c <= '9' {
        Some(c as int - '0' as int)
    } else {
        None
    }
}

/// The binary word split into its three fields.
pub open spec fn binary_fields(word: u16) -> Descriptor {
    Descriptor { f: (word / 16384) as u8, x: ((word / 256) % 64) as u8, y: (word % 256) as u8 }
}

/// The outcome of decoding the binary word `word`.
pub open spec fn spec_decode_binary(word: u16) -> Result<Descriptor, BufrError> {
    let d = binary_fields(word);
    if d.f == 0 && (d.x < 1 || d.x == 9) {
        Err(BufrError::bare(ErrorKind::TableBClass).spec_at(d))
    } else if d.f == 2 {
        Err(BufrError::bare(ErrorKind::UnsupportedFeature).spec_at(d))
    } else {
        Ok(d)
    }
}

/// The outcome of parsing the text `s` as a descriptor: `s` is six decimal
/// digits `FXXYYY` whose fields are in range.
pub open spec fn spec_from_string_form(s: Seq<char>) -> Result<Descriptor, BufrError> {
    if s.len() == 6 && digit_value(s[0]) is Some && digit_value(s[1]) is Some && digit_value(
        s[2],
    ) is Some && digit_value(s[3]) is Some && digit_value(s[4]) is Some && digit_value(s[5])
        is Some {
        let f = digit_value(s[0])->0;
        let x = 10 * digit_value(s[1])->0 + digit_value(s[2])->0;
        let y = 100 * digit_value(s[3])->0 + 10 * digit_value(s[4])->0 + digit_value(s[5])->0;
        if f <= 3 && x <= 63 && y <= 255 {
            Ok(Descriptor { f: f as u8, x: x as u8, y: y as u8 })
        } else {
            Err(BufrError::bare(ErrorKind::InvalidLayout))
        }
    } else {
        Err(BufrError::bare(ErrorKind::InvalidLayout))
    }
}

impl Descriptor {
    /// The fields are in the range that the binary form can hold.
    pub open spec fn wf(&self) -> bool {
        self.f <= 3 && self.x <= 63
    }

    /// The canonical text `FXXYYY`.
    pub open spec fn canonical(&self) -> Seq<char> {
        decimal_text(self.f as nat, 1) + decimal_text(self.x as nat, 2) + decimal_text(
            self.y as nat,
            3,
        )
    }

    /// The binary word `FF XXXXXX YYYYYYYY`.
    pub open spec fn binary(&self) -> int {
        self.f * 16384 + self.x * 256 + self.y
    }

    /// The canonical text `FXXYYY`, under which the tables list the
    /// descriptor.
    pub fn string_form(&self) -> (s: String)
        ensures
            s@ == self.canonical(),
    {
        format_fxy(self.f, self.x, self.y)
    }

    /// Parses the canonical text `FXXYYY`.
    pub fn from_string_form(s: &str) -> (r: Result<Descriptor, BufrError>)
        ensures
            r == spec_from_string_form(s@),
            r matches Ok(d) ==> d.wf() && d.canonical() == s@,
    {
        if s.unicode_len() != 6 {
            return Err(BufrError::new(ErrorKind::InvalidLayout));
        }
        let d0 = digit_at(s, 0)?;
        let d1 = digit_at(s, 1)?;
        let d2 = digit_at(s, 2)?;
        let d3 = digit_at(s, 3)?;
        let d4 = digit_at(s, 4)?;
        let d5 = digit_at(s, 5)?;
        let f: u8 = d0;
        let x: u8 = 10 * d1 + d2;
        let y: u16 = 100 * (d3 as u16) + 10 * (d4 as u16) + (d5 as u16);
        if f > 3 || x > 63 || y > 255 {
            return Err(BufrError::new(ErrorKind::InvalidLayout));
        }
        let d = Descriptor { f, x, y: y as u8 };
        proof {
            lemma_canonical_digits(d);
            assert(d.canonical() =~= s@);
        }
        Ok(d)
    }

    /// Splits a binary word into its fields. An element descriptor of class
    /// 0 or 9 and an operator descriptor are rejected.
    pub fn decode_binary_descriptor(desc: u16) -> (r: Result<Descriptor, BufrError>)
        ensures
            r == spec_decode_binary(desc),
            r matches Ok(d) ==> d.wf() && d.binary() == desc,
    {
        let fx: u8 = (desc >> 8) as u8;
        let f = (fx & 0b1100_0000u8) >> 6;
        let x = fx & 0b0011_1111u8;
        let y = (desc & 0b0000_0000_1111_1111u16) as u8;
        proof {
            lemma_fields(desc);
        }
        let d = Descriptor { f, x, y };
        if f == 0 {
            if x < 1 || x == 9 {
                return Err(BufrError::new(ErrorKind::TableBClass).at(d));
            }
        } else if f == 2 {
            return Err(BufrError::new(ErrorKind::UnsupportedFeature).at(d));
        }
        Ok(d)
    }

    pub fn f_value(&self) -> (f: u8)
        ensures
            f == self.f,
    {
        self.f
    }

    pub fn x_value(&self) -> (x: u8)
        ensures
            x == self.x,
    {
        self.x
    }

    pub fn y_value(&self) -> (y: u8)
        ensures
            y == self.y,
    {
        self.y
    }
}

/// The decimal digit at index `i` of `s`.
fn digit_at(s: &str, i: usize) -> (r: Result<u8, BufrError>)
    requires
        i < s@.len(),
    ensures
        match r {
            Ok(v) => digit_value(s@[i as int]) == Some(v as int) && v <= 9,
            Err(e) => digit_value(s@[i as int]) is None && e == BufrError::bare(
                ErrorKind::InvalidLayout,
            ),
        },
{
    let c = s.get_char(i);
    if c < '0' || c > '9' {
        return Err(BufrError::new(ErrorKind::InvalidLayout));
    }
    Ok((c as u32 - '0' as u32) as u8)
}

/// `format!` with `{:01}{:02}{:03}`: each number in decimal, padded with
/// zeros on the left to at least one, two and three digits.
#[verifier::external_body]
fn format_fxy(f: u8, x: u8, y: u8) -> (s: String)
    ensures
        s@ == decimal_text(f as nat, 1) + decimal_text(x as nat, 2) + decimal_text(y as nat, 3),
{
    format!("{:01}{:02}{:03}", f, x, y)
}

/// The shifts and masks that take a word apart agree with division and
/// remainder.
proof fn lemma_fields(word: u16)
    ensures
        ((((word >> 8) as u8) & 0b1100_0000u8) >> 6) == word / 16384,
        (((word >> 8) as u8) & 0b0011_1111u8) == (word / 256) % 64,
        ((word & 0b0000_0000_1111_1111u16) as u8) == word % 256,
        word / 16384 <= 3,
        (word / 16384) * 16384 + ((word / 256) % 64) * 256 + word % 256 == word,
{
    let high: u8 = (word >> 8) as u8;
    assert(word >> 8 == word / 256) by (bit_vector);
    assert(word & 0xFFu16 == word % 256) by (bit_vector);
    assert((high & 0b1100_0000u8) >> 6 == high / 64) by (bit_vector);
    assert(high & 0b0011_1111u8 == high % 64) by (bit_vector);
}

/// The canonical text of a descriptor whose fields are in range is six
/// digits.
pub proof fn lemma_canonical_digits(d: Descriptor)
    requires
        d.f <= 9,
        d.x <= 99,
    ensures
        d.canonical() =~= seq![
            digit(d.f as int),
            digit(d.x as int / 10),
            digit(d.x as int % 10),
            digit(d.y as int / 100),
            digit((d.y as int / 10) % 10),
            digit(d.y as int % 10),
        ],
{
    reveal_with_fuel(decimal_text, 4);
    let x = d.x as int;
    let y = d.y as int;
    assert(decimal_text(d.f as nat, 1) =~= seq![digit(d.f as int)]);
    assert(decimal_text(x as nat, 2) =~= seq![digit(x / 10), digit(x % 10)]);
    assert(decimal_text(y as nat, 3) =~= seq![digit(y / 100), digit((y / 10) % 10), digit(y % 10)]);
}

/// The canonical text of a descriptor whose fields are in range parses back
/// to the descriptor.
pub proof fn lemma_canonical_parses(d: Descriptor)
    requires
        d.wf(),
    ensures
        spec_from_string_form(d.canonical()) == Ok::<Descriptor, BufrError>(d),
{
    lemma_canonical_digits(d);
}

/// A text that parses is the canonical text of the descriptor it parses to.
pub proof fn lemma_parsed_is_canonical(s: Seq<char>)
    requires
        spec_from_string_form(s) is Ok,
    ensures
        spec_from_string_form(s)->Ok_0.canonical() == s,
        spec_from_string_form(s)->Ok_0.wf(),
{
    let d = spec_from_string_form(s)->Ok_0;
    lemma_canonical_digits(d);
    assert(d.canonical() =~= s);
}

/// Every binary word that decodes gives a descriptor whose canonical text
/// parses back to the same descriptor, and whose binary word is the word
/// decoded.
pub proof fn lemma_descriptor_round_trip(word: u16)
    requires
        spec_decode_binary(word) is Ok,
    ensures
        spec_from_string_form(spec_decode_binary(word)->Ok_0.canonical()) == spec_decode_binary(
            word,
        ),
        spec_decode_binary(word)->Ok_0.binary() == word,
{
    lemma_fields(word);
    lemma_canonical_parses(binary_fields(word));
}

/// The number of octets of Section 3 before its descriptors.
pub const SECTION_3_FIXED_OCTETS: usize = 7;

/// Whether the fixed fields of Section 3 lie at `pos` of `data`: the
/// length covers them, the reserved octet and the reserved bits of the
/// flags are 0, and neither the number of subsets nor the flags hold the
/// missing value.
pub open spec fn section_3_header(data: Seq<u8>, pos: int) -> bool {
    &&& octets_available(data, pos, 7)
    &&& octet_3(data, pos) matches Some(size) && size >= 7
    &&& octet_1(data, pos + 3) == Some(0u8)
    &&& octet_2(data, pos + 4) is Some
    &&& octet_1(data, pos + 6) matches Some(flags) && flags % 64 == 0
}

/// The descriptor that the two octets at `pos` of `data` encode.
pub open spec fn spec_descriptor_at(data: Seq<u8>, pos: int) -> Result<Descriptor, BufrError> {
    if !octets_available(data, pos, 2) {
        Err(BufrError::bare(ErrorKind::InvalidLayout))
    } else {
        match octet_2(data, pos) {
            None => Err(BufrError::bare(ErrorKind::InvalidLayout)),
            Some(word) => spec_decode_binary(word),
        }
    }
}

/// The `count` descriptors that the octets from `pos` of `data` on encode,
/// or the error of the first of them that cannot be decoded.
pub open spec fn spec_descriptor_list(data: Seq<u8>, pos: int, count: nat) -> Result<
    Seq<Descriptor>,
    BufrError,
>
    decreases count,
{
    if count == 0 {
        Ok(Seq::empty())
    } else {
        match spec_descriptor_list(data, pos, (count - 1) as nat) {
            Err(e) => Err(e),
            Ok(list) => match spec_descriptor_at(data, pos + 2 * (count - 1)) {
                Err(e) => Err(e),
                Ok(d) => Ok(list.push(d)),
            },
        }
    }
}

/// Where the first `n` descriptors cannot all be decoded, neither can
/// more of them, and the error is the same.
proof fn lemma_descriptor_error_stays(data: Seq<u8>, pos: int, n: nat, count: nat)
    requires
        n <= count,
        spec_descriptor_list(data, pos, n) is Err,
    ensures
        spec_descriptor_list(data, pos, count) == spec_descriptor_list(data, pos, n),
    decreases count,
{
    if n < count {
        lemma_descriptor_error_stays(data, pos, n, (count - 1) as nat);
    }
}

/// The outcome of reading Section 3 at `pos` of `data`: the fields `m`
/// with those of the section, the descriptors, and the position after the
/// section.
pub open spec fn spec_section_3(data: Seq<u8>, pos: int, m: MessageView) -> Result<
    (MessageView, Seq<Descriptor>, int),
    BufrError,
> {
    if !section_3_header(data, pos) {
        Err(BufrError::bare(ErrorKind::InvalidLayout))
    } else {
        let size = octet_3(data, pos)->0 as int;
        let flags = octet_1(data, pos + 6)->0;
        if flags == 0x40 || flags == 0xC0 {
            Err(BufrError::bare(ErrorKind::UnsupportedFeature))
        } else {
            match spec_descriptor_list(data, pos + 7, ((size - 7) / 2) as nat) {
                Err(e) => Err(e),
                Ok(list) => if pos + size > data.len() {
                    Err(BufrError::bare(ErrorKind::InvalidLayout))
                } else {
                    Ok(
                        (
                            MessageView {
                                num_datasets: octet_2(data, pos + 4)->0,
                                observed_data: flags == 0x80,
                                compressed_data: false,
                                ..m
                            },
                            list,
                            pos + size,
                        ),
                    )
                },
            }
        }
    }
}

/// The flags of Section 3, taken apart.
proof fn lemma_flags(flags: u8)
    by (bit_vector)
    ensures
        (flags & 0b0011_1111u8 != 0) == (flags % 64 != 0),
        flags % 64 == 0 ==> ((flags & 0b0100_0000u8) > 0) == (flags == 0x40 || flags == 0xC0),
        flags % 64 == 0 && !(flags == 0x40 || flags == 0xC0) ==> ((flags & 0b1000_0000u8) > 0) == (
        flags == 0x80),
{
}

/// What `read_section_3` does, but for where it leaves `f` on failure.
fn section_3_fields(f: &mut ByteStream, builder: &mut BufrMessageBuilder) -> (r: Result<
    Vec<Descriptor>,
    BufrError,
>)
    ensures
        final(f).bytes() == old(f).bytes(),
        match spec_section_3(old(f).bytes(), old(f).pos(), old(builder)@) {
            Ok((m, list, next)) => r matches Ok(descriptors) && descriptors@ == list
                && final(builder)@ == m && final(f).pos() == next,
            Err(e) => r matches Err(x) && x == e && final(builder)@ == old(builder)@,
        },
{
    let ghost data = f.bytes();
    let ghost start = f.pos();
    let section_size = required(read_3_octet_usize(f)?)?;
    let reserved = required(read_1_octet_u8(f)?)?;
    if reserved != 0 {
        return Err(BufrError::new(ErrorKind::InvalidLayout));
    }
    let num_datasets = required(read_2_octet_u16(f)?)?;
    let d_flags = required(read_1_octet_u8(f)?)?;
    if section_size < SECTION_3_FIXED_OCTETS {
        return Err(BufrError::new(ErrorKind::InvalidLayout));
    }
    proof {
        lemma_flags(d_flags);
    }
    let observed_data = (d_flags & 0b1000_0000u8) > 0;
    let compressed_data = (d_flags & 0b0100_0000u8) > 0;
    let bits_3_to_8 = d_flags & 0b0011_1111u8;
    if bits_3_to_8 != 0 {
        return Err(BufrError::new(ErrorKind::InvalidLayout));
    }
    if compressed_data {
        return Err(BufrError::new(ErrorKind::UnsupportedFeature));
    }
    let num_descriptors = (section_size - SECTION_3_FIXED_OCTETS) / 2;

    let mut descriptors: Vec<Descriptor> = Vec::with_capacity(num_descriptors);
    let mut i: usize = 0;
    while i < num_descriptors
        invariant
            i <= num_descriptors,
            f.bytes() == data,
            data == old(f).bytes(),
            start == old(f).pos(),
            0 <= start,
            f.pos() == start + 7 + 2 * i,
            section_3_header(data, start),
            section_size == octet_3(data, start)->0,
            d_flags == octet_1(data, start + 6)->0,
            !(d_flags == 0x40 || d_flags == 0xC0),
            num_descriptors == (section_size - 7) / 2,
            spec_descriptor_list(data, start + 7, i as nat) == Ok::<Seq<Descriptor>, BufrError>(
                descriptors@,
            ),
        decreases num_descriptors - i,
    {
        let ghost here = f.pos();
        let decoded = match read_2_octet_u16(f) {
            Ok(Some(word)) => Descriptor::decode_binary_descriptor(word),
            Ok(None) => Err(BufrError::new(ErrorKind::InvalidLayout)),
            Err(e) => Err(e),
        };
        assert(decoded == spec_descriptor_at(data, here));
        match decoded {
            Ok(d) => {
                descriptors.push(d);
            },
            Err(e) => {
                proof {
                    lemma_descriptor_error_stays(
                        data,
                        start + 7,
                        (i + 1) as nat,
                        num_descriptors as nat,
                    );
                }
                return Err(e);
            },
        }
        i = i + 1;
    }

    // What is left of the section is padding.
    let padding = section_size - SECTION_3_FIXED_OCTETS - 2 * num_descriptors;
    f.read_exact(padding)?;

    builder.num_datasets(num_datasets).observed_data(observed_data).compressed_data(
        compressed_data,
    );
    Ok(descriptors)
}

/// Reads Section 3: the number of subsets, the flags, and the list of
/// descriptors. Compressed data is rejected.
/// On failure nothing is consumed and `builder` is left as it was.
pub fn read_section_3(f: &mut ByteStream, builder: &mut BufrMessageBuilder) -> (r: Result<
    Vec<Descriptor>,
    BufrError,
>)
    ensures
        final(f).bytes() == old(f).bytes(),
        match spec_section_3(old(f).bytes(), old(f).pos(), old(builder)@) {
            Ok((m, list, next)) => r matches Ok(descriptors) && descriptors@ == list
                && final(builder)@ == m && final(f).pos() == next,
            Err(e) => {
                &&& r matches Err(x) && x == e
                &&& final(builder)@ == old(builder)@
                &&& final(f).pos() == old(f).pos()
            },
        },
{
    let start = f.position();
    match section_3_fields(f, builder) {
        Ok(v) => Ok(v),
        Err(e) => {
            f.seek(start);
            Err(e)
        },
    }
}

} // verus!
