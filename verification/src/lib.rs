//! A decoder for BUFR messages, edition 3 and 4.

use vstd::prelude::*;

pub mod bit_buffer;
pub mod decimal;
pub mod error;
pub mod section0;
pub mod section1;
pub mod section2;
pub mod section3;
pub mod section4;
pub mod section5;
pub mod stream;
pub mod tables;
pub mod text;
pub mod types;

pub use error::{BufrError, ErrorKind};
pub use stream::ByteStream;
pub use tables::{TableB, TableBEntry, TableD, TableDEntry};
pub use types::{BufrMessage, Element, Group, Replication, Structure, Value};

use section0::{spec_section_0, start_mark_at};
use section1::spec_section_1;
use section2::spec_section_2;
use section3::spec_section_3;
use section4::spec_section_4;
use section5::{end_mark_at, spec_section_5};
use types::message_builder::{spec_build, unset_message};
use types::{BufrMessageBuilder, MessageView};

verus! {

/// The newest version of the master tables that the decoder accepts.
pub const MAX_BUFR_TABLE_VERSION_SUPPORTED: u8 = 39;

/// The newest edition of the format that the decoder accepts.
pub const MAX_BUFR_EDITION_SUPPORTED: u8 = 4;

/// The oldest edition of the format that the decoder accepts.
pub const MIN_BUFR_EDITION_SUPPORTED: u8 = 3;

/// Whether `n` octets can be read from `data` at `pos`.
pub open spec fn octets_available(data: Seq<u8>, pos: int, n: int) -> bool {
    0 <= pos && pos + n <= data.len()
}

/// The octet at `pos`, or `None` where it holds the missing value `0xFF`.
pub open spec fn octet_1(data: Seq<u8>, pos: int) -> Option<u8> {
    if data[pos] == 0xFF {
        None
    } else {
        Some(data[pos])
    }
}

/// The big-endian value of the two octets at `pos`, or `None` where all
/// their bits are set.
pub open spec fn octet_2(data: Seq<u8>, pos: int) -> Option<u16> {
    let v = data[pos] * 256 + data[pos + 1];
    if v == 0xFFFF {
        None
    } else {
        Some(v as u16)
    }
}

/// The big-endian value of the three octets at `pos`, or `None` where all
/// their bits are set.
pub open spec fn octet_3(data: Seq<u8>, pos: int) -> Option<usize> {
    let v = data[pos] * 65536 + data[pos + 1] * 256 + data[pos + 2];
    if v == 0xFF_FFFF {
        None
    } else {
        Some(v as usize)
    }
}

/// The value of a field that a message must hold: a field that holds the
/// missing value is an error.
pub fn required<T>(value: Option<T>) -> (r: Result<T, BufrError>)
    ensures
        r == match value {
            Some(v) => Ok::<T, BufrError>(v),
            None => Err::<T, BufrError>(BufrError::bare(ErrorKind::InvalidLayout)),
        },
{
    match value {
        Some(v) => Ok(v),
        None => Err(BufrError::new(ErrorKind::InvalidLayout)),
    }
}

/// Reads one octet. The result is `None` where the octet holds the missing
/// value. At the end of the input the read fails and consumes nothing.
pub fn read_1_octet_u8(f: &mut ByteStream) -> (r: Result<Option<u8>, BufrError>)
    ensures
        final(f).bytes() == old(f).bytes(),
        match r {
            Ok(v) => {
                &&& octets_available(old(f).bytes(), old(f).pos(), 1)
                &&& v == octet_1(old(f).bytes(), old(f).pos())
                &&& final(f).pos() == old(f).pos() + 1
            },
            Err(e) => {
                &&& !octets_available(old(f).bytes(), old(f).pos(), 1)
                &&& e == BufrError::bare(ErrorKind::InvalidLayout)
                &&& final(f).pos() == old(f).pos()
            },
        },
{
    if f.remaining() < 1 {
        return Err(BufrError::new(ErrorKind::InvalidLayout));
    }
    let pos = f.position();
    let value = f.byte_at(pos);
    f.seek(pos + 1);
    if value == 0xFF {
        Ok(None)
    } else {
        Ok(Some(value))
    }
}

/// Reads two octets as a big-endian number. The result is `None` where all
/// sixteen bits are set. Where fewer than two octets are left the read fails
/// and consumes nothing.
pub fn read_2_octet_u16(f: &mut ByteStream) -> (r: Result<Option<u16>, BufrError>)
    ensures
        final(f).bytes() == old(f).bytes(),
        match r {
            Ok(v) => {
                &&& octets_available(old(f).bytes(), old(f).pos(), 2)
                &&& v == octet_2(old(f).bytes(), old(f).pos())
                &&& final(f).pos() == old(f).pos() + 2
            },
            Err(e) => {
                &&& !octets_available(old(f).bytes(), old(f).pos(), 2)
                &&& e == BufrError::bare(ErrorKind::InvalidLayout)
                &&& final(f).pos() == old(f).pos()
            },
        },
{
    if f.remaining() < 2 {
        return Err(BufrError::new(ErrorKind::InvalidLayout));
    }
    let pos = f.position();
    let high = f.byte_at(pos);
    let low = f.byte_at(pos + 1);
    f.seek(pos + 2);
    let value: u16 = (high as u16) * 256 + (low as u16);
    if value == 0xFFFF {
        Ok(None)
    } else {
        Ok(Some(value))
    }
}

/// Reads three octets as a big-endian number. The result is `None` where all
/// twenty-four bits are set. Where fewer than three octets are left the read
/// fails and consumes nothing.
pub fn read_3_octet_usize(f: &mut ByteStream) -> (r: Result<Option<usize>, BufrError>)
    ensures
        final(f).bytes() == old(f).bytes(),
        match r {
            Ok(v) => {
                &&& octets_available(old(f).bytes(), old(f).pos(), 3)
                &&& v == octet_3(old(f).bytes(), old(f).pos())
                &&& final(f).pos() == old(f).pos() + 3
            },
            Err(e) => {
                &&& !octets_available(old(f).bytes(), old(f).pos(), 3)
                &&& e == BufrError::bare(ErrorKind::InvalidLayout)
                &&& final(f).pos() == old(f).pos()
            },
        },
{
    if f.remaining() < 3 {
        return Err(BufrError::new(ErrorKind::InvalidLayout));
    }
    let pos = f.position();
    let high = f.byte_at(pos);
    let middle = f.byte_at(pos + 1);
    let low = f.byte_at(pos + 2);
    f.seek(pos + 3);
    let value: u32 = (high as u32) * 65536 + (middle as u32) * 256 + (low as u32);
    if value == 0xFF_FFFF {
        Ok(None)
    } else {
        Ok(Some(value as usize))
    }
}

/// The outcome of reading Section 2 at `pos` of `data` where `present`
/// says that the message has one, and of passing on where it has none.
pub open spec fn spec_optional_section_2(
    data: Seq<u8>,
    pos: int,
    m: MessageView,
    present: bool,
) -> Result<(MessageView, int), BufrError> {
    if present {
        spec_section_2(data, pos, m)
    } else {
        Ok((m, pos))
    }
}

/// The outcome of reading the message that starts at `pos` of `data`: what
/// the message holds, and the position after its last section. An error of
/// a section names the section.
pub open spec fn spec_message(tb: &TableB, td: &TableD, data: Seq<u8>, pos: int) -> Result<
    (MessageView, int),
    BufrError,
> {
    match spec_section_0(data, pos, unset_message()) {
        Err(e) => Err(e.spec_in_section(0)),
        Ok((fields_0, after_0)) => match spec_section_1(data, after_0, fields_0) {
            Err(e) => Err(e.spec_in_section(1)),
            Ok((fields_1, present, after_1)) => match spec_optional_section_2(
                data,
                after_1,
                fields_1,
                present,
            ) {
                Err(e) => Err(e.spec_in_section(2)),
                Ok((fields_2, after_2)) => match spec_section_3(data, after_2, fields_2) {
                    Err(e) => Err(e.spec_in_section(3)),
                    Ok((fields_3, descriptors, after_3)) => match spec_section_4(
                        tb,
                        td,
                        data,
                        after_3,
                        descriptors,
                        fields_3,
                    ) {
                        Err(e) => Err(e.spec_in_section(4)),
                        Ok((fields_4, after_4)) => match spec_section_5(data, after_4) {
                            Err(e) => Err(e.spec_in_section(5)),
                            Ok(after_5) => match spec_build(fields_4) {
                                Err(e) => Err(e),
                                Ok(m) => Ok((m, after_5)),
                            },
                        },
                    },
                },
            },
        },
    }
}

/// What `read_bufr_message` does, but for where it leaves `f` on failure.
fn read_sections(f: &mut ByteStream, tb: &TableB, td: &TableD) -> (r: Result<
    BufrMessage,
    BufrError,
>)
    ensures
        final(f).bytes() == old(f).bytes(),
        match spec_message(tb, td, old(f).bytes(), old(f).pos()) {
            Ok((m, end)) => r matches Ok(message) && message@ == m && final(f).pos() == end,
            Err(e) => r matches Err(x) && x == e,
        },
{
    let mut builder = BufrMessageBuilder::new();

    match section0::read_section_0(f, &mut builder) {
        Ok(()) => {},
        Err(e) => {
            return Err(e.in_section(0));
        },
    }
    let section_2_exists = match section1::read_section_1(f, &mut builder) {
        Ok(exists) => exists,
        Err(e) => {
            return Err(e.in_section(1));
        },
    };

    if section_2_exists {
        match section2::read_section_2(f, &mut builder) {
            Ok(()) => {},
            Err(e) => {
                return Err(e.in_section(2));
            },
        }
    }
    let descriptors = match section3::read_section_3(f, &mut builder) {
        Ok(descriptors) => descriptors,
        Err(e) => {
            return Err(e.in_section(3));
        },
    };
    match section4::read_section_4(f, descriptors, &mut builder, tb, td) {
        Ok(()) => {},
        Err(e) => {
            return Err(e.in_section(4));
        },
    }
    match section5::read_section_5(f) {
        Ok(_) => {},
        Err(e) => {
            return Err(e.in_section(5));
        },
    }

    builder.build()
}

/// Reads one message from the position of `f` on, with the elements and
/// sequences of `tb` and `td`. On success `f` stands after the last octet
/// of the message.
/// On failure nothing is consumed.
pub fn read_bufr_message(f: &mut ByteStream, tb: &TableB, td: &TableD) -> (r: Result<
    BufrMessage,
    BufrError,
>)
    ensures
        final(f).bytes() == old(f).bytes(),
        match spec_message(tb, td, old(f).bytes(), old(f).pos()) {
            Ok((m, end)) => r matches Ok(message) && message@ == m && final(f).pos() == end,
            Err(e) => r matches Err(x) && x == e && final(f).pos() == old(f).pos(),
        },
{
    let start = f.position();
    match read_sections(f, tb, td) {
        Ok(v) => Ok(v),
        Err(e) => {
            f.seek(start);
            Err(e)
        },
    }
}

/// A message that is read ends with the octets `7777`, and the position
/// after the message is the position after them.
pub proof fn lemma_message_ends_with_mark(tb: &TableB, td: &TableD, data: Seq<u8>, pos: int)
    requires
        spec_message(tb, td, data, pos) is Ok,
    ensures
        ({
            let end = spec_message(tb, td, data, pos)->Ok_0.1;
            &&& pos + 8 <= end - 4
            &&& end <= data.len()
            &&& end_mark_at(data, end - 4)
        }),
{
}

/// Whether a message can begin at `pos` of `data`: the four octets there
/// are `BUFR`.
pub open spec fn message_starts_at(data: Seq<u8>, pos: int) -> bool {
    octets_available(data, pos, 4) && start_mark_at(data, pos)
}

/// Moves `f` to the next place, at its position or after, where the
/// octets `BUFR` stand. Where there is none, `f` is moved to the end of the
/// input and the scan fails.
pub fn scan_to_bufr_start(f: &mut ByteStream) -> (r: Result<(), BufrError>)
    ensures
        final(f).bytes() == old(f).bytes(),
        forall|q: int| old(f).pos() <= q < final(f).pos() ==> !message_starts_at(old(f).bytes(), q),
        match r {
            Ok(()) => old(f).pos() <= final(f).pos() && message_starts_at(
                old(f).bytes(),
                final(f).pos(),
            ),
            Err(e) => e == BufrError::bare(ErrorKind::EndOfStream) && final(f).pos() == old(
                f,
            ).bytes().len() && forall|q: int|
                old(f).pos() <= q ==> !message_starts_at(old(f).bytes(), q),
        },
{
    let len = f.len();
    let mut position = f.position();
    while position < len
        invariant
            old(f).pos() <= position <= len,
            len == f.bytes().len(),
            f.bytes() == old(f).bytes(),
            f.pos() == old(f).pos(),
            forall|q: int| old(f).pos() <= q < position ==> !message_starts_at(old(f).bytes(), q),
        decreases len - position,
    {
        if len - position >= 4 && f.byte_at(position) == 0x42 && f.byte_at(position + 1) == 0x55
            && f.byte_at(position + 2) == 0x46 && f.byte_at(position + 3) == 0x52 {
            f.seek(position);
            return Ok(());
        }
        position = position + 1;
    }
    f.seek(len);
    Err(BufrError::new(ErrorKind::EndOfStream))
}

} // verus!
