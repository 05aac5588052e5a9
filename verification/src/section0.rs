//! Section 0: the indicator section.

use crate::error::{BufrError, ErrorKind};
use crate::stream::ByteStream;
use crate::types::{BufrMessageBuilder, MessageView};
use crate::{octet_1, octets_available, read_1_octet_u8, read_3_octet_usize, required};
use vstd::prelude::*;

verus! {

/// Whether the four octets at `pos` of `data` are `BUFR`, with which a
/// message begins.
pub open spec fn start_mark_at(data: Seq<u8>, pos: int) -> bool {
    data[pos] == 0x42 && data[pos + 1] == 0x55 && data[pos + 2] == 0x46 && data[pos + 3] == 0x52
}

/// The outcome of reading Section 0 at `pos` of `data`: the fields `m`
/// with the edition that the section gives, and the position after the
/// section.
pub open spec fn spec_section_0(data: Seq<u8>, pos: int, m: MessageView) -> Result<
    (MessageView, int),
    BufrError,
> {
    if !octets_available(data, pos, 4) {
        Err(BufrError::bare(ErrorKind::InvalidLayout))
    } else if !start_mark_at(data, pos) {
        Err(BufrError::bare(ErrorKind::MagicMismatch))
    } else if !octets_available(data, pos, 8) {
        Err(BufrError::bare(ErrorKind::InvalidLayout))
    } else {
        match octet_1(data, pos + 7) {
            None => Err(BufrError::bare(ErrorKind::InvalidLayout)),
            Some(version) => Ok((MessageView { bufr_version: version, ..m }, pos + 8)),
        }
    }
}

/// What `read_section_0` does, but for where it leaves `f` on failure.
fn section_0_fields(f: &mut ByteStream, builder: &mut BufrMessageBuilder) -> (r: Result<
    (),
    BufrError,
>)
    ensures
        final(f).bytes() == old(f).bytes(),
        match spec_section_0(old(f).bytes(), old(f).pos(), old(builder)@) {
            Ok((m, next)) => r is Ok && final(builder)@ == m && final(f).pos() == next,
            Err(e) => r matches Err(x) && x == e && final(builder)@ == old(builder)@,
        },
{
    let bufr_name = f.read_exact(4)?;
    if bufr_name[0] != 0x42 || bufr_name[1] != 0x55 || bufr_name[2] != 0x46 || bufr_name[3]
        != 0x52 {
        return Err(BufrError::new(ErrorKind::MagicMismatch));
    }
    let _message_size = read_3_octet_usize(f)?;
    let bufr_version = required(read_1_octet_u8(f)?)?;
    builder.bufr_version(bufr_version);
    Ok(())
}

/// Reads Section 0: the octets `BUFR`, the length of the message, which is
/// not used, and the edition.
/// On failure nothing is consumed and `builder` is left as it was.
pub fn read_section_0(f: &mut ByteStream, builder: &mut BufrMessageBuilder) -> (r: Result<
    (),
    BufrError,
>)
    ensures
        final(f).bytes() == old(f).bytes(),
        match spec_section_0(old(f).bytes(), old(f).pos(), old(builder)@) {
            Ok((m, next)) => r is Ok && final(builder)@ == m && final(f).pos() == next,
            Err(e) => {
                &&& r matches Err(x) && x == e
                &&& final(builder)@ == old(builder)@
                &&& final(f).pos() == old(f).pos()
            },
        },
{
    let start = f.position();
    match section_0_fields(f, builder) {
        Ok(v) => Ok(v),
        Err(e) => {
            f.seek(start);
            Err(e)
        },
    }
}

} // verus!
