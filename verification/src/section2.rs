//! Section 2: the optional section for local use.

use crate::error::{BufrError, ErrorKind};
use crate::stream::ByteStream;
use crate::types::{BufrMessageBuilder, MessageView};
use crate::{octet_1, octet_3, octets_available, read_1_octet_u8, read_3_octet_usize, required};
use vstd::prelude::*;

verus! {

/// Whether a section that starts with its length and a reserved octet lies
/// at `pos` of `data`: the length is there, covers the two fields, and
/// does not reach beyond the input; the reserved octet is 0.
pub open spec fn framed(data: Seq<u8>, pos: int) -> bool {
    &&& octets_available(data, pos, 4)
    &&& octet_3(data, pos) matches Some(size) && size >= 4 && pos + size <= data.len()
    &&& octet_1(data, pos + 3) == Some(0u8)
}

/// The length that the section at `pos` of `data` gives for itself.
pub open spec fn section_size(data: Seq<u8>, pos: int) -> int {
    octet_3(data, pos)->0 as int
}

/// The outcome of reading Section 2 at `pos` of `data`: the fields `m`
/// with the data of the section, and the position after the section.
pub open spec fn spec_section_2(data: Seq<u8>, pos: int, m: MessageView) -> Result<
    (MessageView, int),
    BufrError,
> {
    if !framed(data, pos) {
        Err(BufrError::bare(ErrorKind::InvalidLayout))
    } else {
        let end = pos + section_size(data, pos);
        Ok((MessageView { section_2_data: data.subrange(pos + 4, end), ..m }, end))
    }
}

/// Reads the length and the reserved octet that a section starts with, and
/// gives the number of octets of the section that follow them.
pub fn read_frame(f: &mut ByteStream) -> (r: Result<usize, BufrError>)
    ensures
        final(f).bytes() == old(f).bytes(),
        match r {
            Ok(rest) => {
                &&& framed(old(f).bytes(), old(f).pos())
                &&& rest == section_size(old(f).bytes(), old(f).pos()) - 4
                &&& final(f).pos() == old(f).pos() + 4
            },
            Err(e) => !framed(old(f).bytes(), old(f).pos()) && e == BufrError::bare(
                ErrorKind::InvalidLayout,
            ),
        },
{
    let section_size = required(read_3_octet_usize(f)?)?;
    let reserved = required(read_1_octet_u8(f)?)?;
    if reserved != 0 {
        return Err(BufrError::new(ErrorKind::InvalidLayout));
    }
    if section_size < 4 || section_size - 4 > f.remaining() {
        return Err(BufrError::new(ErrorKind::InvalidLayout));
    }
    Ok(section_size - 4)
}

/// What `read_section_2` does, but for where it leaves `f` on failure.
fn section_2_fields(f: &mut ByteStream, builder: &mut BufrMessageBuilder) -> (r: Result<
    (),
    BufrError,
>)
    ensures
        final(f).bytes() == old(f).bytes(),
        match spec_section_2(old(f).bytes(), old(f).pos(), old(builder)@) {
            Ok((m, next)) => r is Ok && final(builder)@ == m && final(f).pos() == next,
            Err(e) => r matches Err(x) && x == e && final(builder)@ == old(builder)@,
        },
{
    let rest = read_frame(f)?;
    let section_data = f.read_exact(rest)?;
    builder.section_2_data(section_data);
    Ok(())
}

/// Reads Section 2: its length, a reserved octet, and the data, which is
/// kept as it stands.
/// On failure nothing is consumed and `builder` is left as it was.
pub fn read_section_2(f: &mut ByteStream, builder: &mut BufrMessageBuilder) -> (r: Result<
    (),
    BufrError,
>)
    ensures
        final(f).bytes() == old(f).bytes(),
        match spec_section_2(old(f).bytes(), old(f).pos(), old(builder)@) {
            Ok((m, next)) => r is Ok && final(builder)@ == m && final(f).pos() == next,
            Err(e) => {
                &&& r matches Err(x) && x == e
                &&& final(builder)@ == old(builder)@
                &&& final(f).pos() == old(f).pos()
            },
        },
{
    let start = f.position();
    match section_2_fields(f, builder) {
        Ok(v) => Ok(v),
        Err(e) => {
            f.seek(start);
            Err(e)
        },
    }
}

} // verus!
