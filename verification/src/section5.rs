//! Section 5: the end section.

use crate::error::{BufrError, ErrorKind};
use crate::octets_available;
use crate::stream::ByteStream;
use vstd::prelude::*;

verus! {

/// The end section, which holds nothing but its mark.
#[derive(Debug)]
pub struct Section5 {}

/// Whether the four octets at `pos` of `data` are `7777`, with which a
/// message ends.
pub open spec fn end_mark_at(data: Seq<u8>, pos: int) -> bool {
    data[pos] == 0x37 && data[pos + 1] == 0x37 && data[pos + 2] == 0x37 && data[pos + 3] == 0x37
}

/// The outcome of reading Section 5 at `pos` of `data`: the position after
/// the section.
pub open spec fn spec_section_5(data: Seq<u8>, pos: int) -> Result<int, BufrError> {
    if !octets_available(data, pos, 4) {
        Err(BufrError::bare(ErrorKind::InvalidLayout))
    } else if !end_mark_at(data, pos) {
        Err(BufrError::bare(ErrorKind::MagicMismatch))
    } else {
        Ok(pos + 4)
    }
}

/// Reads Section 5: four octets, which must be `7777`. Where four octets
/// are left they are consumed, whether they are the mark or not; where
/// fewer are left nothing is consumed.
pub fn read_section_5(f: &mut ByteStream) -> (r: Result<Section5, BufrError>)
    ensures
        final(f).bytes() == old(f).bytes(),
        match spec_section_5(old(f).bytes(), old(f).pos()) {
            Ok(_) => r is Ok,
            Err(e) => r matches Err(x) && x == e,
        },
        final(f).pos() == old(f).pos() + if octets_available(old(f).bytes(), old(f).pos(), 4) {
            4int
        } else {
            0int
        },
{
    let section_end = f.read_exact(4)?;
    if section_end[0] == 0x37 && section_end[1] == 0x37 && section_end[2] == 0x37 && section_end[3]
        == 0x37 {
        Ok(Section5 {  })
    } else {
        Err(BufrError::new(ErrorKind::MagicMismatch))
    }
}

} // verus!
