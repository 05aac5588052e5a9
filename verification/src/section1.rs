//! Section 1: the identification section.

use crate::error::{BufrError, ErrorKind};
use crate::stream::ByteStream;
use crate::types::{BufrMessageBuilder, MessageView};
use crate::{
    octet_1, octet_2, octet_3, octets_available, read_1_octet_u8, read_2_octet_u16,
    read_3_octet_usize, required,
};
use vstd::prelude::*;

verus! {

/// The number of octets of the fixed fields of Section 1.
pub const SECTION_1_FIXED_OCTETS: usize = 22;

/// Whether Section 1 lies at `pos` of `data`: its fixed fields are there,
/// none of those that a message must hold has the missing value, and its
/// length covers them and does not reach beyond the input.
pub open spec fn section_1_layout(data: Seq<u8>, pos: int) -> bool {
    &&& octets_available(data, pos, 22)
    &&& octet_3(data, pos) matches Some(size) && size >= 22 && pos + size <= data.len()
    &&& octet_1(data, pos + 3) is Some
    &&& octet_2(data, pos + 4) is Some
    &&& octet_2(data, pos + 6) is Some
    &&& octet_1(data, pos + 8) is Some
    &&& octet_1(data, pos + 9) is Some
    &&& octet_1(data, pos + 10) is Some
    &&& octet_1(data, pos + 11) is Some
    &&& octet_1(data, pos + 13) is Some
    &&& octet_1(data, pos + 14) is Some
    &&& octet_2(data, pos + 15) is Some
    &&& octet_1(data, pos + 17) is Some
    &&& octet_1(data, pos + 18) is Some
    &&& octet_1(data, pos + 19) is Some
    &&& octet_1(data, pos + 20) is Some
    &&& octet_1(data, pos + 21) is Some
}

/// Whether the master table `master_table` is one that the decoder knows:
/// 0 for meteorology, 10 for oceanography.
pub open spec fn known_master_table(master_table: u8) -> bool {
    master_table == 0 || master_table == 10
}

/// The fields `m` with those that Section 1 at `pos` of `data` gives.
pub open spec fn section_1_fields(data: Seq<u8>, pos: int, m: MessageView) -> MessageView {
    MessageView {
        master_table: octet_1(data, pos + 3)->0,
        originating_center: octet_2(data, pos + 4)->0,
        originating_subcenter: octet_2(data, pos + 6)->0,
        update_num: octet_1(data, pos + 8)->0,
        data_category: octet_1(data, pos + 10)->0,
        data_subcategory: octet_1(data, pos + 11)->0,
        local_data_subcategory: octet_1(data, pos + 12),
        bufr_master_table_version: octet_1(data, pos + 13)->0,
        local_tables_version: octet_1(data, pos + 14)->0,
        year: octet_2(data, pos + 15)->0,
        month: octet_1(data, pos + 17)->0,
        day: octet_1(data, pos + 18)->0,
        hour: octet_1(data, pos + 19)->0,
        minute: octet_1(data, pos + 20)->0,
        second: octet_1(data, pos + 21)->0,
        extra_section_1_data: data.subrange(pos + 22, pos + octet_3(data, pos)->0),
        ..m
    }
}

/// The outcome of reading Section 1 at `pos` of `data`: the fields `m`
/// with those of the section, whether Section 2 follows, and the position
/// after the section.
pub open spec fn spec_section_1(data: Seq<u8>, pos: int, m: MessageView) -> Result<
    (MessageView, bool, int),
    BufrError,
> {
    if !section_1_layout(data, pos) {
        Err(BufrError::bare(ErrorKind::InvalidLayout))
    } else if !known_master_table(octet_1(data, pos + 3)->0) {
        Err(BufrError::bare(ErrorKind::UnsupportedFeature))
    } else {
        Ok(
            (
                section_1_fields(data, pos, m),
                octet_1(data, pos + 9)->0 > 0,
                pos + octet_3(data, pos)->0,
            ),
        )
    }
}

/// What `read_section_1` does, but for where it leaves `f` on failure.
fn section_1_parts(f: &mut ByteStream, builder: &mut BufrMessageBuilder) -> (r: Result<
    bool,
    BufrError,
>)
    ensures
        final(f).bytes() == old(f).bytes(),
        match spec_section_1(old(f).bytes(), old(f).pos(), old(builder)@) {
            Ok((m, present, next)) => r == Ok::<bool, BufrError>(present) && final(builder)@ == m
                && final(f).pos() == next,
            Err(e) => r matches Err(x) && x == e && final(builder)@ == old(builder)@,
        },
{
    let section_size = required(read_3_octet_usize(f)?)?;
    let master_table = required(read_1_octet_u8(f)?)?;
    let originating_center = required(read_2_octet_u16(f)?)?;
    let originating_subcenter = required(read_2_octet_u16(f)?)?;
    let update_num = required(read_1_octet_u8(f)?)?;
    let section_2_flag = required(read_1_octet_u8(f)?)?;
    let data_category = required(read_1_octet_u8(f)?)?;
    let data_subcategory = required(read_1_octet_u8(f)?)?;
    let local_data_subcategory = read_1_octet_u8(f)?;
    let bufr_master_table_version = required(read_1_octet_u8(f)?)?;
    let local_tables_version = required(read_1_octet_u8(f)?)?;
    let year = required(read_2_octet_u16(f)?)?;
    let month = required(read_1_octet_u8(f)?)?;
    let day = required(read_1_octet_u8(f)?)?;
    let hour = required(read_1_octet_u8(f)?)?;
    let minute = required(read_1_octet_u8(f)?)?;
    let second = required(read_1_octet_u8(f)?)?;

    if section_size < SECTION_1_FIXED_OCTETS {
        return Err(BufrError::new(ErrorKind::InvalidLayout));
    }
    let extra_data = f.read_exact(section_size - SECTION_1_FIXED_OCTETS)?;

    if master_table != 0 && master_table != 10 {
        return Err(BufrError::new(ErrorKind::UnsupportedFeature));
    }
    builder.master_table(master_table)
        .originating_center(originating_center)
        .originating_subcenter(originating_subcenter)
        .update_num(update_num)
        .data_category(data_category)
        .data_subcategory(data_subcategory)
        .local_data_subcategory(local_data_subcategory)
        .bufr_master_table_version(bufr_master_table_version)
        .local_tables_version(local_tables_version)
        .year(year)
        .month(month)
        .day(day)
        .hour(hour)
        .minute(minute)
        .second(second)
        .extra_seciont_1_data(extra_data);

    Ok(section_2_flag > 0)
}

/// Reads Section 1 and says whether Section 2 follows.
/// On failure nothing is consumed and `builder` is left as it was.
pub fn read_section_1(f: &mut ByteStream, builder: &mut BufrMessageBuilder) -> (r: Result<
    bool,
    BufrError,
>)
    ensures
        final(f).bytes() == old(f).bytes(),
        match spec_section_1(old(f).bytes(), old(f).pos(), old(builder)@) {
            Ok((m, present, next)) => r == Ok::<bool, BufrError>(present) && final(builder)@ == m
                && final(f).pos() == next,
            Err(e) => {
                &&& r matches Err(x) && x == e
                &&& final(builder)@ == old(builder)@
                &&& final(f).pos() == old(f).pos()
            },
        },
{
    let start = f.position();
    match section_1_parts(f, builder) {
        Ok(v) => Ok(v),
        Err(e) => {
            f.seek(start);
            Err(e)
        },
    }
}

} // verus!
