//! The assembler of a message: it takes the fields as the sections give
//! them and checks, at the end, that the decoder supports the message.

use crate::error::{BufrError, ErrorKind};
use crate::types::structure::{items_view, Structure};
use crate::types::{BufrMessage, MessageView};
use crate::{
    MAX_BUFR_EDITION_SUPPORTED, MAX_BUFR_TABLE_VERSION_SUPPORTED, MIN_BUFR_EDITION_SUPPORTED,
};
use vstd::prelude::*;

verus! {

/// A message in the making.
pub struct BufrMessageBuilder {
    bm: BufrMessage,
}

impl View for BufrMessageBuilder {
    type V = MessageView;

    closed spec fn view(&self) -> MessageView {
        self.bm@
    }
}

/// The fields of a builder to which nothing has been given yet: every
/// number holds the missing value.
pub open spec fn unset_message() -> MessageView {
    MessageView {
        bufr_version: 0xFF,
        master_table: 0xFF,
        originating_center: 0xFFFF,
        originating_subcenter: 0xFFFF,
        update_num: 0xFF,
        data_category: 0xFF,
        data_subcategory: 0xFF,
        local_data_subcategory: None,
        bufr_master_table_version: 0xFF,
        local_tables_version: 0xFF,
        year: 0xFFFF,
        month: 0xFF,
        day: 0xFF,
        hour: 0xFF,
        minute: 0xFF,
        second: 0xFF,
        extra_section_1_data: Seq::empty(),
        num_datasets: 0xFFFF,
        observed_data: false,
        compressed_data: false,
        section_2_data: Seq::empty(),
        elements: Seq::empty(),
    }
}

/// The outcome of assembling a message of the fields `m`: the message, or
/// why the decoder does not support it.
pub open spec fn spec_build(m: MessageView) -> Result<MessageView, BufrError> {
    if m.num_datasets > 1 {
        Err(BufrError::bare(ErrorKind::UnsupportedFeature))
    } else if m.bufr_master_table_version > MAX_BUFR_TABLE_VERSION_SUPPORTED {
        Err(BufrError::bare(ErrorKind::UnsupportedVersion))
    } else if m.bufr_version > MAX_BUFR_EDITION_SUPPORTED || m.bufr_version
        < MIN_BUFR_EDITION_SUPPORTED {
        Err(BufrError::bare(ErrorKind::UnsupportedVersion))
    } else {
        Ok(m)
    }
}

impl BufrMessageBuilder {
    pub fn new() -> (b: BufrMessageBuilder)
        ensures
            b@ == unset_message(),
    {
        BufrMessageBuilder {
            bm: BufrMessage {
                bufr_version: u8::MAX,
                master_table: u8::MAX,
                originating_center: u16::MAX,
                originating_subcenter: u16::MAX,
                update_num: u8::MAX,
                data_category: u8::MAX,
                data_subcategory: u8::MAX,
                local_data_subcategory: None,
                bufr_master_table_version: u8::MAX,
                local_tables_version: u8::MAX,
                year: u16::MAX,
                month: u8::MAX,
                day: u8::MAX,
                hour: u8::MAX,
                minute: u8::MAX,
                second: u8::MAX,
                extra_section_1_data: Vec::new(),
                num_datasets: u16::MAX,
                observed_data: false,
                compressed_data: false,
                section_2_data: Vec::new(),
                elements: Vec::new(),
            },
        }
    }

    pub fn bufr_version(&mut self, version: u8) -> (r: &mut Self)
        ensures
            r@ == (MessageView { bufr_version: version, ..old(self)@ }),
            *final(self) == *final(r),
    {
        self.bm.bufr_version = version;
        self
    }

    pub fn master_table(&mut self, master_table: u8) -> (r: &mut Self)
        ensures
            r@ == (MessageView { master_table: master_table, ..old(self)@ }),
            *final(self) == *final(r),
    {
        self.bm.master_table = master_table;
        self
    }

    pub fn originating_center(&mut self, originating_center: u16) -> (r: &mut Self)
        ensures
            r@ == (MessageView { originating_center: originating_center, ..old(self)@ }),
            *final(self) == *final(r),
    {
        self.bm.originating_center = originating_center;
        self
    }

    pub fn originating_subcenter(&mut self, originating_subcenter: u16) -> (r: &mut Self)
        ensures
            r@ == (MessageView { originating_subcenter: originating_subcenter, ..old(self)@ }),
            *final(self) == *final(r),
    {
        self.bm.originating_subcenter = originating_subcenter;
        self
    }

    pub fn update_num(&mut self, update_num: u8) -> (r: &mut Self)
        ensures
            r@ == (MessageView { update_num: update_num, ..old(self)@ }),
            *final(self) == *final(r),
    {
        self.bm.update_num = update_num;
        self
    }

    pub fn data_category(&mut self, data_category: u8) -> (r: &mut Self)
        ensures
            r@ == (MessageView { data_category: data_category, ..old(self)@ }),
            *final(self) == *final(r),
    {
        self.bm.data_category = data_category;
        self
    }

    pub fn data_subcategory(&mut self, data_subcategory: u8) -> (r: &mut Self)
        ensures
            r@ == (MessageView { data_subcategory: data_subcategory, ..old(self)@ }),
            *final(self) == *final(r),
    {
        self.bm.data_subcategory = data_subcategory;
        self
    }

    pub fn local_data_subcategory(&mut self, local_data_subcategory: Option<u8>) -> (r: &mut Self)
        ensures
            r@ == (MessageView { local_data_subcategory: local_data_subcategory, ..old(self)@ }),
            *final(self) == *final(r),
    {
        self.bm.local_data_subcategory = local_data_subcategory;
        self
    }

    pub fn bufr_master_table_version(&mut self, bufr_master_table_version: u8) -> (r: &mut Self)
        ensures
            r@ == (MessageView {
                bufr_master_table_version: bufr_master_table_version,
                ..old(self)@
            }),
            *final(self) == *final(r),
    {
        self.bm.bufr_master_table_version = bufr_master_table_version;
        self
    }

    pub fn local_tables_version(&mut self, local_tables_version: u8) -> (r: &mut Self)
        ensures
            r@ == (MessageView { local_tables_version: local_tables_version, ..old(self)@ }),
            *final(self) == *final(r),
    {
        self.bm.local_tables_version = local_tables_version;
        self
    }

    pub fn year(&mut self, year: u16) -> (r: &mut Self)
        ensures
            r@ == (MessageView { year: year, ..old(self)@ }),
            *final(self) == *final(r),
    {
        self.bm.year = year;
        self
    }

    pub fn month(&mut self, month: u8) -> (r: &mut Self)
        ensures
            r@ == (MessageView { month: month, ..old(self)@ }),
            *final(self) == *final(r),
    {
        self.bm.month = month;
        self
    }

    pub fn day(&mut self, day: u8) -> (r: &mut Self)
        ensures
            r@ == (MessageView { day: day, ..old(self)@ }),
            *final(self) == *final(r),
    {
        self.bm.day = day;
        self
    }

    pub fn hour(&mut self, hour: u8) -> (r: &mut Self)
        ensures
            r@ == (MessageView { hour: hour, ..old(self)@ }),
            *final(self) == *final(r),
    {
        self.bm.hour = hour;
        self
    }

    pub fn minute(&mut self, minute: u8) -> (r: &mut Self)
        ensures
            r@ == (MessageView { minute: minute, ..old(self)@ }),
            *final(self) == *final(r),
    {
        self.bm.minute = minute;
        self
    }

    pub fn second(&mut self, second: u8) -> (r: &mut Self)
        ensures
            r@ == (MessageView { second: second, ..old(self)@ }),
            *final(self) == *final(r),
    {
        self.bm.second = second;
        self
    }

    pub fn extra_seciont_1_data(&mut self, extra_data: Vec<u8>) -> (r: &mut Self)
        ensures
            r@ == (MessageView { extra_section_1_data: extra_data@, ..old(self)@ }),
            *final(self) == *final(r),
    {
        self.bm.extra_section_1_data = extra_data;
        self
    }

    pub fn num_datasets(&mut self, num_datasets: u16) -> (r: &mut Self)
        ensures
            r@ == (MessageView { num_datasets: num_datasets, ..old(self)@ }),
            *final(self) == *final(r),
    {
        self.bm.num_datasets = num_datasets;
        self
    }

    pub fn observed_data(&mut self, observed_data: bool) -> (r: &mut Self)
        ensures
            r@ == (MessageView { observed_data: observed_data, ..old(self)@ }),
            *final(self) == *final(r),
    {
        self.bm.observed_data = observed_data;
        self
    }

    pub fn compressed_data(&mut self, compressed_data: bool) -> (r: &mut Self)
        ensures
            r@ == (MessageView { compressed_data: compressed_data, ..old(self)@ }),
            *final(self) == *final(r),
    {
        self.bm.compressed_data = compressed_data;
        self
    }

    pub fn section_2_data(&mut self, section_2_data: Vec<u8>) -> (r: &mut Self)
        ensures
            r@ == (MessageView { section_2_data: section_2_data@, ..old(self)@ }),
            *final(self) == *final(r),
    {
        self.bm.section_2_data = section_2_data;
        self
    }

    pub fn elements(&mut self, elements: Vec<Structure>) -> (r: &mut Self)
        ensures
            r@ == (MessageView { elements: items_view(elements@), ..old(self)@ }),
            *final(self) == *final(r),
    {
        self.bm.elements = elements;
        self
    }

    /// The message, where the decoder supports it: one subset at most,
    /// tables no newer and an edition no other than it knows.
    pub fn build(self) -> (r: Result<BufrMessage, BufrError>)
        ensures
            match spec_build(self@) {
                Ok(m) => r matches Ok(message) && message@ == m,
                Err(e) => r matches Err(x) && x == e,
            },
    {
        if self.bm.num_datasets > 1 {
            return Err(BufrError::new(ErrorKind::UnsupportedFeature));
        }
        if self.bm.bufr_master_table_version > MAX_BUFR_TABLE_VERSION_SUPPORTED {
            return Err(BufrError::new(ErrorKind::UnsupportedVersion));
        }
        if self.bm.bufr_version > MAX_BUFR_EDITION_SUPPORTED || self.bm.bufr_version
            < MIN_BUFR_EDITION_SUPPORTED {
            return Err(BufrError::new(ErrorKind::UnsupportedVersion));
        }
        Ok(self.bm)
    }
}

} // verus!
