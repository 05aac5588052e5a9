//! The decoded message and the tree of its data section.

use crate::types::structure::{items_view, StructureView};
use vstd::prelude::*;

pub mod message_builder;
pub mod structure;

pub use message_builder::BufrMessageBuilder;
pub use structure::{Element, Group, Replication, Structure, Value};

verus! {

/// A decoded message.
#[derive(Debug)]
pub struct BufrMessage {
    bufr_version: u8,
    master_table: u8,
    originating_center: u16,
    originating_subcenter: u16,
    update_num: u8,
    data_category: u8,
    data_subcategory: u8,
    local_data_subcategory: Option<u8>,
    bufr_master_table_version: u8,
    local_tables_version: u8,
    year: u16,
    month: u8,
    day: u8,
    hour: u8,
    minute: u8,
    second: u8,
    extra_section_1_data: Vec<u8>,
    num_datasets: u16,
    observed_data: bool,
    compressed_data: bool,
    section_2_data: Vec<u8>,
    elements: Vec<Structure>,
}

/// What a message holds.
pub struct MessageView {
    pub bufr_version: u8,
    pub master_table: u8,
    pub originating_center: u16,
    pub originating_subcenter: u16,
    pub update_num: u8,
    pub data_category: u8,
    pub data_subcategory: u8,
    pub local_data_subcategory: Option<u8>,
    pub bufr_master_table_version: u8,
    pub local_tables_version: u8,
    pub year: u16,
    pub month: u8,
    pub day: u8,
    pub hour: u8,
    pub minute: u8,
    pub second: u8,
    pub extra_section_1_data: Seq<u8>,
    pub num_datasets: u16,
    pub observed_data: bool,
    pub compressed_data: bool,
    pub section_2_data: Seq<u8>,
    pub elements: Seq<StructureView>,
}

impl View for BufrMessage {
    type V = MessageView;

    closed spec fn view(&self) -> MessageView {
        MessageView {
            bufr_version: self.bufr_version,
            master_table: self.master_table,
            originating_center: self.originating_center,
            originating_subcenter: self.originating_subcenter,
            update_num: self.update_num,
            data_category: self.data_category,
            data_subcategory: self.data_subcategory,
            local_data_subcategory: self.local_data_subcategory,
            bufr_master_table_version: self.bufr_master_table_version,
            local_tables_version: self.local_tables_version,
            year: self.year,
            month: self.month,
            day: self.day,
            hour: self.hour,
            minute: self.minute,
            second: self.second,
            extra_section_1_data: self.extra_section_1_data@,
            num_datasets: self.num_datasets,
            observed_data: self.observed_data,
            compressed_data: self.compressed_data,
            section_2_data: self.section_2_data@,
            elements: items_view(self.elements@),
        }
    }
}

/// The name of the master table `master_table`.
pub open spec fn master_table_name(master_table: u8) -> Seq<char> {
    if master_table == 0 {
        "Meteorology (maintained by WMO)"@
    } else if master_table == 10 {
        "Oceanography (maintained by IOC of UNESCO)"@
    } else {
        "Unknown"@
    }
}

impl BufrMessage {
    /// Whether Section 2 holds any data.
    pub fn section_2_present(&self) -> (r: bool)
        ensures
            r == (self@.section_2_data.len() > 0),
    {
        self.section_2_data.len() > 0
    }

    /// The data of Section 2.
    pub fn section_2_data(&self) -> (r: &[u8])
        ensures
            r@ == self@.section_2_data,
    {
        self.section_2_data.as_slice()
    }

    /// Whether Section 1 holds data after its fixed fields.
    pub fn section_1_extra_data_present(&self) -> (r: bool)
        ensures
            r == (self@.extra_section_1_data.len() > 0),
    {
        self.extra_section_1_data.len() > 0
    }

    /// The data of Section 1 after its fixed fields.
    pub fn section_1_extra_data(&self) -> (r: &[u8])
        ensures
            r@ == self@.extra_section_1_data,
    {
        self.extra_section_1_data.as_slice()
    }

    /// The top-level nodes of the data section.
    pub fn get_elements(&self) -> (r: &[Structure])
        ensures
            items_view(r@) == self@.elements,
    {
        self.elements.as_slice()
    }

    /// The name of the master table that the message was encoded with.
    pub fn master_table_str(&self) -> (r: &'static str)
        ensures
            r@ == master_table_name(self@.master_table),
    {
        match self.master_table {
            0 => "Meteorology (maintained by WMO)",
            10 => "Oceanography (maintained by IOC of UNESCO)",
            _ => "Unknown",
        }
    }

    pub fn bufr_version(&self) -> (r: u8)
        ensures
            r == self@.bufr_version,
    {
        self.bufr_version
    }

    pub fn master_table(&self) -> (r: u8)
        ensures
            r == self@.master_table,
    {
        self.master_table
    }

    pub fn originating_center(&self) -> (r: u16)
        ensures
            r == self@.originating_center,
    {
        self.originating_center
    }

    pub fn originating_subcenter(&self) -> (r: u16)
        ensures
            r == self@.originating_subcenter,
    {
        self.originating_subcenter
    }

    pub fn update_num(&self) -> (r: u8)
        ensures
            r == self@.update_num,
    {
        self.update_num
    }

    pub fn data_category(&self) -> (r: u8)
        ensures
            r == self@.data_category,
    {
        self.data_category
    }

    pub fn data_subcategory(&self) -> (r: u8)
        ensures
            r == self@.data_subcategory,
    {
        self.data_subcategory
    }

    pub fn local_data_subcategory(&self) -> (r: Option<u8>)
        ensures
            r == self@.local_data_subcategory,
    {
        self.local_data_subcategory
    }

    pub fn bufr_master_table_version(&self) -> (r: u8)
        ensures
            r == self@.bufr_master_table_version,
    {
        self.bufr_master_table_version
    }

    pub fn local_tables_version(&self) -> (r: u8)
        ensures
            r == self@.local_tables_version,
    {
        self.local_tables_version
    }

    pub fn year(&self) -> (r: u16)
        ensures
            r == self@.year,
    {
        self.year
    }

    pub fn month(&self) -> (r: u8)
        ensures
            r == self@.month,
    {
        self.month
    }

    pub fn day(&self) -> (r: u8)
        ensures
            r == self@.day,
    {
        self.day
    }

    pub fn hour(&self) -> (r: u8)
        ensures
            r == self@.hour,
    {
        self.hour
    }

    pub fn minute(&self) -> (r: u8)
        ensures
            r == self@.minute,
    {
        self.minute
    }

    pub fn second(&self) -> (r: u8)
        ensures
            r == self@.second,
    {
        self.second
    }

    pub fn num_datasets(&self) -> (r: u16)
        ensures
            r == self@.num_datasets,
    {
        self.num_datasets
    }

    pub fn observed_data(&self) -> (r: bool)
        ensures
            r == self@.observed_data,
    {
        self.observed_data
    }

    pub fn compressed_data(&self) -> (r: bool)
        ensures
            r == self@.compressed_data,
    {
        self.compressed_data
    }
}

} // verus!
