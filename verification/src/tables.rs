//! The catalogues that descriptors are resolved against: Table B for
//! elements, Table D for sequences.

use crate::text::str_eq;
use vstd::prelude::*;

pub mod table_b;
pub mod table_d;

pub use table_b::TableB;
pub use table_d::TableD;

verus! {

/// How the bits of an element are read, as its units say.
#[derive(Clone, Copy, Debug, PartialEq, Eq)]
pub enum UnitsKind {
    /// Text of eight bits a character.
    Text,
    /// A whole number: the reference value is added, no scale applies.
    Numeric,
    /// An entry of a code table or a flag table.
    Code,
    /// A number with a reference value and a decimal scale.
    Scaled,
}

/// The kind of the units `units`.
pub open spec fn units_kind(units: Seq<char>) -> UnitsKind {
    if units == "CCITT IA5"@ {
        UnitsKind::Text
    } else if units == "Numeric"@ || units == "a"@ || units == "mon"@ || units == "d"@ || units
        == "h"@ || units == "min"@ || units == "s"@ {
        UnitsKind::Numeric
    } else if units == "Code table"@ || units == "Flag table"@ {
        UnitsKind::Code
    } else {
        UnitsKind::Scaled
    }
}

/// The definition of an element.
#[derive(Clone, Debug)]
pub struct TableBEntry {
    /// The canonical text of the element's descriptor.
    pub fxy: String,
    /// The width of the field in the data section.
    pub width_bits: usize,
    pub element_name: String,
    pub units: String,
    /// What is added to the field before the scale is applied.
    pub reference_val: i64,
    /// The power of ten that the sum is divided by.
    pub scale_val: i32,
}

/// The definition of a sequence.
#[derive(Clone, Debug)]
pub struct TableDEntry {
    /// The canonical text of the sequence's descriptor.
    pub fxy: String,
    pub group_name: String,
    /// The canonical texts of the descriptors that the sequence expands to,
    /// in order.
    pub elements: Vec<String>,
}

impl TableBEntry {
    pub fn new(
        fxy: String,
        width_bits: usize,
        element_name: String,
        units: String,
        reference_val: i64,
        scale_val: i32,
    ) -> (e: TableBEntry)
        ensures
            e == (TableBEntry { fxy, width_bits, element_name, units, reference_val, scale_val }),
    {
        TableBEntry { fxy, width_bits, element_name, units, reference_val, scale_val }
    }

    /// How the bits of the element are read.
    pub fn kind(&self) -> (k: UnitsKind)
        ensures
            k == units_kind(self.units@),
    {
        let units = self.units.as_str();
        if str_eq(units, "CCITT IA5") {
            UnitsKind::Text
        } else if str_eq(units, "Numeric") || str_eq(units, "a") || str_eq(units, "mon") || str_eq(
            units,
            "d",
        ) || str_eq(units, "h") || str_eq(units, "min") || str_eq(units, "s") {
            UnitsKind::Numeric
        } else if str_eq(units, "Code table") || str_eq(units, "Flag table") {
            UnitsKind::Code
        } else {
            UnitsKind::Scaled
        }
    }
}

impl TableDEntry {
    pub fn new(fxy: String, group_name: String, elements: Vec<String>) -> (e: TableDEntry)
        ensures
            e == (TableDEntry { fxy, group_name, elements }),
    {
        TableDEntry { fxy, group_name, elements }
    }
}

/// The index of the first of `keys`, from index `from` on, that equals
/// `key`.
pub open spec fn find_key(keys: Seq<Seq<char>>, key: Seq<char>, from: int) -> Option<int>
    decreases keys.len() - from,
{
    if from < 0 || from >= keys.len() {
        None
    } else if keys[from] == key {
        Some(from)
    } else {
        find_key(keys, key, from + 1)
    }
}

/// What `find_key` finds lies in range and holds the key.
pub proof fn lemma_find_key(keys: Seq<Seq<char>>, key: Seq<char>, from: int)
    requires
        0 <= from,
    ensures
        find_key(keys, key, from) matches Some(i) ==> from <= i < keys.len() && keys[i] == key,
    decreases keys.len() - from,
{
    if from < keys.len() && keys[from] != key {
        lemma_find_key(keys, key, from + 1);
    }
}

/// No key occurs twice among `keys`.
pub open spec fn distinct(keys: Seq<Seq<char>>) -> bool {
    forall|i: int, j: int| 0 <= i < j < keys.len() ==> keys[i] != keys[j]
}

/// Where `find_key` finds nothing, the key is not there.
pub proof fn lemma_find_key_none(keys: Seq<Seq<char>>, key: Seq<char>, from: int)
    requires
        0 <= from,
        find_key(keys, key, from) is None,
    ensures
        forall|i: int| from <= i < keys.len() ==> keys[i] != key,
    decreases keys.len() - from,
{
    if from < keys.len() {
        lemma_find_key_none(keys, key, from + 1);
    }
}

/// With one more key at the end, `find_key` finds what it found before,
/// and the new key where it found nothing.
pub proof fn lemma_find_key_push(keys: Seq<Seq<char>>, more: Seq<char>, key: Seq<char>, from: int)
    requires
        0 <= from <= keys.len(),
    ensures
        find_key(keys.push(more), key, from) == match find_key(keys, key, from) {
            Some(i) => Some(i),
            None => if more == key {
                Some(keys.len() as int)
            } else {
                None
            },
        },
    decreases keys.len() - from,
{
    if from < keys.len() {
        assert(keys.push(more)[from] == keys[from]);
        if keys[from] != key {
            lemma_find_key_push(keys, more, key, from + 1);
        }
    } else {
        assert(keys.push(more)[from] == more);
        assert(find_key(keys.push(more), key, from + 1) is None);
    }
}

} // verus!
