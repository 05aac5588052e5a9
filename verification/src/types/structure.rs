//! The tree that the data section decodes to.

use crate::decimal::Decimal;
use vstd::prelude::*;

verus! {

/// The value of an element.
#[derive(Debug)]
pub enum Value {
    /// Every bit of the field was set.
    Missing,
    /// A scaled number.
    Float(Decimal),
    /// An entry of a code table or a flag table.
    Code(u64),
    /// A whole number.
    Numeric(i64),
    /// Text.
    Str(String),
}

/// A `Value` with its text as a sequence of characters.
pub enum ValueView {
    Missing,
    Float(Decimal),
    Code(u64),
    Numeric(i64),
    Str(Seq<char>),
}

impl View for Value {
    type V = ValueView;

    open spec fn view(&self) -> ValueView {
        match self {
            Value::Missing => ValueView::Missing,
            Value::Float(d) => ValueView::Float(*d),
            Value::Code(c) => ValueView::Code(*c),
            Value::Numeric(n) => ValueView::Numeric(*n),
            Value::Str(s) => ValueView::Str(s@),
        }
    }
}

/// One decoded element: its value, and the table entry it was decoded by.
#[derive(Debug)]
pub struct Element {
    val: Value,
    fxy: String,
    units: String,
    name: String,
}

pub struct ElementView {
    pub val: ValueView,
    pub fxy: Seq<char>,
    pub units: Seq<char>,
    pub name: Seq<char>,
}

impl View for Element {
    type V = ElementView;

    closed spec fn view(&self) -> ElementView {
        ElementView { val: self.val@, fxy: self.fxy@, units: self.units@, name: self.name@ }
    }
}

/// The expansion of a sequence descriptor.
#[derive(Debug)]
pub struct Group {
    items: Vec<Structure>,
    fxy: String,
    name: String,
}

pub struct GroupView {
    pub items: Seq<StructureView>,
    pub fxy: Seq<char>,
    pub name: Seq<char>,
}

/// The repetitions of the descriptors that a replication descriptor
/// covers, one after the other.
#[derive(Debug)]
pub struct Replication {
    items: Vec<Structure>,
}

pub struct ReplicationView {
    pub items: Seq<StructureView>,
}

/// A node of the tree.
#[derive(Debug)]
pub enum Structure {
    Element(Element),
    Group(Group),
    Replication(Replication),
}

pub enum StructureView {
    Element(ElementView),
    Group(GroupView),
    Replication(ReplicationView),
}

/// The views of `items`, in order.
pub open spec fn items_view(items: Seq<Structure>) -> Seq<StructureView>
    decreases items, 0nat,
{
    if items.len() == 0 {
        Seq::empty()
    } else {
        items_view(items.drop_last()).push(items.last().view())
    }
}

impl View for Group {
    type V = GroupView;

    closed spec fn view(&self) -> GroupView
        decreases self, 1nat,
    {
        GroupView { items: items_view(self.items@), fxy: self.fxy@, name: self.name@ }
    }
}

impl View for Replication {
    type V = ReplicationView;

    closed spec fn view(&self) -> ReplicationView
        decreases self, 1nat,
    {
        ReplicationView { items: items_view(self.items@) }
    }
}

impl View for Structure {
    type V = StructureView;

    open spec fn view(&self) -> StructureView
        decreases self, 2nat,
    {
        match self {
            Structure::Element(e) => StructureView::Element(e@),
            Structure::Group(g) => StructureView::Group(g@),
            Structure::Replication(r) => StructureView::Replication(r@),
        }
    }
}

/// The view of a list has one view for each item, in order.
pub proof fn lemma_items_view(items: Seq<Structure>)
    ensures
        items_view(items).len() == items.len(),
        forall|i: int| 0 <= i < items.len() ==> (#[trigger] items_view(items)[i]) == items[i]@,
    decreases items.len(),
{
    if items.len() > 0 {
        lemma_items_view(items.drop_last());
        assert(items_view(items) == items_view(items.drop_last()).push(items.last().view()));
    } else {
        assert(items_view(items) == Seq::<StructureView>::empty());
    }
}

/// The view of a list with one more item is the view of the list with
/// the view of the item after it.
pub proof fn lemma_items_view_push(items: Seq<Structure>, item: Structure)
    ensures
        items_view(items.push(item)) == items_view(items).push(item@),
{
    assert(items.push(item).drop_last() =~= items);
}

impl Element {
    pub fn new(val: Value, units: String, name: String, fxy: String) -> (e: Element)
        ensures
            e@ == (ElementView { val: val@, fxy: fxy@, units: units@, name: name@ }),
    {
        Self { val, units, name, fxy }
    }

    /// The text, where the value is text.
    pub fn get_str_val(&self) -> (r: Option<&str>)
        ensures
            match self@.val {
                ValueView::Str(s) => r matches Some(t) && t@ == s,
                _ => r is None,
            },
    {
        if let Value::Str(ref str_val) = self.val {
            Some(str_val.as_str())
        } else {
            None
        }
    }

    /// The number, where the value is a whole number that fits.
    pub fn get_i32_val(&self) -> (r: Option<i32>)
        ensures
            r == match self@.val {
                ValueView::Numeric(n) => if i32::MIN <= n <= i32::MAX {
                    Some(n as i32)
                } else {
                    None
                },
                _ => None,
            },
    {
        if let Value::Numeric(num) = self.val {
            if num < i32::MIN as i64 || num > i32::MAX as i64 {
                None
            } else {
                Some(num as i32)
            }
        } else {
            None
        }
    }

    /// The number, where the value is a whole number that is not negative
    /// and fits.
    pub fn get_u32_val(&self) -> (r: Option<u32>)
        ensures
            r == match self@.val {
                ValueView::Numeric(n) => if 0 <= n <= u32::MAX {
                    Some(n as u32)
                } else {
                    None
                },
                _ => None,
            },
    {
        if let Value::Numeric(num) = self.val {
            if num < 0 || num > u32::MAX as i64 {
                None
            } else {
                Some(num as u32)
            }
        } else {
            None
        }
    }

    /// The scaled number, where the value is one.
    pub fn get_decimal_val(&self) -> (r: Option<Decimal>)
        ensures
            r == match self@.val {
                ValueView::Float(d) => Some(d),
                _ => None,
            },
    {
        if let Value::Float(num) = self.val {
            Some(num)
        } else {
            None
        }
    }

    /// The table entry, where the value is one of a code or flag table.
    pub fn get_code_val(&self) -> (r: Option<u64>)
        ensures
            r == match self@.val {
                ValueView::Code(c) => Some(c),
                _ => None,
            },
    {
        if let Value::Code(c) = self.val {
            Some(c)
        } else {
            None
        }
    }

    /// Whether the field held the missing value.
    pub fn is_missing(&self) -> (r: bool)
        ensures
            r == (self@.val is Missing),
    {
        if let Value::Missing = self.val {
            true
        } else {
            false
        }
    }

    /// The canonical text of the element's descriptor.
    pub fn code(&self) -> (r: &str)
        ensures
            r@ == self@.fxy,
    {
        self.fxy.as_str()
    }

    pub fn units(&self) -> (r: &str)
        ensures
            r@ == self@.units,
    {
        self.units.as_str()
    }

    pub fn name(&self) -> (r: &str)
        ensures
            r@ == self@.name,
    {
        self.name.as_str()
    }

    pub fn value(&self) -> (r: &Value)
        ensures
            r@ == self@.val,
    {
        &self.val
    }
}

impl Group {
    /// An empty group with room for `cap` items.
    pub fn new_with_capacity(cap: usize, name: String, fxy: String) -> (g: Group)
        ensures
            g@ == (GroupView { items: Seq::empty(), fxy: fxy@, name: name@ }),
    {
        Group { name, fxy, items: Vec::with_capacity(cap) }
    }

    pub fn push(&mut self, structure: Structure)
        ensures
            final(self)@ == (GroupView {
                items: old(self)@.items.push(structure@),
                ..old(self)@
            }),
    {
        proof {
            lemma_items_view_push(self.items@, structure);
        }
        self.items.push(structure);
    }

    /// The canonical text of the group's descriptor.
    pub fn code(&self) -> (r: &str)
        ensures
            r@ == self@.fxy,
    {
        self.fxy.as_str()
    }

    pub fn name(&self) -> (r: &str)
        ensures
            r@ == self@.name,
    {
        self.name.as_str()
    }

    pub fn items(&self) -> (r: &[Structure])
        ensures
            items_view(r@) == self@.items,
    {
        self.items.as_slice()
    }
}

impl Replication {
    /// An empty replication with room for `cap` items.
    pub fn new_with_capacity(cap: usize) -> (r: Replication)
        ensures
            r@ == (ReplicationView { items: Seq::empty() }),
    {
        Replication { items: Vec::with_capacity(cap) }
    }

    pub fn push(&mut self, structure: Structure)
        ensures
            final(self)@ == (ReplicationView { items: old(self)@.items.push(structure@) }),
    {
        proof {
            lemma_items_view_push(self.items@, structure);
        }
        self.items.push(structure);
    }

    /// The number of items, over all repetitions.
    pub fn len(&self) -> (n: usize)
        ensures
            n == self@.items.len(),
    {
        proof {
            lemma_items_view(self.items@);
        }
        self.items.len()
    }

    pub fn items(&self) -> (r: &[Structure])
        ensures
            items_view(r@) == self@.items,
    {
        self.items.as_slice()
    }
}

impl Structure {
    /// The name of the node in a path: the canonical text of its
    /// descriptor, or `repeat` for a replication.
    pub fn path(&self) -> (r: &str)
        ensures
            r@ == match self@ {
                StructureView::Element(e) => e.fxy,
                StructureView::Replication(_) => "repeat"@,
                StructureView::Group(g) => g.fxy,
            },
    {
        match self {
            Self::Element(e) => e.code(),
            Self::Replication(_) => "repeat",
            Self::Group(g) => g.code(),
        }
    }
}

} // verus!
