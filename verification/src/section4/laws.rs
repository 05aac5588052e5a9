//! What holds of every decoding: how many bits it takes, and what becomes
//! of a field whose bits are all set.

use crate::bit_buffer::{bit_at, lemma_all_set};
use crate::error::BufrError;
use crate::section3::Descriptor;
use crate::section4::{
    remaining, spec_count, spec_dispatch, spec_element, spec_items, spec_repeat,
    spec_replication, spec_sequence, spec_value,
};
use crate::tables::table_b::keys_b;
use crate::tables::table_d::spec_parse_all;
use crate::tables::{lemma_find_key, units_kind, TableB, TableBEntry, TableD, UnitsKind};
use crate::types::structure::{StructureView, ValueView};
use vstd::prelude::*;

verus! {

/// The width of the element that Table B lists under `fxy`.
pub open spec fn width_of(tb: &TableB, fxy: Seq<char>) -> nat {
    match tb.lookup(fxy) {
        Some(entry) => entry.width_bits as nat,
        None => 0,
    }
}

/// The sum of the widths of the elements of `node`.
pub open spec fn node_bits(tb: &TableB, node: StructureView) -> nat
    decreases node, 0nat,
{
    match node {
        StructureView::Element(e) => width_of(tb, e.fxy),
        StructureView::Group(g) => nodes_bits(tb, g.items),
        StructureView::Replication(r) => nodes_bits(tb, r.items),
    }
}

/// The sum of the widths of the elements of `nodes`.
pub open spec fn nodes_bits(tb: &TableB, nodes: Seq<StructureView>) -> nat
    decreases nodes, 1nat,
{
    if nodes.len() == 0 {
        0
    } else {
        nodes_bits(tb, nodes.drop_last()) + node_bits(tb, nodes.last())
    }
}

proof fn lemma_nodes_bits_push(tb: &TableB, nodes: Seq<StructureView>, node: StructureView)
    ensures
        nodes_bits(tb, nodes.push(node)) == nodes_bits(tb, nodes) + node_bits(tb, node),
{
    assert(nodes.push(node).drop_last() =~= nodes);
}

/// An element that is decoded takes as many bits as Table B gives for it.
pub proof fn lemma_element_bits(tb: &TableB, buf: Seq<u8>, pos: nat, d: Descriptor)
    ensures
        spec_element(tb, buf, pos, d) matches Ok((e, after)) ==> after == pos + width_of(tb, e.fxy),
{
    if spec_element(tb, buf, pos, d) is Ok {
        lemma_find_key(keys_b(tb.entries()), d.canonical(), 0);
    }
}

proof fn lemma_dispatch_bits(
    tb: &TableB,
    td: &TableD,
    buf: Seq<u8>,
    pos: nat,
    list: Seq<Descriptor>,
    idx: nat,
    cursor: nat,
)
    requires
        td.wf(),
    ensures
        spec_dispatch(tb, td, buf, pos, list, idx, cursor) matches Ok((node, after, _, counts))
            ==> after == pos + node_bits(tb, node) + counts,
    decreases td.level(list), 1nat, remaining(list.len(), cursor), 2nat, 0nat,
{
    if idx < list.len() {
        let d = list[idx as int];
        if d.f == 0 {
            lemma_element_bits(tb, buf, pos, d);
        } else if d.f == 1 {
            lemma_replication_bits(tb, td, buf, pos, list, idx, cursor);
        } else if d.f == 3 {
            td.lemma_level_bound(list, idx as int);
            lemma_sequence_bits(tb, td, buf, pos, d);
        }
    }
}

proof fn lemma_sequence_bits(tb: &TableB, td: &TableD, buf: Seq<u8>, pos: nat, d: Descriptor)
    requires
        td.wf(),
    ensures
        spec_sequence(tb, td, buf, pos, d) matches Ok((g, after, counts)) ==> after == pos
            + nodes_bits(tb, g.items) + counts,
    decreases td.rank_of(d), 0nat, 0nat, 0nat, 0nat,
{
    if let Some(entry) = td.lookup(d.canonical()) {
        if let Ok(children) = spec_parse_all(entry.elements@) {
            td.lemma_children_level(d, children);
            lemma_items_bits(tb, td, buf, pos, children, 0, Seq::empty(), 0);
        }
    }
}

proof fn lemma_items_bits(
    tb: &TableB,
    td: &TableD,
    buf: Seq<u8>,
    pos: nat,
    list: Seq<Descriptor>,
    cursor: nat,
    acc: Seq<StructureView>,
    counts: nat,
)
    requires
        td.wf(),
    ensures
        spec_items(tb, td, buf, pos, list, cursor, acc, counts) matches Ok((nodes, after, total))
            ==> after + nodes_bits(tb, acc) + counts == pos + nodes_bits(tb, nodes) + total,
    decreases td.level(list), 1nat, remaining(list.len(), cursor), 3nat, 0nat,
{
    if cursor < list.len() {
        lemma_dispatch_bits(tb, td, buf, pos, list, cursor, cursor + 1);
        if let Ok((node, after, used, more)) = spec_dispatch(
            tb,
            td,
            buf,
            pos,
            list,
            cursor,
            cursor + 1,
        ) {
            lemma_nodes_bits_push(tb, acc, node);
            lemma_items_bits(
                tb,
                td,
                buf,
                after,
                list,
                cursor + 1 + used,
                acc.push(node),
                counts + more,
            );
        }
    }
}

proof fn lemma_replication_bits(
    tb: &TableB,
    td: &TableD,
    buf: Seq<u8>,
    pos: nat,
    list: Seq<Descriptor>,
    idx: nat,
    cursor: nat,
)
    requires
        td.wf(),
    ensures
        spec_replication(tb, td, buf, pos, list, idx, cursor) matches Ok((r, after, _, counts))
            ==> after == pos + nodes_bits(tb, r.items) + counts,
    decreases td.level(list), 1nat, remaining(list.len(), cursor), 1nat, 0nat,
{
    let d = list[idx as int];
    let covered = d.x as nat;
    if let Ok((count, after_count, start)) = spec_count(buf, pos, list, d, cursor) {
        if start + covered <= list.len() {
            lemma_repeat_bits(
                tb,
                td,
                buf,
                after_count,
                list,
                start,
                covered,
                0,
                count * covered,
                0,
                Seq::empty(),
                (after_count - pos) as nat,
            );
        }
    }
}

proof fn lemma_repeat_bits(
    tb: &TableB,
    td: &TableD,
    buf: Seq<u8>,
    pos: nat,
    list: Seq<Descriptor>,
    start: nat,
    covered: nat,
    extra: nat,
    total: nat,
    step: nat,
    acc: Seq<StructureView>,
    counts: nat,
)
    requires
        td.wf(),
    ensures
        spec_repeat(
            tb,
            td,
            buf,
            pos,
            list,
            start,
            covered,
            extra,
            total,
            step,
            acc,
            counts,
        ) matches Ok((nodes, after, _, sum)) ==> after + nodes_bits(tb, acc) + counts == pos
            + nodes_bits(tb, nodes) + sum,
    decreases td.level(list), 1nat, remaining(list.len(), start), 0nat, (total - step) as nat,
{
    if !(step >= total || covered == 0 || start + covered > list.len()) {
        let idx = start + step % covered;
        let cursor = start + covered + extra;
        lemma_dispatch_bits(tb, td, buf, pos, list, idx, cursor);
        if let Ok((node, after, used, more)) = spec_dispatch(tb, td, buf, pos, list, idx, cursor) {
            lemma_nodes_bits_push(tb, acc, node);
            lemma_repeat_bits(
                tb,
                td,
                buf,
                after,
                list,
                start,
                covered,
                extra + used,
                total,
                step + 1,
                acc.push(node),
                counts + more,
            );
        }
    }
}

/// The bits that a decoding takes are those of its elements, each as wide
/// as Table B gives it, and those of the counts of its delayed
/// replications.
pub proof fn lemma_decoded_bits(
    tb: &TableB,
    td: &TableD,
    buf: Seq<u8>,
    pos: nat,
    descriptors: Seq<Descriptor>,
)
    requires
        td.wf(),
    ensures
        spec_items(tb, td, buf, pos, descriptors, 0, Seq::empty(), 0) matches Ok(
            (nodes, after, counts),
        ) ==> after - pos == nodes_bits(tb, nodes) + counts,
{
    lemma_items_bits(tb, td, buf, pos, descriptors, 0, Seq::empty(), 0);
}

/// Whether each of the `bits` bits from bit `pos` of `bytes` on is set.
pub open spec fn all_set(bytes: Seq<u8>, pos: int, bits: nat) -> bool {
    forall|i: int| 0 <= i < bits ==> #[trigger] bit_at(bytes, pos + i) == 1
}

/// A field whose bits are all set decodes to the missing value, whatever
/// the reference value and the scale of the element, unless the element is
/// text, which has no missing value.
pub proof fn lemma_missing_value(buf: Seq<u8>, pos: nat, entry: TableBEntry)
    requires
        units_kind(entry.units@) != UnitsKind::Text,
        1 <= entry.width_bits <= 64,
        pos + entry.width_bits <= 8 * buf.len(),
        all_set(buf, pos as int, entry.width_bits as nat),
    ensures
        spec_value(buf, pos, entry) == Ok::<(ValueView, nat), (BufrError, nat)>(
            (ValueView::Missing, pos + entry.width_bits as nat),
        ),
{
    lemma_all_set(buf, pos as int, entry.width_bits as nat);
}

/// An element whose bits are all set decodes to the missing value, unless
/// it is text.
pub proof fn lemma_missing_element(tb: &TableB, buf: Seq<u8>, pos: nat, d: Descriptor)
    requires
        tb.lookup(d.canonical()) matches Some(entry) && units_kind(entry.units@) != UnitsKind::Text
            && 1 <= entry.width_bits <= 64 && pos + entry.width_bits <= 8 * buf.len() && all_set(
            buf,
            pos as int,
            entry.width_bits as nat,
        ),
    ensures
        spec_element(tb, buf, pos, d) matches Ok((e, _)) && e.val is Missing,
{
    lemma_missing_value(buf, pos, tb.lookup(d.canonical())->0);
}

/// Whether none of the `covered` descriptors of `list` from index `start`
/// on is a replication descriptor.
pub open spec fn plain(list: Seq<Descriptor>, start: nat, covered: nat) -> bool {
    forall|j: int| start <= j < start + covered ==> (#[trigger] list[j]).f != 1
}

proof fn lemma_repeat_takes_nothing(
    tb: &TableB,
    td: &TableD,
    buf: Seq<u8>,
    pos: nat,
    list: Seq<Descriptor>,
    start: nat,
    covered: nat,
    total: nat,
    step: nat,
    acc: Seq<StructureView>,
    counts: nat,
)
    requires
        td.wf(),
        plain(list, start, covered),
    ensures
        spec_repeat(tb, td, buf, pos, list, start, covered, 0, total, step, acc, counts) matches Ok(
            (_, _, extra, _),
        ) ==> extra == 0,
    decreases total - step,
{
    if !(step >= total || covered == 0 || start + covered > list.len()) {
        let idx = start + step % covered;
        assert(list[idx as int].f != 1);
        if let Ok((node, after, used, more)) = spec_dispatch(
            tb,
            td,
            buf,
            pos,
            list,
            idx,
            start + covered,
        ) {
            lemma_repeat_takes_nothing(
                tb,
                td,
                buf,
                after,
                list,
                start,
                covered,
                total,
                step + 1,
                acc.push(node),
                counts + more,
            );
        }
    }
}

/// A replication that covers no replication takes, of the descriptors
/// after it, those that it covers, and one more where it is delayed.
pub proof fn lemma_replication_takes_what_it_covers(
    tb: &TableB,
    td: &TableD,
    buf: Seq<u8>,
    pos: nat,
    list: Seq<Descriptor>,
    idx: nat,
    cursor: nat,
)
    requires
        td.wf(),
        idx < list.len(),
        plain(
            list,
            if list[idx as int].y == 0 {
                cursor + 1
            } else {
                cursor
            },
            list[idx as int].x as nat,
        ),
    ensures
        spec_replication(tb, td, buf, pos, list, idx, cursor) matches Ok((_, _, used, _)) ==> used
            == list[idx as int].x + if list[idx as int].y == 0 {
            1nat
        } else {
            0nat
        },
{
    let d = list[idx as int];
    let covered = d.x as nat;
    if let Ok((count, after_count, start)) = spec_count(buf, pos, list, d, cursor) {
        if start + covered <= list.len() {
            lemma_repeat_takes_nothing(
                tb,
                td,
                buf,
                after_count,
                list,
                start,
                covered,
                count * covered,
                0,
                Seq::empty(),
                (after_count - pos) as nat,
            );
        }
    }
}

} // verus!
