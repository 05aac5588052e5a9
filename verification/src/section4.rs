//! Section 4: the data section, decoded as the descriptors direct.

use crate::bit_buffer::{
    consumed, lemma_bits_value_bound, spec_read_decimal, spec_read_i64, spec_read_text,
    spec_read_u64, spec_read_usize, BitBuffer,
};
use crate::error::{BufrError, ErrorKind};
use crate::section2::{framed, read_frame, section_size};
use crate::section3::Descriptor;
use crate::stream::ByteStream;
use crate::tables::table_d::spec_parse_all;
use crate::tables::{units_kind, TableB, TableBEntry, TableD, UnitsKind};
use crate::types::structure::{
    items_view, lemma_items_view_push, Element, ElementView, Group, GroupView, Replication,
    ReplicationView, Structure, StructureView, Value, ValueView,
};
use crate::types::{BufrMessageBuilder, MessageView};
use vstd::arithmetic::power2::lemma2_to64;
use vstd::prelude::*;

pub mod laws;

verus! {

/// The value of the element that `entry` defines, read at bit `pos` of
/// `buf`, and the position after it. A failure holds the error and the
/// position at which the buffer is left: a number that is read but does
/// not fit is consumed.
pub open spec fn spec_value(buf: Seq<u8>, pos: nat, entry: TableBEntry) -> Result<
    (ValueView, nat),
    (BufrError, nat),
> {
    let bits = entry.width_bits as nat;
    match units_kind(entry.units@) {
        UnitsKind::Text => match spec_read_text(buf, pos, bits) {
            Ok(s) => Ok((ValueView::Str(s), pos + bits)),
            Err(e) => Err((e, pos)),
        },
        UnitsKind::Numeric => match spec_read_i64(buf, pos, bits, entry.reference_val) {
            Ok(Some(n)) => Ok((ValueView::Numeric(n), pos + bits)),
            Ok(None) => Ok((ValueView::Missing, pos + bits)),
            Err(e) => Err((e, pos + consumed(buf, pos, bits))),
        },
        UnitsKind::Code => match spec_read_u64(buf, pos, bits) {
            Ok(Some(c)) => Ok((ValueView::Code(c), pos + bits)),
            Ok(None) => Ok((ValueView::Missing, pos + bits)),
            Err(e) => Err((e, pos)),
        },
        UnitsKind::Scaled => match spec_read_decimal(
            buf,
            pos,
            bits,
            entry.reference_val,
            entry.scale_val,
        ) {
            Ok(Some(d)) => Ok((ValueView::Float(d), pos + bits)),
            Ok(None) => Ok((ValueView::Missing, pos + bits)),
            Err(e) => Err((e, pos + consumed(buf, pos, bits))),
        },
    }
}

/// The element that the descriptor `d` stands for, read at bit `pos` of
/// `buf`, and the position after it. A failure holds the error and the
/// position at which the buffer is left; a descriptor that Table B lacks
/// consumes nothing.
pub open spec fn spec_element(tb: &TableB, buf: Seq<u8>, pos: nat, d: Descriptor) -> Result<
    (ElementView, nat),
    (BufrError, nat),
> {
    match tb.lookup(d.canonical()) {
        None => Err((BufrError::bare(ErrorKind::UnknownDescriptor).spec_at(d), pos)),
        Some(entry) => match spec_value(buf, pos, entry) {
            Err((e, at)) => Err((e.spec_at(d), at)),
            Ok((val, after)) => Ok(
                (
                    ElementView {
                        val,
                        fxy: entry.fxy@,
                        units: entry.units@,
                        name: entry.element_name@,
                    },
                    after,
                ),
            ),
        },
    }
}

/// How many of the descriptors of a list of `len` lie at or after index
/// `cursor`.
pub open spec fn remaining(len: nat, cursor: nat) -> nat {
    if cursor <= len {
        (len - cursor) as nat
    } else {
        0
    }
}

/// The number of bits that hold the count of a delayed replication, as the
/// descriptor `c` after the replication descriptor gives it.
pub open spec fn spec_count_width(c: Descriptor) -> Result<nat, BufrError> {
    if !(c.f == 0 && c.x == 31) {
        Err(BufrError::bare(ErrorKind::InvalidLayout).spec_at(c))
    } else if c.y == 1 {
        Ok(8)
    } else if c.y == 2 {
        Ok(16)
    } else {
        Err(BufrError::bare(ErrorKind::UnsupportedFeature).spec_at(c))
    }
}

/// The node that the descriptor at index `idx` of `list` stands for, read
/// at bit `pos` of `buf`, with the descriptors from index `cursor` on still
/// to be taken. The result holds the node, the position after it, how
/// many descriptors from `cursor` on the node took, and how many bits the
/// counts of delayed replications took within the node. A failure holds
/// the error, the position at which the buffer is left, and the index of
/// the next descriptor to take.
pub open spec fn spec_dispatch(
    tb: &TableB,
    td: &TableD,
    buf: Seq<u8>,
    pos: nat,
    list: Seq<Descriptor>,
    idx: nat,
    cursor: nat,
) -> Result<(StructureView, nat, nat, nat), (BufrError, nat, nat)>
    recommends
        idx < list.len(),
    decreases td.level(list), 1nat, remaining(list.len(), cursor), 2nat, 0nat,
{
    let d = list[idx as int];
    if idx >= list.len() {
        Err((BufrError::bare(ErrorKind::InvalidLayout), pos, cursor))
    } else if d.f == 0 {
        match spec_element(tb, buf, pos, d) {
            Err((e, at)) => Err((e, at, cursor)),
            Ok((e, after)) => Ok((StructureView::Element(e), after, 0, 0)),
        }
    } else if d.f == 1 {
        match spec_replication(tb, td, buf, pos, list, idx, cursor) {
            Err(e) => Err(e),
            Ok((r, after, used, counts)) => Ok(
                (StructureView::Replication(r), after, used, counts),
            ),
        }
    } else if d.f == 3 {
        proof {
            td.lemma_level_bound(list, idx as int);
        }
        match spec_sequence(tb, td, buf, pos, d) {
            Err((e, at)) => Err((e, at, cursor)),
            Ok((g, after, counts)) => Ok((StructureView::Group(g), after, 0, counts)),
        }
    } else {
        Err((BufrError::bare(ErrorKind::UnsupportedFeature).spec_at(d), pos, cursor))
    }
}

/// The group that the sequence descriptor `d` expands to, read at bit
/// `pos` of `buf`, the position after it, and how many bits the counts of
/// delayed replications took within it. A failure holds the error and the
/// position at which the buffer is left; a descriptor that Table D lacks,
/// and an entry that spells no descriptor, consume nothing.
pub open spec fn spec_sequence(
    tb: &TableB,
    td: &TableD,
    buf: Seq<u8>,
    pos: nat,
    d: Descriptor,
) -> Result<(GroupView, nat, nat), (BufrError, nat)>
    recommends
        td.wf(),
    decreases td.rank_of(d), 0nat, 0nat, 0nat, 0nat,
    when td.wf()
{
    match td.lookup(d.canonical()) {
        None => Err((BufrError::bare(ErrorKind::UnknownDescriptor).spec_at(d), pos)),
        Some(entry) => match spec_parse_all(entry.elements@) {
            Err(e) => Err((e.spec_at(d), pos)),
            Ok(children) => {
                proof {
                    td.lemma_children_level(d, children);
                }
                match spec_items(tb, td, buf, pos, children, 0, Seq::empty(), 0) {
                    Err((e, at, _)) => Err((e, at)),
                    Ok((items, after, counts)) => Ok(
                        (
                            GroupView { items, fxy: entry.fxy@, name: entry.group_name@ },
                            after,
                            counts,
                        ),
                    ),
                }
            },
        },
    }
}

/// The nodes that the descriptors of `list` from index `cursor` on stand
/// for, read at bit `pos` of `buf` and put after `acc`, the position after
/// them, and `counts` with the bits that the counts of delayed replications
/// took within them.
pub open spec fn spec_items(
    tb: &TableB,
    td: &TableD,
    buf: Seq<u8>,
    pos: nat,
    list: Seq<Descriptor>,
    cursor: nat,
    acc: Seq<StructureView>,
    counts: nat,
) -> Result<(Seq<StructureView>, nat, nat), (BufrError, nat, nat)>
    decreases td.level(list), 1nat, remaining(list.len(), cursor), 3nat, 0nat,
{
    if cursor >= list.len() {
        Ok((acc, pos, counts))
    } else {
        match spec_dispatch(tb, td, buf, pos, list, cursor, cursor + 1) {
            Err(e) => Err(e),
            Ok((node, after, used, more)) => spec_items(
                tb,
                td,
                buf,
                after,
                list,
                cursor + 1 + used,
                acc.push(node),
                counts + more,
            ),
        }
    }
}

/// The replication that the descriptor at index `idx` of `list` stands
/// for. It covers the `X` descriptors that follow at index `cursor`, after
/// the descriptor of the count where the replication is delayed.
pub open spec fn spec_replication(
    tb: &TableB,
    td: &TableD,
    buf: Seq<u8>,
    pos: nat,
    list: Seq<Descriptor>,
    idx: nat,
    cursor: nat,
) -> Result<(ReplicationView, nat, nat, nat), (BufrError, nat, nat)>
    decreases td.level(list), 1nat, remaining(list.len(), cursor), 1nat, 0nat,
{
    let d = list[idx as int];
    let covered = d.x as nat;
    match spec_count(buf, pos, list, d, cursor) {
        Err(e) => Err(e),
        Ok((count, after_count, start)) => if start + covered > list.len() {
            Err((BufrError::bare(ErrorKind::InvalidLayout).spec_at(d), after_count, start))
        } else {
            match spec_repeat(
                tb,
                td,
                buf,
                after_count,
                list,
                start,
                covered,
                0,
                count * covered,
                0,
                Seq::empty(),
                (after_count - pos) as nat,
            ) {
                Err(e) => Err(e),
                Ok((items, after, extra, counts)) => Ok(
                    (
                        ReplicationView { items },
                        after,
                        (start - cursor + covered + extra) as nat,
                        counts,
                    ),
                ),
            }
        },
    }
}

/// How often the replication descriptor `d` repeats: its `Y`, or, where
/// that is 0, the count read at bit `pos` of `buf` in the width that the
/// descriptor at index `cursor` gives. The result holds the count, the
/// position after it, and the index of the first covered descriptor. A
/// failure holds the error, the position at which the buffer is left, and
/// the index of the next descriptor to take.
pub open spec fn spec_count(
    buf: Seq<u8>,
    pos: nat,
    list: Seq<Descriptor>,
    d: Descriptor,
    cursor: nat,
) -> Result<(nat, nat, nat), (BufrError, nat, nat)> {
    if d.y != 0 {
        Ok((d.y as nat, pos, cursor))
    } else if cursor >= list.len() {
        Err((BufrError::bare(ErrorKind::InvalidLayout).spec_at(d), pos, cursor))
    } else {
        let c = list[cursor as int];
        match spec_count_width(c) {
            Err(e) => Err((e, pos, cursor + 1)),
            Ok(width) => match spec_read_usize(buf, pos, width) {
                Err(e) => Err((e.spec_at(c), pos + consumed(buf, pos, width), cursor + 1)),
                Ok(count) => Ok((count as nat, pos + width, cursor + 1)),
            },
        }
    }
}

/// The nodes of a replication from its step `step` on, out of `total`
/// steps, put after `acc`. The replication covers the `covered`
/// descriptors of `list` from index `start` on; step `t` decodes the one at
/// index `start + t % covered`. A replication that covers nothing has no
/// steps. The descriptors that nested replications
/// take come after the covered ones; `extra` of them are taken already.
/// `counts` is the number of bits that counts of delayed replications have
/// taken so far.
pub open spec fn spec_repeat(
    tb: &TableB,
    td: &TableD,
    buf: Seq<u8>,
    pos: nat,
    list: Seq<Descriptor>,
    start: nat,
    covered: nat,
    extra: nat,
    total: nat,
    step: nat,
    acc: Seq<StructureView>,
    counts: nat,
) -> Result<(Seq<StructureView>, nat, nat, nat), (BufrError, nat, nat)>
    decreases td.level(list), 1nat, remaining(list.len(), start), 0nat, (total - step) as nat,
{
    if step >= total || covered == 0 || start + covered > list.len() {
        Ok((acc, pos, extra, counts))
    } else {
        match spec_dispatch(
            tb,
            td,
            buf,
            pos,
            list,
            start + step % covered,
            start + covered + extra,
        ) {
            Err(e) => Err(e),
            Ok((node, after, used, more)) => spec_repeat(
                tb,
                td,
                buf,
                after,
                list,
                start,
                covered,
                extra + used,
                total,
                step + 1,
                acc.push(node),
                counts + more,
            ),
        }
    }
}

/// Reads the value of the element that `entry` defines.
fn read_value(f: &mut BitBuffer, entry: &TableBEntry) -> (r: Result<Value, BufrError>)
    ensures
        final(f).bytes() == old(f).bytes(),
        match spec_value(old(f).bytes(), old(f).position(), *entry) {
            Ok((val, after)) => r matches Ok(v) && v@ == val && final(f).position() == after,
            Err((e, at)) => r matches Err(x) && x == e && final(f).position() == at,
        },
{
    let bits = entry.width_bits;
    match entry.kind() {
        UnitsKind::Text => Ok(Value::Str(f.read_text(bits)?)),
        UnitsKind::Numeric => match f.read_i64(bits, entry.reference_val)? {
            Some(n) => Ok(Value::Numeric(n)),
            None => Ok(Value::Missing),
        },
        UnitsKind::Code => match f.read_u64(bits)? {
            Some(c) => Ok(Value::Code(c)),
            None => Ok(Value::Missing),
        },
        UnitsKind::Scaled => match f.read_decimal(bits, entry.reference_val, entry.scale_val)? {
            Some(d) => Ok(Value::Float(d)),
            None => Ok(Value::Missing),
        },
    }
}

/// Decodes the element that `desc` stands for: resolves it against Table B
/// and reads its value as the units of the entry say.
pub fn read_element_descriptor(f: &mut BitBuffer, desc: &Descriptor, tb: &TableB) -> (r: Result<
    Element,
    BufrError,
>)
    ensures
        final(f).bytes() == old(f).bytes(),
        match spec_element(tb, old(f).bytes(), old(f).position(), *desc) {
            Ok((element, after)) => r matches Ok(e) && e@ == element && final(f).position()
                == after,
            Err((e, at)) => r matches Err(x) && x == e && final(f).position() == at,
        },
{
    let key = desc.string_form();
    let entry = match tb.get(&key) {
        Some(entry) => entry,
        None => {
            return Err(BufrError::new(ErrorKind::UnknownDescriptor).at(*desc));
        },
    };
    let value = match read_value(f, entry) {
        Ok(value) => value,
        Err(e) => {
            return Err(e.at(*desc));
        },
    };
    Ok(Element::new(value, entry.units.clone(), entry.element_name.clone(), entry.fxy.clone()))
}

/// Parses the canonical texts `texts`, in order.
fn parse_all(texts: &Vec<String>) -> (r: Result<Vec<Descriptor>, BufrError>)
    ensures
        match spec_parse_all(texts@) {
            Ok(parsed) => r matches Ok(v) && v@ == parsed,
            Err(e) => r matches Err(x) && x == e,
        },
{
    let mut out: Vec<Descriptor> = Vec::with_capacity(texts.len());
    let mut i: usize = 0;
    while i < texts.len()
        invariant
            i <= texts.len(),
            spec_parse_all(texts@.subrange(0, i as int)) == Ok::<Seq<Descriptor>, BufrError>(out@),
        decreases texts.len() - i,
    {
        assert(texts@.subrange(0, i + 1).drop_last() =~= texts@.subrange(0, i as int));
        let d = match Descriptor::from_string_form(texts[i].as_str()) {
            Ok(d) => d,
            Err(e) => {
                proof {
                    lemma_parse_error_stays(texts@, i + 1);
                }
                return Err(e);
            },
        };
        out.push(d);
        i = i + 1;
    }
    assert(texts@.subrange(0, i as int) =~= texts@);
    Ok(out)
}

/// Where the first `n` texts do not all parse, the texts do not all parse,
/// and the error is the same.
proof fn lemma_parse_error_stays(texts: Seq<String>, n: int)
    requires
        0 <= n <= texts.len(),
        spec_parse_all(texts.subrange(0, n)) is Err,
    ensures
        spec_parse_all(texts) == spec_parse_all(texts.subrange(0, n)),
    decreases texts.len() - n,
{
    if n < texts.len() {
        assert(texts.subrange(0, n + 1).drop_last() =~= texts.subrange(0, n));
        lemma_parse_error_stays(texts, n + 1);
    } else {
        assert(texts.subrange(0, n) =~= texts);
    }
}

/// Decodes the node that the descriptor at index `idx` of `list` stands
/// for. A replication takes the descriptors that it covers from `cursor`
/// on and moves `cursor` past them.
pub fn read_descriptor(
    f: &mut BitBuffer,
    list: &Vec<Descriptor>,
    idx: usize,
    cursor: &mut usize,
    tb: &TableB,
    td: &TableD,
) -> (r: Result<Structure, BufrError>)
    requires
        idx < list.len(),
        *old(cursor) <= list.len(),
    ensures
        final(f).bytes() == old(f).bytes(),
        *old(cursor) <= *final(cursor) <= list.len(),
        match spec_dispatch(
            tb,
            td,
            old(f).bytes(),
            old(f).position(),
            list@,
            idx as nat,
            *old(cursor) as nat,
        ) {
            Ok((node, after, used, _)) => r matches Ok(s) && s@ == node && final(f).position()
                == after && *final(cursor) == *old(cursor) + used,
            Err((e, at, next)) => r matches Err(x) && x == e && final(f).position() == at
                && *final(cursor) == next,
        },
    decreases td.level(list@), 1nat, remaining(list@.len(), *old(cursor) as nat), 2nat, 0nat,
{
    proof {
        use_type_invariant(td);
    }
    let descriptor = &list[idx];
    match descriptor.f_value() {
        0 => Ok(Structure::Element(read_element_descriptor(f, descriptor, tb)?)),
        1 => Ok(Structure::Replication(read_replication_descriptor(f, list, idx, cursor, tb, td)?)),
        3 => {
            proof {
                td.lemma_level_bound(list@, idx as int);
            }
            Ok(Structure::Group(read_sequence_descriptor(f, descriptor, tb, td)?))
        },
        _ => Err(BufrError::new(ErrorKind::UnsupportedFeature).at(*descriptor)),
    }
}

/// Reads how often the replication descriptor `desc` repeats: its `Y`, or,
/// where that is 0, the count that the data holds, in the width that the
/// next descriptor gives.
fn read_count(
    f: &mut BitBuffer,
    list: &Vec<Descriptor>,
    desc: &Descriptor,
    cursor: &mut usize,
) -> (r: Result<usize, BufrError>)
    requires
        *old(cursor) <= list.len(),
    ensures
        final(f).bytes() == old(f).bytes(),
        *old(cursor) <= *final(cursor) <= list.len(),
        match spec_count(old(f).bytes(), old(f).position(), list@, *desc, *old(cursor) as nat) {
            Ok((count, after, start)) => r matches Ok(n) && n == count && final(f).position()
                == after && *final(cursor) == start,
            Err((e, at, next)) => r matches Err(x) && x == e && final(f).position() == at
                && *final(cursor) == next,
        },
        r matches Ok(n) ==> n <= 0xFFFF,
{
    if desc.y_value() != 0 {
        return Ok(desc.y_value() as usize);
    }
    if *cursor >= list.len() {
        return Err(BufrError::new(ErrorKind::InvalidLayout).at(*desc));
    }
    let reps = &list[*cursor];
    *cursor = *cursor + 1;
    if !(reps.f_value() == 0 && reps.x_value() == 31) {
        return Err(BufrError::new(ErrorKind::InvalidLayout).at(*reps));
    }
    let bits: usize = match reps.y_value() {
        1 => 8,
        2 => 16,
        _ => {
            return Err(BufrError::new(ErrorKind::UnsupportedFeature).at(*reps));
        },
    };
    proof {
        lemma_bits_value_bound(f.bytes(), f.position() as int, bits as nat);
        lemma2_to64();
    }
    match f.read_usize(bits) {
        Ok(count) => Ok(count),
        Err(e) => Err(e.at(*reps)),
    }
}

/// Decodes the replication that the descriptor at index `idx` of `list`
/// stands for. The descriptors that it covers are the next `X` at
/// `cursor`, after the descriptor of the count where the replication is
/// delayed; each repetition decodes them in turn, and a replication among
/// them takes its own from `cursor` in the same way.
pub fn read_replication_descriptor(
    f: &mut BitBuffer,
    list: &Vec<Descriptor>,
    idx: usize,
    cursor: &mut usize,
    tb: &TableB,
    td: &TableD,
) -> (r: Result<Replication, BufrError>)
    requires
        idx < list.len(),
        *old(cursor) <= list.len(),
    ensures
        final(f).bytes() == old(f).bytes(),
        *old(cursor) <= *final(cursor) <= list.len(),
        match spec_replication(
            tb,
            td,
            old(f).bytes(),
            old(f).position(),
            list@,
            idx as nat,
            *old(cursor) as nat,
        ) {
            Ok((replication, after, used, _)) => r matches Ok(x) && x@ == replication
                && final(f).position() == after && *final(cursor) == *old(cursor) + used,
            Err((e, at, next)) => r matches Err(x) && x == e && final(f).position() == at
                && *final(cursor) == next,
        },
    decreases td.level(list@), 1nat, remaining(list@.len(), *old(cursor) as nat), 1nat, 0nat,
{
    let desc = &list[idx];
    let num_descriptors = desc.x_value() as usize;
    let num_repetitions = read_count(f, list, desc, cursor)?;
    let start = *cursor;
    if num_descriptors > list.len() - start {
        return Err(BufrError::new(ErrorKind::InvalidLayout).at(*desc));
    }
    *cursor = start + num_descriptors;
    assert(num_repetitions * num_descriptors <= 0xFFFF * 0xFF) by (nonlinear_arith)
        requires
            num_repetitions <= 0xFFFF,
            num_descriptors <= 0xFF,
    ;
    let total: usize = num_repetitions * num_descriptors;
    let ghost after_count = f.position();
    let mut rep = Replication::new_with_capacity(num_repetitions);
    let ghost count_bits = (after_count - old(f).position()) as nat;
    let ghost mut counts = count_bits;
    let mut step: usize = 0;
    while step < total
        invariant
            step <= total,
            total == num_repetitions * num_descriptors,
            idx < list.len(),
            num_descriptors == list@[idx as int].x,
            start + num_descriptors <= *cursor <= list.len(),
            *old(cursor) <= start,
            f.bytes() == old(f).bytes(),
            spec_repeat(
                tb,
                td,
                old(f).bytes(),
                after_count,
                list@,
                start as nat,
                num_descriptors as nat,
                0,
                total as nat,
                0,
                Seq::empty(),
                count_bits,
            ) == spec_repeat(
                tb,
                td,
                old(f).bytes(),
                f.position(),
                list@,
                start as nat,
                num_descriptors as nat,
                (*cursor - start - num_descriptors) as nat,
                total as nat,
                step as nat,
                rep@.items,
                counts,
            ),
            count_bits == after_count - old(f).position(),
            spec_count(
                old(f).bytes(),
                old(f).position(),
                list@,
                list@[idx as int],
                *old(cursor) as nat,
            ) == Ok::<(nat, nat, nat), (BufrError, nat, nat)>(
                (num_repetitions as nat, after_count, start as nat),
            ),
        decreases total - step,
    {
        assert(num_descriptors > 0) by (nonlinear_arith)
            requires
                step < total,
                total == num_repetitions * num_descriptors,
        ;
        let covered = start + step % num_descriptors;
        let ghost outcome = spec_dispatch(
            tb,
            td,
            f.bytes(),
            f.position(),
            list@,
            covered as nat,
            *cursor as nat,
        );
        let structure = read_descriptor(f, list, covered, cursor, tb, td)?;
        proof {
            counts = counts + outcome->Ok_0.3;
        }
        rep.push(structure);
        step = step + 1;
    }
    Ok(rep)
}

/// Decodes the group that the sequence descriptor `desc` expands to:
/// resolves it against Table D and decodes the descriptors listed there, in
/// order.
pub fn read_sequence_descriptor(
    f: &mut BitBuffer,
    desc: &Descriptor,
    tb: &TableB,
    td: &TableD,
) -> (r: Result<Group, BufrError>)
    ensures
        final(f).bytes() == old(f).bytes(),
        match spec_sequence(tb, td, old(f).bytes(), old(f).position(), *desc) {
            Ok((group, after, _)) => r matches Ok(g) && g@ == group && final(f).position()
                == after,
            Err((e, at)) => r matches Err(x) && x == e && final(f).position() == at,
        },
    decreases td.rank_of(*desc), 0nat, 0nat, 0nat, 0nat,
{
    proof {
        use_type_invariant(td);
    }
    let key = desc.string_form();
    let entry = match td.get(&key) {
        Some(entry) => entry,
        None => {
            return Err(BufrError::new(ErrorKind::UnknownDescriptor).at(*desc));
        },
    };
    let sequence = match parse_all(&entry.elements) {
        Ok(sequence) => sequence,
        Err(e) => {
            return Err(e.at(*desc));
        },
    };
    proof {
        td.lemma_children_level(*desc, sequence@);
    }
    let mut group = Group::new_with_capacity(
        sequence.len(),
        entry.group_name.clone(),
        entry.fxy.clone(),
    );
    let ghost mut counts = 0nat;
    let mut cursor: usize = 0;
    while cursor < sequence.len()
        invariant
            cursor <= sequence.len(),
            f.bytes() == old(f).bytes(),
            td.wf(),
            td.level(sequence@) < td.rank_of(*desc),
            td.lookup(desc.canonical()) == Some(*entry),
            spec_parse_all(entry.elements@) == Ok::<Seq<Descriptor>, BufrError>(sequence@),
            group@.fxy == entry.fxy@,
            group@.name == entry.group_name@,
            spec_items(
                tb,
                td,
                old(f).bytes(),
                old(f).position(),
                sequence@,
                0,
                Seq::empty(),
                0,
            ) == spec_items(
                tb,
                td,
                old(f).bytes(),
                f.position(),
                sequence@,
                cursor as nat,
                group@.items,
                counts,
            ),
        decreases sequence.len() - cursor,
    {
        let idx = cursor;
        cursor = cursor + 1;
        let ghost outcome = spec_dispatch(
            tb,
            td,
            f.bytes(),
            f.position(),
            sequence@,
            idx as nat,
            cursor as nat,
        );
        let structure = read_descriptor(f, &sequence, idx, &mut cursor, tb, td)?;
        proof {
            counts = counts + outcome->Ok_0.3;
        }
        group.push(structure);
    }
    Ok(group)
}

/// Decodes the whole of `descriptors`, in order, from the position of `f`
/// on. After a failure `f` stands where the read that failed left it.
pub fn read_descriptors(
    f: &mut BitBuffer,
    descriptors: &Vec<Descriptor>,
    tb: &TableB,
    td: &TableD,
) -> (r: Result<Vec<Structure>, BufrError>)
    ensures
        final(f).bytes() == old(f).bytes(),
        match spec_items(
            tb,
            td,
            old(f).bytes(),
            old(f).position(),
            descriptors@,
            0,
            Seq::empty(),
            0,
        ) {
            Ok((nodes, after, _)) => {
                &&& r matches Ok(v) && items_view(v@) == nodes
                &&& final(f).position() == after
            },
            Err((e, at, _)) => r matches Err(x) && x == e && final(f).position() == at,
        },
{
    let mut vec: Vec<Structure> = Vec::new();
    let ghost mut counts = 0nat;
    let mut cursor: usize = 0;
    while cursor < descriptors.len()
        invariant
            cursor <= descriptors.len(),
            f.bytes() == old(f).bytes(),
            spec_items(
                tb,
                td,
                old(f).bytes(),
                old(f).position(),
                descriptors@,
                0,
                Seq::empty(),
                0,
            ) == spec_items(
                tb,
                td,
                old(f).bytes(),
                f.position(),
                descriptors@,
                cursor as nat,
                items_view(vec@),
                counts,
            ),
        decreases descriptors.len() - cursor,
    {
        let idx = cursor;
        cursor = cursor + 1;
        let ghost outcome = spec_dispatch(
            tb,
            td,
            f.bytes(),
            f.position(),
            descriptors@,
            idx as nat,
            cursor as nat,
        );
        let structure = read_descriptor(f, descriptors, idx, &mut cursor, tb, td)?;
        proof {
            counts = counts + outcome->Ok_0.3;
            lemma_items_view_push(vec@, structure);
        }
        vec.push(structure);
    }
    Ok(vec)
}

/// The outcome of reading Section 4 at `pos` of `data` as `descriptors`
/// direct: the fields `m` with the decoded nodes, and the position after
/// the section. What the section holds after the last field is padding.
pub open spec fn spec_section_4(
    tb: &TableB,
    td: &TableD,
    data: Seq<u8>,
    pos: int,
    descriptors: Seq<Descriptor>,
    m: MessageView,
) -> Result<(MessageView, int), BufrError> {
    if !framed(data, pos) || descriptors.len() == 0 {
        Err(BufrError::bare(ErrorKind::InvalidLayout))
    } else {
        let end = pos + section_size(data, pos);
        match spec_items(
            tb,
            td,
            data.subrange(pos + 4, end),
            0,
            descriptors,
            0,
            Seq::empty(),
            0,
        ) {
            Err((e, _, _)) => Err(e),
            Ok((nodes, _, _)) => Ok((MessageView { elements: nodes, ..m }, end)),
        }
    }
}

/// What `read_section_4` does, but for where it leaves `f` on failure.
fn section_4_fields(
    f: &mut ByteStream,
    descriptors: Vec<Descriptor>,
    builder: &mut BufrMessageBuilder,
    tb: &TableB,
    td: &TableD,
) -> (r: Result<(), BufrError>)
    ensures
        final(f).bytes() == old(f).bytes(),
        match spec_section_4(tb, td, old(f).bytes(), old(f).pos(), descriptors@, old(builder)@) {
            Ok((m, next)) => r is Ok && final(builder)@ == m && final(f).pos() == next,
            Err(e) => r matches Err(x) && x == e && final(builder)@ == old(builder)@,
        },
{
    let bytes_left_in_section = read_frame(f)?;
    if descriptors.len() == 0 {
        return Err(BufrError::new(ErrorKind::InvalidLayout));
    }
    let payload = f.read_exact(bytes_left_in_section)?;
    let mut bit_buffer = BitBuffer::new(payload);
    let vec = read_descriptors(&mut bit_buffer, &descriptors, tb, td)?;
    builder.elements(vec);
    Ok(())
}

/// Reads Section 4: its length, a reserved octet, and the data, which is
/// decoded as `descriptors` direct.
/// On failure nothing is consumed and `builder` is left as it was.
pub fn read_section_4(
    f: &mut ByteStream,
    descriptors: Vec<Descriptor>,
    builder: &mut BufrMessageBuilder,
    tb: &TableB,
    td: &TableD,
) -> (r: Result<(), BufrError>)
    ensures
        final(f).bytes() == old(f).bytes(),
        match spec_section_4(tb, td, old(f).bytes(), old(f).pos(), descriptors@, old(builder)@) {
            Ok((m, next)) => r is Ok && final(builder)@ == m && final(f).pos() == next,
            Err(e) => {
                &&& r matches Err(x) && x == e
                &&& final(builder)@ == old(builder)@
                &&& final(f).pos() == old(f).pos()
            },
        },
{
    let start = f.position();
    match section_4_fields(f, descriptors, builder, tb, td) {
        Ok(v) => Ok(v),
        Err(e) => {
            f.seek(start);
            Err(e)
        },
    }
}

} // verus!
