//! The partition planner: which columns of a row each field of a shape reads.
//!
//! The fields of a container share the columns of its row, or the row is
//! divided into partitions and each field reads one of them. An exact
//! container gives each group of fields as many columns as the group
//! takes. A split container begins a new partition at each column that a
//! field names as a split point.

use crate::attrs::PartitionKind;
use crate::extract::{
    bounds, partitions, ranges_of, split_columns_many, Error, ErrorView, SplitView,
};
use crate::shape::{column_count, count_columns, Field, FieldType, Index, Shape};
use std::ops::Range;
use vstd::prelude::*;

verus! {

/// Where a field reads: the partition from column `start` to column
/// `end`, and in it the field is number `position` of its group.
#[derive(Debug, Copy, Clone, PartialEq, Eq, Structural)]
pub struct Slot {
    pub start: usize,
    pub end: usize,
    pub position: usize,
}

/// The mathematical value of a [`Slot`].
pub struct SlotView {
    pub start: int,
    pub end: int,
    pub position: int,
}

impl View for Slot {
    type V = SlotView;

    open spec fn view(&self) -> SlotView {
        SlotView { start: self.start as int, end: self.end as int, position: self.position as int }
    }
}

/// The values of `slots`.
pub open spec fn slot_views(slots: Seq<Slot>) -> Seq<SlotView> {
    Seq::new(slots.len(), |i: int| slots[i]@)
}

/// `n`, and `usize::MAX` where `n` is more than that.
pub open spec fn saturated(n: int) -> int {
    if n <= usize::MAX {
        n
    } else {
        usize::MAX as int
    }
}

/// Whether the field shares a partition with its neighbours in an exact
/// container: it is read as a cell and has no stride of its own.
pub open spec fn in_run(field: Field) -> bool {
    field.attrs.stride is None && field.index() != Index::Flatten
}

/// The number of fields from `from` on that are in a run, up to the first
/// that is not.
pub open spec fn run_len(fields: Seq<Field>, from: int) -> nat
    decreases fields.len() - from,
{
    if 0 <= from < fields.len() && in_run(fields[from]) {
        1 + run_len(fields, from + 1)
    } else {
        0
    }
}

/// The number of columns of the partition of a field that has a
/// partition of its own in an exact container: its stride, and without a
/// stride the columns that its shape takes.
pub open spec fn width(field: Field) -> nat {
    match field.attrs.stride {
        Some(stride) => stride as nat,
        None => match field.ty {
            FieldType::Row(nested) => column_count(nested),
            FieldType::Cell(_) => 1,
        },
    }
}

/// The slots of the fields from `from` on in an exact container, where
/// the columns before `begin` are taken.
///
/// The fields are taken in groups. A field with a stride, and a field that
/// is a record, is a group of its own. Neighbouring fields that are read
/// as cells and have no stride are one group, of as many columns as it has
/// fields. Each group takes the columns after those of the group before.
/// The first group that reaches beyond the `len` columns of the row is the
/// error.
pub open spec fn exact_slots(fields: Seq<Field>, len: int, from: int, begin: int) -> Result<
    Seq<SlotView>,
    ErrorView,
>
    decreases
        if from < fields.len() {
            fields.len() - from
        } else {
            0
        },
{
    if from < 0 || from >= fields.len() {
        Ok(Seq::empty())
    } else {
        let count = if in_run(fields[from]) {
            1 + run_len(fields, from + 1)
        } else {
            1nat
        };
        let columns = if in_run(fields[from]) {
            count
        } else {
            width(fields[from])
        };
        let end = saturated(begin + columns);
        if end > len {
            Err(ErrorView::SliceIndex { start: begin, end, len })
        } else {
            match exact_slots(fields, len, from + count, end) {
                Err(e) => Err(e),
                Ok(rest) => Ok(
                    Seq::new(count, |k: int| SlotView { start: begin, end, position: k }) + rest,
                ),
            }
        }
    }
}

/// The split points that the fields before `upto` name, in order.
pub open spec fn split_points(fields: Seq<Field>, upto: int) -> Seq<Seq<char>>
    decreases upto,
{
    if upto <= 0 || upto > fields.len() {
        Seq::empty()
    } else {
        split_points(fields, upto - 1) + fields[upto - 1].attrs.splits.deep_view()
    }
}

/// The first field of the group of field `i` in a split container: the
/// last field up to `i` that names a split point, and the first field of
/// all where there is none.
pub open spec fn split_start(fields: Seq<Field>, i: int) -> int
    decreases i,
{
    if i <= 0 || i >= fields.len() {
        0
    } else if fields[i].attrs.splits.len() > 0 {
        i
    } else {
        split_start(fields, i - 1)
    }
}

/// The slots of the fields in a split container whose partitions are
/// `ranges`: a field reads the partition that the last split point up to
/// it begins, and the first partition where there is none before it.
pub open spec fn split_slots(fields: Seq<Field>, ranges: Seq<(int, int)>) -> Seq<SlotView> {
    Seq::new(
        fields.len(),
        |i: int|
            {
                let partition = split_points(fields, i + 1).len() as int;
                SlotView {
                    start: ranges[partition].0,
                    end: ranges[partition].1,
                    position: i - split_start(fields, i),
                }
            },
    )
}

/// The slots of the fields of `shape` in a row with the columns `names`,
/// one for each field; or the error of the partitioning.
///
/// Without partitioning every field reads the whole row and has its place
/// among all fields as its position.
pub open spec fn slots(shape: Shape, names: Seq<Seq<char>>) -> Result<Seq<SlotView>, ErrorView> {
    let fields = shape.fields@;
    match shape.attrs.partition {
        None => Ok(
            Seq::new(
                fields.len(),
                |i: int| SlotView { start: 0, end: names.len() as int, position: i },
            ),
        ),
        Some(PartitionKind::Exact) => exact_slots(fields, names.len() as int, 0, 0),
        Some(PartitionKind::Split) => match ranges_of(
            partitions(names, split_points(fields, fields.len() as int)),
            names,
        ) {
            Err(e) => Err(e),
            Ok(ranges) => Ok(split_slots(fields, ranges)),
        },
    }
}

/// A run ends within the fields.
pub proof fn lemma_run_len(fields: Seq<Field>, from: int)
    requires
        0 <= from <= fields.len(),
    ensures
        from + run_len(fields, from) <= fields.len(),
    decreases fields.len() - from,
{
    if from < fields.len() && in_run(fields[from]) {
        lemma_run_len(fields, from + 1);
    }
}

/// The slots of an exact container are one for each field, and each lies
/// between the columns taken before and the end of the row.
pub proof fn lemma_exact_slots_within(fields: Seq<Field>, len: int, from: int, begin: int)
    requires
        0 <= from <= fields.len(),
        0 <= begin <= len <= usize::MAX,
    ensures
        match exact_slots(fields, len, from, begin) {
            Ok(slots) => {
                &&& slots.len() == fields.len() - from
                &&& forall|i: int|
                    0 <= i < slots.len() ==> begin <= (#[trigger] slots[i]).start <= slots[i].end
                        <= len
            },
            Err(_) => true,
        },
    decreases fields.len() - from,
{
    if from < fields.len() {
        lemma_run_len(fields, from + 1);
        let count = if in_run(fields[from]) {
            1 + run_len(fields, from + 1)
        } else {
            1nat
        };
        let columns = if in_run(fields[from]) {
            count
        } else {
            width(fields[from])
        };
        let end = saturated(begin + columns);
        if end <= len {
            lemma_exact_slots_within(fields, len, from + count, end);
            if let Ok(rest) = exact_slots(fields, len, from + count, end) {
                let group = Seq::new(count, |k: int| SlotView { start: begin, end, position: k });
                let all = group + rest;
                assert forall|i: int| 0 <= i < all.len() implies begin <= (#[trigger] all[i]).start
                    <= all[i].end <= len by {
                    if i < count {
                        assert(all[i] == group[i]);
                    } else {
                        assert(all[i] == rest[i - count]);
                    }
                }
            }
        }
    }
}

/// Whether the slot `next` follows the slot `slot`: it is the next place
/// in the same partition, or the first place in the partition that begins
/// where that of `slot` ends.
pub open spec fn follows(slot: SlotView, next: SlotView) -> bool {
    ||| next.start == slot.start && next.end == slot.end && next.position == slot.position + 1
    ||| next.start == slot.end && next.position == 0
}

/// The partitions of an exact container lie one after the other without
/// gaps: the first slot is the first place of the partition that begins
/// after the columns taken before, and each slot follows the one before it.
pub proof fn lemma_exact_slots_consecutive(fields: Seq<Field>, len: int, from: int, begin: int)
    requires
        0 <= from <= fields.len(),
        0 <= begin <= len <= usize::MAX,
    ensures
        match exact_slots(fields, len, from, begin) {
            Ok(slots) => {
                &&& slots.len() > 0 ==> slots[0].start == begin && slots[0].position == 0
                &&& forall|i: int|
                    0 <= i < slots.len() - 1 ==> follows(#[trigger] slots[i], slots[i + 1])
            },
            Err(_) => true,
        },
    decreases fields.len() - from,
{
    if from < fields.len() {
        lemma_run_len(fields, from + 1);
        let count = if in_run(fields[from]) {
            1 + run_len(fields, from + 1)
        } else {
            1nat
        };
        let columns = if in_run(fields[from]) {
            count
        } else {
            width(fields[from])
        };
        let end = saturated(begin + columns);
        if end <= len {
            lemma_exact_slots_consecutive(fields, len, from + count, end);
            if let Ok(rest) = exact_slots(fields, len, from + count, end) {
                let group = Seq::new(count, |k: int| SlotView { start: begin, end, position: k });
                let all = group + rest;
                assert(all[0] == group[0]);
                assert forall|i: int| 0 <= i < all.len() - 1 implies follows(
                    #[trigger] all[i],
                    all[i + 1],
                ) by {
                    if i + 1 < count {
                        assert(all[i] == group[i]);
                        assert(all[i + 1] == group[i + 1]);
                    } else if i < count {
                        assert(all[i] == group[i]);
                        assert(all[i + 1] == rest[0]);
                    } else {
                        assert(all[i] == rest[i - count]);
                        assert(all[i + 1] == rest[i + 1 - count]);
                    }
                }
            }
        }
    }
}

/// The slots of a shape are one for each of its fields, and each lies
/// within the row.
pub proof fn lemma_slots_within(shape: Shape, names: Seq<Seq<char>>)
    requires
        names.len() <= usize::MAX,
    ensures
        match slots(shape, names) {
            Ok(slots) => {
                &&& slots.len() == shape.fields.len()
                &&& forall|i: int|
                    0 <= i < slots.len() ==> 0 <= (#[trigger] slots[i]).start <= slots[i].end
                        <= names.len()
            },
            Err(_) => true,
        },
{
    let fields = shape.fields@;
    match shape.attrs.partition {
        None => {},
        Some(PartitionKind::Exact) => {
            lemma_exact_slots_within(fields, names.len() as int, 0, 0);
        },
        Some(PartitionKind::Split) => {
            let points = split_points(fields, fields.len() as int);
            let parts = partitions(names, points);
            if let Ok(ranges) = ranges_of(parts, names) {
                crate::extract::lemma_ranges_of(parts, names);
                crate::extract::lemma_partitions_from_within(names, points, 0, 0, 0);
                crate::extract::lemma_partitions_tile(names, points);
                let found = split_slots(fields, ranges);
                assert forall|i: int| 0 <= i < found.len() implies 0 <= (#[trigger] found[i]).start
                    <= found[i].end <= names.len() by {
                    lemma_split_points_grow(fields, i + 1, fields.len() as int);
                    let p = split_points(fields, i + 1).len() as int;
                    assert(parts[p] == SplitView::Range { start: ranges[p].0, end: ranges[p].1 });
                }
            }
        },
    }
}

/// Decides [`in_run`].
pub fn is_in_run(field: &Field) -> (run: bool)
    ensures
        run == in_run(*field),
{
    field.attrs.stride.is_none() && field.get_index() != Index::Flatten
}

/// The slots of `fields` in an exact container over a row of `len`
/// columns; see [`exact_slots`].
///
/// # Errors
///
/// `SliceIndex` for the first group of fields that reaches beyond the row.
pub fn partition_exact(fields: &[Field], len: usize) -> (result: Result<Vec<Slot>, Error>)
    ensures
        match exact_slots(fields@, len as int, 0, 0) {
            Ok(slots) => result matches Ok(found) && slot_views(found@) == slots,
            Err(e) => result matches Err(error) && error@ == e,
        },
{
    let mut slots: Vec<Slot> = Vec::new();
    let mut begin: usize = 0;
    let mut from: usize = 0;
    proof {
        assert(slot_views(slots@) =~= Seq::<SlotView>::empty());
        if let Ok(rest) = exact_slots(fields@, len as int, 0, 0) {
            assert(Seq::<SlotView>::empty() + rest =~= rest);
        }
    }
    while from < fields.len()
        invariant
            from <= fields.len(),
            begin <= len,
            exact_slots(fields@, len as int, 0, 0) == match exact_slots(
                fields@,
                len as int,
                from as int,
                begin as int,
            ) {
                Ok(rest) => Ok(slot_views(slots@) + rest),
                Err(e) => Err(e),
            },
        decreases fields.len() - from,
    {
        let field = &fields[from];
        let run = is_in_run(field);
        let mut count: usize = 1;
        if run {
            while from + count < fields.len() && is_in_run(&fields[from + count])
                invariant
                    1 <= count,
                    from + count <= fields.len(),
                    run_len(fields@, from + 1) == (count - 1) + run_len(fields@, from + count),
                decreases fields.len() - from - count,
            {
                count = count + 1;
            }
        }
        let columns: usize = if run {
            count
        } else {
            match field.attrs.stride {
                Some(stride) => stride,
                None => match &field.ty {
                    FieldType::Row(nested) => count_columns(nested),
                    FieldType::Cell(_) => 1,
                },
            }
        };
        let end = begin.saturating_add(columns);
        if end > len {
            return Err(Error::SliceIndex { range: begin..end, len });
        }
        let ghost before = slot_views(slots@);
        let ghost group = Seq::new(
            count as nat,
            |k: int| SlotView { start: begin as int, end: end as int, position: k },
        );
        let mut k: usize = 0;
        while k < count
            invariant
                k <= count,
                slot_views(slots@) == before + group.take(k as int),
                group == Seq::new(
                    count as nat,
                    |k: int| SlotView { start: begin as int, end: end as int, position: k },
                ),
            decreases count - k,
        {
            let ghost filled = slots@;
            slots.push(Slot { start: begin, end, position: k });
            proof {
                assert(group.take(k + 1) =~= group.take(k as int).push(group[k as int]));
                assert(slot_views(slots@) =~= slot_views(filled).push(group[k as int]));
                assert((before + group.take(k as int)).push(group[k as int]) =~= before
                    + group.take(k + 1));
            }
            k = k + 1;
        }
        proof {
            assert(group.take(count as int) =~= group);
            if let Ok(rest) = exact_slots(fields@, len as int, from + count, end as int) {
                assert(before + (group + rest) =~= (before + group) + rest);
            }
        }
        begin = end;
        from = from + count;
    }
    proof {
        assert(slot_views(slots@) + Seq::<SlotView>::empty() =~= slot_views(slots@));
    }
    Ok(slots)
}

/// The split points that `fields` name, in order; see [`split_points`].
pub fn collect_split_points(fields: &[Field]) -> (points: Vec<&str>)
    ensures
        points.deep_view() == split_points(fields@, fields.len() as int),
{
    let mut points: Vec<&str> = Vec::new();
    let mut i: usize = 0;
    assert(points.deep_view() =~= split_points(fields@, 0));
    while i < fields.len()
        invariant
            i <= fields.len(),
            points.deep_view() == split_points(fields@, i as int),
        decreases fields.len() - i,
    {
        let splits = &fields[i].attrs.splits;
        let ghost before = points.deep_view();
        let mut j: usize = 0;
        assert(splits.deep_view().take(0) =~= Seq::<Seq<char>>::empty());
        assert(before + Seq::<Seq<char>>::empty() =~= before);
        while j < splits.len()
            invariant
                j <= splits.len(),
                points.deep_view() == before + splits.deep_view().take(j as int),
            decreases splits.len() - j,
        {
            let ghost filled = points.deep_view();
            points.push(splits[j].as_str());
            proof {
                let names = splits.deep_view();
                assert(points.deep_view() =~= filled.push(names[j as int]));
                assert(names.take(j + 1) =~= names.take(j as int).push(names[j as int]));
                assert((before + names.take(j as int)).push(names[j as int]) =~= before
                    + names.take(j + 1));
            }
            j = j + 1;
        }
        assert(splits.deep_view().take(splits.len() as int) =~= splits.deep_view());
        i = i + 1;
    }
    points
}

/// The split points before a field are among those before any later field.
pub proof fn lemma_split_points_grow(fields: Seq<Field>, i: int, j: int)
    requires
        0 <= i <= j <= fields.len(),
    ensures
        split_points(fields, i).len() <= split_points(fields, j).len(),
    decreases j - i,
{
    if i < j {
        lemma_split_points_grow(fields, i, j - 1);
    }
}

/// The slots of `fields` in a split container over a row with the given
/// columns; see [`split_slots`].
///
/// # Errors
///
/// `InvalidSplit` for the first split point that names none of the
/// columns after the split point before it.
pub fn partition_split(fields: &[Field], columns: &[String]) -> (result: Result<Vec<Slot>, Error>)
    ensures
        match ranges_of(
            partitions(columns.deep_view(), split_points(fields@, fields.len() as int)),
            columns.deep_view(),
        ) {
            Ok(ranges) => result matches Ok(found) && slot_views(found@) == split_slots(
                fields@,
                ranges,
            ),
            Err(e) => result matches Err(error) && error@ == e,
        },
{
    let points = collect_split_points(fields);
    let ranges = split_columns_many(columns, points.as_slice())?;
    let ghost names = columns.deep_view();
    let ghost all = split_points(fields@, fields.len() as int);
    let ghost parts = bounds(ranges@);
    proof {
        crate::extract::lemma_partitions_tile(names, all);
    }
    let mut slots: Vec<Slot> = Vec::new();
    let mut partition: usize = 0;
    let mut start: usize = 0;
    let mut i: usize = 0;
    while i < fields.len()
        invariant
            i <= fields.len(),
            all == split_points(fields@, fields.len() as int),
            parts == bounds(ranges@),
            parts.len() == all.len() + 1,
            ranges.len() == all.len() + 1,
            start <= i,
            partition == split_points(fields@, i as int).len(),
            i > 0 ==> start == split_start(fields@, i - 1),
            i == 0 ==> start == 0,
            slots.len() == i,
            forall|k: int| 0 <= k < i ==> (#[trigger] slots[k])@ == split_slots(fields@, parts)[k],
        decreases fields.len() - i,
    {
        let count = fields[i].attrs.splits.len();
        proof {
            lemma_split_points_grow(fields@, i + 1, fields.len() as int);
            assert(split_points(fields@, i + 1).len() == partition + count);
        }
        if count > 0 {
            partition = partition + count;
            start = i;
        }
        let range = &ranges[partition];
        slots.push(Slot { start: range.start, end: range.end, position: i - start });
        i = i + 1;
    }
    proof {
        assert(slot_views(slots@) =~= split_slots(fields@, parts));
    }
    Ok(slots)
}

/// The slots of the fields of `shape` in a row with the given columns;
/// see [`slots`].
///
/// # Errors
///
/// The error of [`partition_exact`] in an exact container and of
/// [`partition_split`] in a split one.
pub fn partition_initializers(shape: &Shape, columns: &[String]) -> (result: Result<
    Vec<Slot>,
    Error,
>)
    ensures
        match slots(*shape, columns.deep_view()) {
            Ok(slots) => result matches Ok(found) && slot_views(found@) == slots,
            Err(e) => result matches Err(error) && error@ == e,
        },
{
    match shape.attrs.partition {
        None => {
            let mut found: Vec<Slot> = Vec::new();
            let mut i: usize = 0;
            while i < shape.fields.len()
                invariant
                    i <= shape.fields.len(),
                    found.len() == i,
                    forall|k: int|
                        0 <= k < i ==> (#[trigger] found[k])@ == (SlotView {
                            start: 0,
                            end: columns.len() as int,
                            position: k,
                        }),
                decreases shape.fields.len() - i,
            {
                found.push(Slot { start: 0, end: columns.len(), position: i });
                i = i + 1;
            }
            proof {
                assert(slot_views(found@) =~= slots(*shape, columns.deep_view())->Ok_0);
            }
            Ok(found)
        },
        Some(PartitionKind::Exact) => partition_exact(shape.fields.as_slice(), columns.len()),
        Some(PartitionKind::Split) => partition_split(shape.fields.as_slice(), columns),
    }
}

} // verus!
