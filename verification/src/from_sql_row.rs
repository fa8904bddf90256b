//! The extraction engine: reading a record of a given shape from a row.

use crate::extract::{formatted, Error, ErrorView};
use crate::merge::Merge;
use crate::merger::Merger;
use crate::plan::{lemma_slots_within, partition_initializers, saturated, slot_views, slots, SlotView};
use crate::record::{record_views, Item, ItemView, Record, RecordView};
use crate::row::{column_named, index_text, whole, Row, RowSlice};
use crate::shape::{
    column_count, count_columns, extract_merge, first_fault, valid, validate, Field, FieldType,
    Index, Shape, ShapeError,
};
use crate::text::decimal;
use crate::value::{Type, Value, ValueView};
use vstd::prelude::*;

verus! {

broadcast use vstd::std_specs::vec::axiom_vec_index_decreases;

/// Whether every value is `NULL`.
pub open spec fn all_null(values: Seq<ValueView>) -> bool {
    forall|i: int| 0 <= i < values.len() ==> values[i] is Null
}

/// The message of the error for a field that is not read as what it holds.
pub open spec fn malformed() -> Seq<char> {
    "malformed shape"@
}

/// What reading a cell of the type `ty` gives: the value where it is of
/// that type, else the mismatch, reported for the column `index`.
pub open spec fn cell(value: ValueView, ty: Type, index: Seq<char>) -> Result<ItemView, ErrorView> {
    if ty.accepts(value.kind()) {
        Ok(ItemView::Cell(value))
    } else {
        Err(ErrorView::TypeMismatch { index, ty, kind: value.kind() })
    }
}

/// What `field` reads from a partition with the columns `names` and the
/// cells `values`, in which it is number `position` of its group.
///
/// A cell is found by the position, or by the name of its column, and
/// must be of the type of the field. A record is read from the whole
/// partition by its own shape; an optional record is absent where every
/// cell of the partition is `NULL`; a field that collects holds its record
/// as the one item of a collection.
pub open spec fn read(field: Field, names: Seq<Seq<char>>, values: Seq<ValueView>, position: int) -> Result<
    ItemView,
    ErrorView,
>
    decreases field, 0nat,
{
    match field.ty {
        FieldType::Cell(ty) => match field.index() {
            Index::Position => if 0 <= position < values.len() {
                cell(values[position], ty, decimal(position as nat))
            } else {
                Err(
                    ErrorView::SliceLookup {
                        index: decimal(position as nat),
                        columns: formatted(names),
                    },
                )
            },
            Index::Name => match column_named(names, field.column()) {
                Some(i) => cell(values[i], ty, field.column()),
                None => Err(
                    ErrorView::SliceLookup { index: field.column(), columns: formatted(names) },
                ),
            },
            Index::Flatten => Err(ErrorView::Custom { msg: malformed() }),
        },
        FieldType::Row(nested) => if field.index() != Index::Flatten {
            Err(ErrorView::Custom { msg: malformed() })
        } else if field.attrs.merge {
            match extracted(nested, names, values) {
                Ok(record) => Ok(ItemView::Collection(seq![record])),
                Err(e) => Err(e),
            }
        } else if field.optional && all_null(values) {
            Ok(ItemView::Absent)
        } else {
            match extracted(nested, names, values) {
                Ok(record) => Ok(ItemView::Nested(record)),
                Err(e) => Err(e),
            }
        },
    }
}

/// What the fields of `shape` before `upto` read from a row, each from its
/// slot: the items in the order of the fields, or the first error.
pub open spec fn items_upto(
    shape: Shape,
    names: Seq<Seq<char>>,
    values: Seq<ValueView>,
    slots: Seq<SlotView>,
    upto: int,
) -> Result<Seq<ItemView>, ErrorView>
    decreases shape, upto,
{
    if upto <= 0 || upto > shape.fields.len() {
        Ok(Seq::empty())
    } else {
        match items_upto(shape, names, values, slots, upto - 1) {
            Err(e) => Err(e),
            Ok(front) => {
                let slot = slots[upto - 1];
                match read(
                    shape.fields[upto - 1],
                    names.subrange(slot.start, slot.end),
                    values.subrange(slot.start, slot.end),
                    slot.position,
                ) {
                    Err(e) => Err(e),
                    Ok(item) => Ok(front.push(item)),
                }
            },
        }
    }
}

/// The record of the shape `shape` that a row with the columns `names` and
/// the cells `values` holds, or the error.
///
/// A counted shape takes a row of exactly its columns. The row is then
/// divided among the fields, and the fields are read in order.
pub open spec fn extracted(shape: Shape, names: Seq<Seq<char>>, values: Seq<ValueView>) -> Result<
    RecordView,
    ErrorView,
>
    decreases shape, shape.fields.len() + 1,
{
    let count = saturated(column_count(shape) as int);
    if shape.counted && names.len() != count {
        Err(ErrorView::ColumnCount { found: names.len() as int, expected: count })
    } else {
        match slots(shape, names) {
            Err(e) => Err(e),
            Ok(slots) => match items_upto(
                shape,
                names,
                values,
                slots,
                shape.fields.len() as int,
            ) {
                Err(e) => Err(e),
                Ok(fields) => Ok(RecordView { fields }),
            },
        }
    }
}

/// The first error is the error of the whole: what fails for some of the
/// fields fails the same way for more of them.
pub proof fn lemma_items_error(
    shape: Shape,
    names: Seq<Seq<char>>,
    values: Seq<ValueView>,
    slots: Seq<SlotView>,
    upto: int,
    more: int,
)
    requires
        0 <= upto <= more <= shape.fields.len(),
        items_upto(shape, names, values, slots, upto) is Err,
    ensures
        items_upto(shape, names, values, slots, more) == items_upto(
            shape,
            names,
            values,
            slots,
            upto,
        ),
    decreases more - upto,
{
    if upto < more {
        lemma_items_error(shape, names, values, slots, upto, more - 1);
    }
}

/// The items that are read are one for each field, and the item of a
/// field that collects is a collection.
pub proof fn lemma_items_upto(
    shape: Shape,
    names: Seq<Seq<char>>,
    values: Seq<ValueView>,
    slots: Seq<SlotView>,
    upto: int,
)
    requires
        0 <= upto <= shape.fields.len(),
    ensures
        match items_upto(shape, names, values, slots, upto) {
            Ok(items) => {
                &&& items.len() == upto
                &&& forall|i: int|
                    0 <= i < upto && shape.fields[i].attrs.merge ==> (
                    #[trigger] items[i]) is Collection
            },
            Err(_) => true,
        },
    decreases upto,
{
    if upto > 0 {
        lemma_items_upto(shape, names, values, slots, upto - 1);
        if let Ok(items) = items_upto(shape, names, values, slots, upto) {
            let front = items_upto(shape, names, values, slots, upto - 1)->Ok_0;
            let slot = slots[upto - 1];
            let field = shape.fields[upto - 1];
            let item = read(
                field,
                names.subrange(slot.start, slot.end),
                values.subrange(slot.start, slot.end),
                slot.position,
            )->Ok_0;
            assert(items == front.push(item));
            assert forall|i: int| 0 <= i < upto && shape.fields[i].attrs.merge implies (
            #[trigger] items[i]) is Collection by {
                if i < upto - 1 {
                    assert(items[i] == front[i]);
                } else {
                    assert(field.index() == Index::Flatten);
                }
            }
        }
    }
}

/// A record that is read has a field for each field of its shape, and
/// in a container that merges, a collection in each field that collects.
pub proof fn lemma_extracted_collects(shape: Shape, names: Seq<Seq<char>>, values: Seq<ValueView>)
    ensures
        match extracted(shape, names, values) {
            Ok(record) => {
                &&& record.fields.len() == shape.fields.len()
                &&& match shape.merge() {
                    Some(merge) => crate::merge_laws::collects(record, merge.collections),
                    None => true,
                }
            },
            Err(_) => true,
        },
{
    if let Ok(record) = extracted(shape, names, values) {
        let planned = slots(shape, names)->Ok_0;
        lemma_items_upto(shape, names, values, planned, shape.fields.len() as int);
        if let Some(merge) = shape.merge() {
            crate::shape::lemma_fields_with(
                shape.fields@,
                crate::shape::Probe::Merge,
                shape.fields.len() as int,
            );
            assert forall|k: int| 0 <= k < merge.collections.len() implies crate::merge::field(
                record,
                #[trigger] merge.collections[k],
            ) matches Some(ItemView::Collection(_)) by {
                let c = merge.collections[k];
                assert(merge.collections.contains(c));
                assert(record.fields[c as int] is Collection);
            }
        }
    }
}

/// Decides [`all_null`] for the cells of `row`.
pub fn is_all_null<R: Row>(row: &RowSlice<R>) -> (null: bool)
    ensures
        null == all_null(row.values()),
{
    let mut i: usize = 0;
    while i < row.len()
        invariant
            i <= row.values().len(),
            forall|k: int| 0 <= k < i ==> row.values()[k] is Null,
        decreases row.values().len() - i,
    {
        if !row.get(i).is_null() {
            return false;
        }
        i = i + 1;
    }
    true
}

/// Reads a cell of the type `ty`; see [`cell`].
fn read_cell(value: &Value, ty: Type, position: Option<usize>, name: &str) -> (result: Result<
    Item,
    Error,
>)
    ensures
        match cell(
            value@,
            ty,
            match position {
                Some(n) => decimal(n as nat),
                None => name@,
            },
        ) {
            Ok(item) => result matches Ok(found) && found@ == item,
            Err(e) => result matches Err(error) && error@ == e,
        },
{
    let kind = value.kind();
    if ty.takes(kind) {
        Ok(Item::Cell(value.clone()))
    } else {
        let index = match position {
            Some(n) => index_text(n),
            None => name.to_owned(),
        };
        Err(Error::TypeMismatch { index, ty, kind })
    }
}

/// Reads `field` from its partition; see [`read`].
pub fn read_field<R: Row>(field: &Field, row: &RowSlice<R>, position: usize) -> (result: Result<
    Item,
    Error,
>)
    ensures
        match read(*field, row.names(), row.values(), position as int) {
            Ok(item) => result matches Ok(found) && found@ == item,
            Err(e) => result matches Err(error) && error@ == e,
        },
    decreases field,
{
    let index = field.get_index();
    match &field.ty {
        FieldType::Cell(ty) => match index {
            Index::Position => {
                let value = row.try_get(position)?;
                read_cell(value, *ty, Some(position), "")
            },
            Index::Name => {
                let name = field.get_column();
                let value = row.try_get_named(name)?;
                read_cell(value, *ty, None, name)
            },
            Index::Flatten => Err(Error::new("malformed shape")),
        },
        FieldType::Row(nested) => {
            if index != Index::Flatten {
                Err(Error::new("malformed shape"))
            } else if field.attrs.merge {
                let record = from_row(nested, row)?;
                let mut records: Vec<Record> = Vec::new();
                records.push(record);
                proof {
                    crate::record::lemma_collection_view(records);
                    assert(record_views(records@) =~= seq![record@]);
                }
                Ok(Item::Collection(records))
            } else if field.optional && is_all_null(row) {
                Ok(Item::Absent)
            } else {
                let record = from_row(nested, row)?;
                Ok(Item::Nested(record))
            }
        },
    }
}

/// Extract the record of the shape `shape` from a single row; see
/// [`extracted`].
///
/// # Errors
///
/// `ColumnCount` where the shape is counted and the row has not exactly
/// its columns; else the error of the partitioning; else the error of the
/// first field that cannot be read.
pub fn from_row<R: Row>(shape: &Shape, row: &RowSlice<R>) -> (result: Result<Record, Error>)
    ensures
        match extracted(*shape, row.names(), row.values()) {
            Ok(record) => result matches Ok(found) && found@ == record,
            Err(e) => result matches Err(error) && error@ == e,
        },
    decreases shape,
{
    let expected = count_columns(shape);
    let found = row.len();
    if shape.counted && found != expected {
        return Err(Error::ColumnCount { found, expected });
    }
    let places = partition_initializers(shape, row.columns())?;
    let ghost names = row.names();
    let ghost values = row.values();
    let ghost planned = slot_views(places@);
    proof {
        lemma_slots_within(*shape, names);
    }
    let mut fields: Vec<Item> = Vec::new();
    let mut i: usize = 0;
    while i < shape.fields.len()
        invariant
            i <= shape.fields.len(),
            names == row.names(),
            values == row.values(),
            names.len() == values.len(),
            planned == slot_views(places@),
            slots(*shape, names) == Ok::<Seq<SlotView>, ErrorView>(planned),
            !(shape.counted && names.len() != saturated(column_count(*shape) as int)),
            places.len() == shape.fields.len(),
            forall|k: int|
                0 <= k < planned.len() ==> 0 <= (#[trigger] planned[k]).start <= planned[k].end
                    <= names.len(),
            fields.len() == i,
            items_upto(*shape, names, values, planned, i as int) is Ok,
            forall|k: int|
                0 <= k < i ==> (#[trigger] fields[k])@ == items_upto(
                    *shape,
                    names,
                    values,
                    planned,
                    i as int,
                )->Ok_0[k],
            items_upto(*shape, names, values, planned, i as int)->Ok_0.len() == i,
        decreases shape.fields.len() - i,
    {
        let slot = places[i];
        assert(planned[i as int] == slot@);
        let slice = match row.slice(slot.start..slot.end) {
            Ok(slice) => slice,
            Err(e) => {
                return Err(e);
            },
        };
        let ghost front = items_upto(*shape, names, values, planned, i as int)->Ok_0;
        let item = match read_field(&shape.fields[i], &slice, slot.position) {
            Ok(item) => item,
            Err(e) => {
                proof {
                    lemma_items_error(
                        *shape,
                        names,
                        values,
                        planned,
                        i + 1,
                        shape.fields.len() as int,
                    );
                }
                return Err(e);
            },
        };
        fields.push(item);
        proof {
            let next = items_upto(*shape, names, values, planned, i + 1)->Ok_0;
            assert(next == front.push(item@));
            assert forall|k: int| 0 <= k < i + 1 implies (#[trigger] fields[k])@ == next[k] by {
                if k < i {
                    assert(next[k] == front[k]);
                }
            }
        }
        i = i + 1;
    }
    let record = Record { fields };
    proof {
        let items = items_upto(*shape, names, values, planned, shape.fields.len() as int)->Ok_0;
        assert(record@.fields =~= items);
    }
    Ok(record)
}

/// The records of the rows before `upto`, each read by `shape`, in the
/// order of the rows; or the error of the first row that cannot be read.
pub open spec fn extracted_upto<R: Row>(shape: Shape, rows: Seq<R>, upto: int) -> Result<
    Seq<RecordView>,
    ErrorView,
>
    decreases upto,
{
    if upto <= 0 || upto > rows.len() {
        Ok(Seq::empty())
    } else {
        match extracted_upto(shape, rows, upto - 1) {
            Err(e) => Err(e),
            Ok(front) => match extracted(shape, rows[upto - 1].names(), rows[upto - 1].values()) {
                Err(e) => Err(e),
                Ok(record) => Ok(front.push(record)),
            },
        }
    }
}

/// The objects that `rows` hold: the record of each row, and in a
/// container that merges the objects that these records make.
pub open spec fn extracted_multi<R: Row>(shape: Shape, rows: Seq<R>) -> Result<
    Seq<RecordView>,
    ErrorView,
> {
    match extracted_upto(shape, rows, rows.len() as int) {
        Err(e) => Err(e),
        Ok(records) => match shape.merge() {
            Some(merge) => Ok(merge.merged(records)),
            None => Ok(records),
        },
    }
}

/// The first error is the error of the whole: what fails for some of the
/// rows fails the same way for more of them.
pub proof fn lemma_extracted_error<R: Row>(shape: Shape, rows: Seq<R>, upto: int, more: int)
    requires
        0 <= upto <= more <= rows.len(),
        extracted_upto(shape, rows, upto) is Err,
    ensures
        extracted_upto(shape, rows, more) == extracted_upto(shape, rows, upto),
    decreases more - upto,
{
    if upto < more {
        lemma_extracted_error(shape, rows, upto, more - 1);
    }
}

/// A shape that has been checked, ready to read rows.
#[derive(Debug)]
pub struct Extractor {
    shape: Shape,
    merge: Option<Merge>,
}

impl Extractor {
    #[verifier::type_invariant]
    spec fn well_formed(self) -> bool {
        &&& valid(self.shape)
        &&& match self.merge {
            Some(merge) => self.shape.merge() == Some(merge@),
            None => self.shape.merge() is None,
        }
    }

    /// The shape that the extractor reads.
    pub closed spec fn shape(&self) -> Shape {
        self.shape
    }

    /// Number of columns required to construct an object, and
    /// `usize::MAX` where they are more than that.
    pub fn column_count(&self) -> (count: usize)
        ensures
            count == saturated(column_count(self.shape()) as int),
    {
        count_columns(&self.shape)
    }

    /// Extract values from a single row; see [`extracted`].
    pub fn from_row<R: Row>(&self, row: &R) -> (result: Result<Record, Error>)
        ensures
            match extracted(self.shape(), row.names(), row.values()) {
                Ok(record) => result matches Ok(found) && found@ == record,
                Err(e) => result matches Err(error) && error@ == e,
            },
    {
        from_row(&self.shape, &whole(row))
    }

    /// Extract values from multiple rows, and merge them where the
    /// container merges; see [`extracted_multi`].
    ///
    /// # Errors
    ///
    /// The error of the first row that cannot be read.
    pub fn from_row_multi<R: Row>(&self, rows: &[R]) -> (result: Result<Vec<Record>, Error>)
        ensures
            match extracted_multi(self.shape(), rows@) {
                Ok(objects) => result matches Ok(found) && record_views(found@) == objects,
                Err(e) => result matches Err(error) && error@ == e,
            },
    {
        proof {
            use_type_invariant(self);
        }
        match &self.merge {
            Some(merge) => {
                let mut merger = Merger::new(merge);
                let ghost mut records: Seq<RecordView> = Seq::empty();
                let mut i: usize = 0;
                while i < rows.len()
                    invariant
                        i <= rows.len(),
                        self.shape.merge() == Some(merge@),
                        merger.well_formed(),
                        merger.merge() == merge@,
                        extracted_upto(self.shape, rows@, i as int) == Ok::<
                            Seq<RecordView>,
                            ErrorView,
                        >(records),
                        merger.objects() == merge@.merged(records),
                    decreases rows.len() - i,
                {
                    let record = match from_row(&self.shape, &whole(&rows[i])) {
                        Ok(record) => record,
                        Err(e) => {
                            proof {
                                lemma_extracted_error(self.shape, rows@, i + 1, rows.len() as int);
                            }
                            return Err(e);
                        },
                    };
                    proof {
                        let before = records;
                        records = records.push(record@);
                        assert(records.drop_last() =~= before);
                    }
                    merger.push(record);
                    i = i + 1;
                }
                Ok(merger.finish())
            },
            None => {
                let mut objects: Vec<Record> = Vec::new();
                let mut i: usize = 0;
                assert(record_views(objects@) =~= Seq::<RecordView>::empty());
                while i < rows.len()
                    invariant
                        i <= rows.len(),
                        self.shape.merge() is None,
                        extracted_upto(self.shape, rows@, i as int) == Ok::<
                            Seq<RecordView>,
                            ErrorView,
                        >(record_views(objects@)),
                    decreases rows.len() - i,
                {
                    let record = match from_row(&self.shape, &whole(&rows[i])) {
                        Ok(record) => record,
                        Err(e) => {
                            proof {
                                lemma_extracted_error(self.shape, rows@, i + 1, rows.len() as int);
                            }
                            return Err(e);
                        },
                    };
                    let ghost filled = record_views(objects@);
                    objects.push(record);
                    assert(record_views(objects@) =~= filled.push(record@));
                    i = i + 1;
                }
                Ok(objects)
            },
        }
    }
}

/// Checks `shape` and makes its extractor.
///
/// # Errors
///
/// What [`validate`] finds wrong with `shape`.
pub fn derive(shape: Shape) -> (result: Result<Extractor, ShapeError>)
    ensures
        match result {
            Ok(extractor) => valid(shape) && extractor.shape() == shape,
            Err(e) => first_fault(shape) == Some(e),
        },
{
    match validate(&shape) {
        Ok(()) => {
            let merge = extract_merge(&shape);
            Ok(Extractor { shape, merge })
        },
        Err(e) => Err(e),
    }
}

} // verus!
