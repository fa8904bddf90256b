//! Shapes: what an object is made of, and from which columns.
//!
//! A [`Shape`] describes an object that is read from a row, field by
//! field. A field is a cell of the row, found by its position or by the name
//! of its column, or it is a record of its own, read from the same columns
//! by the shape of the field.

use crate::attrs::{ContainerAttributes, FieldAttributes, PartitionKind};
use crate::merge::{Merge, MergeView};
use crate::value::Type;
use vstd::prelude::*;

verus! {

broadcast use vstd::std_specs::vec::axiom_vec_index_decreases;

/// What a field holds.
#[derive(Debug, PartialEq, Eq)]
pub enum FieldType {
    /// The value of one cell, of the given type.
    Cell(Type),
    /// A record of the given shape.
    Row(Shape),
}

/// A field of a [`Shape`].
#[derive(Debug, PartialEq, Eq)]
pub struct Field {
    /// The name of the field; `None` for a field that is known by its
    /// position only.
    pub ident: Option<String>,
    pub ty: FieldType,
    /// Whether a record may be absent: it is, where all of its cells are `NULL`.
    pub optional: bool,
    pub attrs: FieldAttributes,
}

/// The shape of an object.
#[derive(Debug, PartialEq, Eq)]
pub struct Shape {
    pub attrs: ContainerAttributes,
    /// Whether a row must have exactly the columns that the shape takes.
    pub counted: bool,
    pub fields: Vec<Field>,
}

/// How a field finds its value in a row.
#[derive(Debug, Copy, Clone, PartialEq, Eq, Structural)]
pub enum Index {
    /// By the position of the field among the fields that share its columns.
    Position,
    /// The field is a record that is read from the columns themselves.
    Flatten,
    /// By the name of its column.
    Name,
}

/// What is wrong with a shape.
#[derive(Debug, Copy, Clone, PartialEq, Eq, Structural)]
pub enum Fault {
    /// A field names a split point, and the container is not split.
    SplitInNonSplitContainer,
    /// A field has a stride, and the container is not exact.
    StrideInNonExactContainer,
    /// A field is a key, and the container does not merge.
    KeyInNonMergingContainer,
    /// A field collects, and the container does not merge.
    MergeInNonMergingContainer,
    /// The container is split, and no field names a split point.
    SplitWithoutPoints,
    /// The field is a record and is read as one cell.
    RecordAsCell,
    /// The field is one cell and is read as a record.
    CellAsRecord,
    /// A field is both a key and a collection.
    KeyAndMerge,
    /// The container merges, and no field is a key.
    MergeWithoutKey,
    /// The container merges, and no field collects.
    MergeWithoutCollection,
}

/// An error in a shape: what is wrong, and with which field. For a fault
/// of the container as a whole, `field` is the number of its fields.
#[derive(Debug, Copy, Clone, PartialEq, Eq, Structural)]
pub struct ShapeError {
    pub fault: Fault,
    pub field: usize,
}

impl Field {
    /// A field called `name` that holds the cell of the column of that name.
    pub fn named(name: &str, ty: Type) -> (field: Field)
        ensures
            field.ident matches Some(ident) && ident@ == name@,
            field.ty == FieldType::Cell(ty),
            !field.optional,
            field.attrs.is_empty(),
    {
        Field {
            ident: Some(name.to_owned()),
            ty: FieldType::Cell(ty),
            optional: false,
            attrs: FieldAttributes::new(),
        }
    }

    /// A field without a name that holds the cell at its position.
    pub fn positional(ty: Type) -> (field: Field)
        ensures
            field.ident is None,
            field.ty == FieldType::Cell(ty),
            !field.optional,
            field.attrs.is_empty(),
    {
        Field {
            ident: None,
            ty: FieldType::Cell(ty),
            optional: false,
            attrs: FieldAttributes::new(),
        }
    }

    /// A field called `name` that holds a record of the shape `shape`,
    /// read from the columns of its container.
    pub fn flattened(name: &str, shape: Shape) -> (field: Field)
        ensures
            field.ident matches Some(ident) && ident@ == name@,
            field.ty == FieldType::Row(shape),
            !field.optional,
            field.attrs.flatten && !field.attrs.key && !field.attrs.merge,
            field.attrs.rename is None && field.attrs.stride is None,
            field.attrs.splits@.len() == 0,
    {
        let mut attrs = FieldAttributes::new();
        attrs.flatten = true;
        Field { ident: Some(name.to_owned()), ty: FieldType::Row(shape), optional: false, attrs }
    }

    /// How the field finds its value: a field that collects is a record;
    /// a field without a name goes by its position; a named field is a
    /// record where it is flattened, and else goes by the name of its column.
    pub open spec fn index(&self) -> Index {
        if self.attrs.merge {
            Index::Flatten
        } else if self.ident is None {
            Index::Position
        } else if self.attrs.flatten {
            Index::Flatten
        } else {
            Index::Name
        }
    }

    /// The name of the column of a field that goes by name: the name that
    /// the field was renamed to, else its own.
    pub open spec fn column(&self) -> Seq<char> {
        match self.attrs.rename {
            Some(name) => name@,
            None => match self.ident {
                Some(name) => name@,
                None => Seq::empty(),
            },
        }
    }

    /// Whether the field is read as what it holds: a record as a
    /// record, a cell as a cell.
    pub open spec fn consistent(&self) -> bool {
        match self.ty {
            FieldType::Cell(_) => self.index() != Index::Flatten,
            FieldType::Row(_) => self.index() == Index::Flatten,
        }
    }

    /// Computes [`index`](Field::index).
    pub fn get_index(&self) -> (index: Index)
        ensures
            index == self.index(),
    {
        if self.attrs.merge {
            Index::Flatten
        } else if self.ident.is_none() {
            Index::Position
        } else if self.attrs.flatten {
            Index::Flatten
        } else {
            Index::Name
        }
    }

    /// Computes [`column`](Field::column).
    pub fn get_column(&self) -> (name: &str)
        ensures
            name@ == self.column(),
    {
        match &self.attrs.rename {
            Some(name) => name.as_str(),
            None => match &self.ident {
                Some(name) => name.as_str(),
                None => {
                    let empty = "";
                    proof {
                        reveal_strlit("");
                    }
                    assert(empty@ =~= Seq::<char>::empty());
                    empty
                },
            },
        }
    }
}

/// A property of a field that a check looks for.
#[derive(Debug, Copy, Clone, PartialEq, Eq, Structural)]
pub enum Probe {
    /// The field names a split point.
    Split,
    /// The field has a stride.
    Stride,
    /// The field is a key.
    Key,
    /// The field collects.
    Merge,
    /// The field holds a record and is not read as one.
    RecordAsCell,
    /// The field holds a cell and is read as a record.
    CellAsRecord,
    /// The field is a key and collects.
    KeyAndMerge,
}

impl Probe {
    /// Whether `field` has the property.
    pub open spec fn holds(self, field: Field) -> bool {
        match self {
            Probe::Split => field.attrs.splits.len() > 0,
            Probe::Stride => field.attrs.stride is Some,
            Probe::Key => field.attrs.key,
            Probe::Merge => field.attrs.merge,
            Probe::RecordAsCell => field.ty is Row && field.index() != Index::Flatten,
            Probe::CellAsRecord => field.ty is Cell && field.index() == Index::Flatten,
            Probe::KeyAndMerge => field.attrs.key && field.attrs.merge,
        }
    }

    /// Decides [`holds`](Probe::holds).
    pub fn test(self, field: &Field) -> (found: bool)
        ensures
            found == self.holds(*field),
    {
        match self {
            Probe::Split => field.attrs.splits.len() > 0,
            Probe::Stride => field.attrs.stride.is_some(),
            Probe::Key => field.attrs.key,
            Probe::Merge => field.attrs.merge,
            Probe::RecordAsCell => match field.ty {
                FieldType::Row(_) => field.get_index() != Index::Flatten,
                FieldType::Cell(_) => false,
            },
            Probe::CellAsRecord => match field.ty {
                FieldType::Cell(_) => field.get_index() == Index::Flatten,
                FieldType::Row(_) => false,
            },
            Probe::KeyAndMerge => field.attrs.key && field.attrs.merge,
        }
    }
}

/// The first field from `from` on that has the property `probe`.
pub open spec fn first_field(fields: Seq<Field>, probe: Probe, from: int) -> Option<int>
    decreases fields.len() - from,
{
    if from < 0 || from >= fields.len() {
        None
    } else if probe.holds(fields[from]) {
        Some(from)
    } else {
        first_field(fields, probe, from + 1)
    }
}

/// The fields before `upto` that have the property `probe`, in order.
pub open spec fn fields_with(fields: Seq<Field>, probe: Probe, upto: int) -> Seq<usize>
    decreases upto,
{
    if upto <= 0 || upto > fields.len() {
        Seq::empty()
    } else if probe.holds(fields[upto - 1]) {
        fields_with(fields, probe, upto - 1).push((upto - 1) as usize)
    } else {
        fields_with(fields, probe, upto - 1)
    }
}

/// The index of the first field that has the property `probe`.
pub fn find_field(fields: &[Field], probe: Probe) -> (found: Option<usize>)
    ensures
        match found {
            Some(i) => first_field(fields@, probe, 0) == Some(i as int) && i < fields.len(),
            None => first_field(fields@, probe, 0) is None,
        },
{
    let mut i: usize = 0;
    while i < fields.len()
        invariant
            i <= fields.len(),
            first_field(fields@, probe, 0) == first_field(fields@, probe, i as int),
        decreases fields.len() - i,
    {
        if probe.test(&fields[i]) {
            return Some(i);
        }
        i = i + 1;
    }
    None
}

impl Shape {
    /// The shape with the given fields: no partitioning, no merging, and
    /// a row may have more columns than the shape takes.
    pub fn new(fields: Vec<Field>) -> (shape: Shape)
        ensures
            shape.fields == fields,
            !shape.counted,
            shape.attrs.partition is None,
            shape.attrs.merge is None,
    {
        Shape { attrs: ContainerAttributes { partition: None, merge: None }, counted: false, fields }
    }

    /// The shape of a tuple: one field for each of `types`, known by its
    /// position, and a row must have exactly these columns.
    pub fn tuple(types: &[Type]) -> (shape: Shape)
        ensures
            shape.counted,
            shape.attrs.partition is None,
            shape.attrs.merge is None,
            shape.fields.len() == types.len(),
            forall|i: int|
                0 <= i < types.len() ==> {
                    &&& (#[trigger] shape.fields[i]).ident is None
                    &&& shape.fields[i].ty == FieldType::Cell(types[i])
                    &&& !shape.fields[i].optional
                    &&& shape.fields[i].attrs.is_empty()
                },
    {
        let mut fields: Vec<Field> = Vec::new();
        let mut i: usize = 0;
        while i < types.len()
            invariant
                i <= types.len(),
                fields.len() == i,
                forall|k: int|
                    0 <= k < i ==> {
                        &&& (#[trigger] fields[k]).ident is None
                        &&& fields[k].ty == FieldType::Cell(types[k])
                        &&& !fields[k].optional
                        &&& fields[k].attrs.is_empty()
                    },
            decreases types.len() - i,
        {
            fields.push(Field::positional(types[i]));
            i = i + 1;
        }
        Shape { attrs: ContainerAttributes { partition: None, merge: None }, counted: true, fields }
    }

    /// Whether the container is split.
    pub open spec fn is_split(&self) -> bool {
        self.attrs.partition == Some(PartitionKind::Split)
    }

    /// Whether the container is exact.
    pub open spec fn is_exact(&self) -> bool {
        self.attrs.partition == Some(PartitionKind::Exact)
    }

    /// What is wrong with the container and its own fields, if anything:
    /// the first of the faults in the order of [`Fault`], with the first
    /// field that has it.
    pub open spec fn fault(&self) -> Option<ShapeError> {
        let fields = self.fields@;
        let count = fields.len() as usize;
        let merging = self.attrs.merge is Some;
        let split = first_field(fields, Probe::Split, 0);
        let stride = first_field(fields, Probe::Stride, 0);
        let key = first_field(fields, Probe::Key, 0);
        let merge = first_field(fields, Probe::Merge, 0);
        let record = first_field(fields, Probe::RecordAsCell, 0);
        let cell = first_field(fields, Probe::CellAsRecord, 0);
        let both = first_field(fields, Probe::KeyAndMerge, 0);
        if !self.is_split() && split is Some {
            Some(ShapeError { fault: Fault::SplitInNonSplitContainer, field: split->0 as usize })
        } else if !self.is_exact() && stride is Some {
            Some(ShapeError { fault: Fault::StrideInNonExactContainer, field: stride->0 as usize })
        } else if !merging && key is Some {
            Some(ShapeError { fault: Fault::KeyInNonMergingContainer, field: key->0 as usize })
        } else if !merging && merge is Some {
            Some(ShapeError { fault: Fault::MergeInNonMergingContainer, field: merge->0 as usize })
        } else if self.is_split() && split is None {
            Some(ShapeError { fault: Fault::SplitWithoutPoints, field: count })
        } else if record is Some {
            Some(ShapeError { fault: Fault::RecordAsCell, field: record->0 as usize })
        } else if cell is Some {
            Some(ShapeError { fault: Fault::CellAsRecord, field: cell->0 as usize })
        } else if both is Some {
            Some(ShapeError { fault: Fault::KeyAndMerge, field: both->0 as usize })
        } else if merging && key is None {
            Some(ShapeError { fault: Fault::MergeWithoutKey, field: count })
        } else if merging && merge is None {
            Some(ShapeError { fault: Fault::MergeWithoutCollection, field: count })
        } else {
            None
        }
    }
}

/// The first thing that is wrong with `shape` or with the shape of one of
/// its fields: the fault of `shape` itself where it has one; else the first
/// fault of the shape of a field, the fields taken in order.
pub open spec fn first_fault(shape: Shape) -> Option<ShapeError>
    decreases shape, shape.fields.len() + 1,
{
    match shape.fault() {
        Some(e) => Some(e),
        None => nested_fault(shape, 0),
    }
}

/// The first fault of the shape of a field of `shape`, from the field
/// `from` on.
pub open spec fn nested_fault(shape: Shape, from: int) -> Option<ShapeError>
    decreases shape, shape.fields.len() - from,
{
    if from < 0 || from >= shape.fields.len() {
        None
    } else {
        let rest = nested_fault(shape, from + 1);
        match shape.fields[from].ty {
            FieldType::Cell(_) => rest,
            FieldType::Row(nested) => match first_fault(nested) {
                Some(e) => Some(e),
                None => rest,
            },
        }
    }
}

/// Whether nothing is wrong with `shape` nor with the shapes of its fields.
pub open spec fn valid(shape: Shape) -> bool {
    first_fault(shape) is None
}

/// The number of columns that `shape` takes: one for each field that is a
/// cell, and for each field that is a record the columns of its shape.
pub open spec fn column_count(shape: Shape) -> nat
    decreases shape, shape.fields.len() + 1,
{
    columns_upto(shape, shape.fields.len() as int)
}

/// The number of columns that the fields of `shape` before `upto` take.
pub open spec fn columns_upto(shape: Shape, upto: int) -> nat
    decreases shape, upto,
{
    if upto <= 0 || upto > shape.fields.len() {
        0
    } else {
        columns_upto(shape, upto - 1) + match shape.fields[upto - 1].ty {
            FieldType::Cell(_) => 1nat,
            FieldType::Row(nested) => if shape.fields[upto - 1].index() == Index::Flatten {
                column_count(nested)
            } else {
                1nat
            },
        }
    }
}

/// What [`first_field`] finds is the first field with the property, and
/// where it finds none, no field has it.
pub proof fn lemma_first_field(fields: Seq<Field>, probe: Probe, from: int)
    requires
        0 <= from,
    ensures
        match first_field(fields, probe, from) {
            Some(i) => from <= i < fields.len() && probe.holds(fields[i]) && forall|j: int|
                from <= j < i ==> !probe.holds(#[trigger] fields[j]),
            None => forall|j: int| from <= j < fields.len() ==> !probe.holds(#[trigger] fields[j]),
        },
    decreases fields.len() - from,
{
    if from < fields.len() && !probe.holds(fields[from]) {
        lemma_first_field(fields, probe, from + 1);
    }
}

/// [`fields_with`] holds exactly the fields before `upto` that have the
/// property, in rising order.
pub proof fn lemma_fields_with(fields: Seq<Field>, probe: Probe, upto: int)
    requires
        0 <= upto <= fields.len() <= usize::MAX,
    ensures
        forall|i: usize|
            fields_with(fields, probe, upto).contains(i) <==> (i < upto && probe.holds(
                fields[i as int],
            )),
        forall|a: int, b: int|
            0 <= a < b < fields_with(fields, probe, upto).len() ==> fields_with(
                fields,
                probe,
                upto,
            )[a] < fields_with(fields, probe, upto)[b],
    decreases upto,
{
    if upto > 0 {
        lemma_fields_with(fields, probe, upto - 1);
        let front = fields_with(fields, probe, upto - 1);
        let all = fields_with(fields, probe, upto);
        if probe.holds(fields[upto - 1]) {
            assert(all == front.push((upto - 1) as usize));
            assert forall|i: usize| all.contains(i) <==> (i < upto && probe.holds(
                fields[i as int],
            )) by {
                if all.contains(i) {
                    let at = choose|at: int| 0 <= at < all.len() && all[at] == i;
                    if at < front.len() {
                        assert(front[at] == i);
                        assert(front.contains(i));
                    }
                }
                if i < upto && probe.holds(fields[i as int]) {
                    if i == upto - 1 {
                        assert(all[front.len() as int] == i);
                    } else {
                        assert(front.contains(i));
                        let at = choose|at: int| 0 <= at < front.len() && front[at] == i;
                        assert(all[at] == i);
                    }
                }
            }
            assert forall|a: int, b: int| 0 <= a < b < all.len() implies all[a] < all[b] by {
                if b == front.len() {
                    assert(front.contains(front[a]));
                }
            }
        }
    }
}

/// The merge of a valid shape is well formed: it has a key field and a
/// collecting field, all of them fields of the shape, and no field is both.
pub proof fn lemma_valid_merge(shape: Shape)
    requires
        valid(shape),
    ensures
        match shape.merge() {
            Some(merge) => {
                &&& merge.keys.len() > 0
                &&& merge.collections.len() > 0
                &&& crate::merge::disjoint(merge.keys, merge.collections)
                &&& forall|k: int|
                    0 <= k < merge.keys.len() ==> (#[trigger] merge.keys[k]) < shape.fields.len()
                &&& forall|k: int|
                    0 <= k < merge.collections.len() ==> (#[trigger] merge.collections[k])
                        < shape.fields.len()
            },
            None => true,
        },
{
    if let Some(merge) = shape.merge() {
        let fields = shape.fields@;
        let count = fields.len() as int;
        lemma_first_field(fields, Probe::Key, 0);
        lemma_first_field(fields, Probe::Merge, 0);
        lemma_first_field(fields, Probe::KeyAndMerge, 0);
        lemma_fields_with(fields, Probe::Key, count);
        lemma_fields_with(fields, Probe::Merge, count);
        let first_key = first_field(fields, Probe::Key, 0)->0;
        let first_merge = first_field(fields, Probe::Merge, 0)->0;
        assert(merge.keys.contains(first_key as usize));
        assert(merge.collections.contains(first_merge as usize));
        assert forall|k: int| 0 <= k < merge.keys.len() implies !merge.collections.contains(
            #[trigger] merge.keys[k],
        ) && merge.keys[k] < shape.fields.len() by {
            assert(merge.keys.contains(merge.keys[k]));
        }
        assert forall|k: int| 0 <= k < merge.collections.len() implies (
        #[trigger] merge.collections[k]) < shape.fields.len() by {
            assert(merge.collections.contains(merge.collections[k]));
        }
    }
}

/// A field that names a split point is at fault in a container that is
/// not split.
pub fn check_split_in_non_split_container(shape: &Shape) -> (result: Result<(), ShapeError>)
    ensures
        result == (match first_field(shape.fields@, Probe::Split, 0) {
            Some(i) if !shape.is_split() => Err(
                ShapeError { fault: Fault::SplitInNonSplitContainer, field: i as usize },
            ),
            _ => Ok::<(), ShapeError>(()),
        }),
{
    let is_split = match shape.attrs.partition {
        Some(PartitionKind::Split) => true,
        _ => false,
    };
    if is_split {
        Ok(())
    } else {
        match find_field(shape.fields.as_slice(), Probe::Split) {
            None => Ok(()),
            Some(field) => Err(ShapeError { fault: Fault::SplitInNonSplitContainer, field }),
        }
    }
}

/// A field that has a stride is at fault in a container that is not exact.
pub fn check_stride_in_non_exact_container(shape: &Shape) -> (result: Result<(), ShapeError>)
    ensures
        result == (match first_field(shape.fields@, Probe::Stride, 0) {
            Some(i) if !shape.is_exact() => Err(
                ShapeError { fault: Fault::StrideInNonExactContainer, field: i as usize },
            ),
            _ => Ok::<(), ShapeError>(()),
        }),
{
    let is_exact = match shape.attrs.partition {
        Some(PartitionKind::Exact) => true,
        _ => false,
    };
    if is_exact {
        Ok(())
    } else {
        match find_field(shape.fields.as_slice(), Probe::Stride) {
            None => Ok(()),
            Some(field) => Err(ShapeError { fault: Fault::StrideInNonExactContainer, field }),
        }
    }
}

/// A field that is a key, and failing that a field that collects, is at
/// fault in a container that does not merge.
pub fn check_non_merging_container_attributes(shape: &Shape) -> (result: Result<(), ShapeError>)
    ensures
        result == (if shape.attrs.merge is Some {
            Ok::<(), ShapeError>(())
        } else {
            match first_field(shape.fields@, Probe::Key, 0) {
                Some(i) => Err(
                    ShapeError { fault: Fault::KeyInNonMergingContainer, field: i as usize },
                ),
                None => match first_field(shape.fields@, Probe::Merge, 0) {
                    Some(i) => Err(
                        ShapeError { fault: Fault::MergeInNonMergingContainer, field: i as usize },
                    ),
                    None => Ok(()),
                },
            }
        }),
{
    if shape.attrs.merge.is_some() {
        Ok(())
    } else {
        match find_field(shape.fields.as_slice(), Probe::Key) {
            None => {},
            Some(field) => {
                return Err(ShapeError { fault: Fault::KeyInNonMergingContainer, field });
            },
        }
        match find_field(shape.fields.as_slice(), Probe::Merge) {
            None => Ok(()),
            Some(field) => Err(ShapeError { fault: Fault::MergeInNonMergingContainer, field }),
        }
    }
}

/// Checks the container and its own fields; see [`Shape::fault`].
pub fn validate_properties(shape: &Shape) -> (result: Result<(), ShapeError>)
    ensures
        match shape.fault() {
            Some(e) => result == Err::<(), ShapeError>(e),
            None => result is Ok,
        },
{
    check_split_in_non_split_container(shape)?;
    check_stride_in_non_exact_container(shape)?;
    check_non_merging_container_attributes(shape)?;
    let fields = shape.fields.as_slice();
    let count = fields.len();
    let is_split = match shape.attrs.partition {
        Some(PartitionKind::Split) => true,
        _ => false,
    };
    if is_split && find_field(fields, Probe::Split).is_none() {
        return Err(ShapeError { fault: Fault::SplitWithoutPoints, field: count });
    }
    if let Some(field) = find_field(fields, Probe::RecordAsCell) {
        return Err(ShapeError { fault: Fault::RecordAsCell, field });
    }
    if let Some(field) = find_field(fields, Probe::CellAsRecord) {
        return Err(ShapeError { fault: Fault::CellAsRecord, field });
    }
    if let Some(field) = find_field(fields, Probe::KeyAndMerge) {
        return Err(ShapeError { fault: Fault::KeyAndMerge, field });
    }
    if shape.attrs.merge.is_some() {
        if find_field(fields, Probe::Key).is_none() {
            return Err(ShapeError { fault: Fault::MergeWithoutKey, field: count });
        }
        if find_field(fields, Probe::Merge).is_none() {
            return Err(ShapeError { fault: Fault::MergeWithoutCollection, field: count });
        }
    }
    Ok(())
}

/// Checks `shape` and the shapes of its fields; see [`first_fault`].
///
/// # Errors
///
/// The fault of `shape` itself where it has one; else the first fault
/// found in the shape of a field, the fields taken in order.
pub fn validate(shape: &Shape) -> (result: Result<(), ShapeError>)
    ensures
        result == (match first_fault(*shape) {
            Some(e) => Err(e),
            None => Ok::<(), ShapeError>(()),
        }),
    decreases shape,
{
    validate_properties(shape)?;
    let mut i: usize = 0;
    while i < shape.fields.len()
        invariant
            i <= shape.fields.len(),
            shape.fault() is None,
            nested_fault(*shape, 0) == nested_fault(*shape, i as int),
        decreases shape.fields.len() - i,
    {
        match &shape.fields[i].ty {
            FieldType::Cell(_) => {},
            FieldType::Row(nested) => {
                validate(nested)?;
            },
        }
        i = i + 1;
    }
    Ok(())
}

/// The fields that have the property `probe`, in order.
pub fn select_fields(fields: &[Field], probe: Probe) -> (found: Vec<usize>)
    ensures
        found@ == fields_with(fields@, probe, fields.len() as int),
{
    let mut found: Vec<usize> = Vec::new();
    let mut i: usize = 0;
    while i < fields.len()
        invariant
            i <= fields.len(),
            found@ == fields_with(fields@, probe, i as int),
        decreases fields.len() - i,
    {
        if probe.test(&fields[i]) {
            found.push(i);
        }
        i = i + 1;
    }
    found
}

impl Shape {
    /// How the rows of the container are merged: by its key fields into
    /// its collecting fields; `None` where the container does not merge.
    pub open spec fn merge(&self) -> Option<MergeView> {
        match self.attrs.merge {
            Some(kind) => Some(
                MergeView {
                    kind,
                    keys: fields_with(self.fields@, Probe::Key, self.fields.len() as int),
                    collections: fields_with(
                        self.fields@,
                        Probe::Merge,
                        self.fields.len() as int,
                    ),
                },
            ),
            None => None,
        }
    }
}

/// The merge that `shape` asks for; see [`Shape::merge`].
pub fn extract_merge(shape: &Shape) -> (merge: Option<Merge>)
    ensures
        match merge {
            Some(m) => shape.merge() == Some(m@),
            None => shape.merge() is None,
        },
{
    match shape.attrs.merge {
        Some(kind) => Some(
            Merge {
                kind,
                keys: select_fields(shape.fields.as_slice(), Probe::Key),
                collections: select_fields(shape.fields.as_slice(), Probe::Merge),
            },
        ),
        None => None,
    }
}

/// The number of columns that `shape` takes, and `usize::MAX` where they
/// are more than that; see [`column_count`].
pub fn count_columns(shape: &Shape) -> (count: usize)
    ensures
        count == if column_count(*shape) <= usize::MAX {
            column_count(*shape)
        } else {
            usize::MAX as nat
        },
    decreases shape,
{
    let mut count: usize = 0;
    let mut i: usize = 0;
    while i < shape.fields.len()
        invariant
            i <= shape.fields.len(),
            count == if columns_upto(*shape, i as int) <= usize::MAX {
                columns_upto(*shape, i as int)
            } else {
                usize::MAX as nat
            },
        decreases shape.fields.len() - i,
    {
        let field = &shape.fields[i];
        let columns: usize = match &field.ty {
            FieldType::Cell(_) => 1,
            FieldType::Row(nested) => match field.get_index() {
                Index::Flatten => count_columns(nested),
                _ => 1,
            },
        };
        count = count.saturating_add(columns);
        i = i + 1;
    }
    count
}

} // verus!
