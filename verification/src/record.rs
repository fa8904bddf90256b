//! What extraction produces: records of items.

use crate::value::{Value, ValueView};
use vstd::prelude::*;

verus! {

broadcast use vstd::std_specs::vec::axiom_vec_index_decreases;

/// The value of one field of a [`Record`].
#[derive(Debug, PartialEq, Eq)]
pub enum Item {
    /// The value of a cell.
    Cell(Value),
    /// The record that a flattened field holds.
    Nested(Record),
    /// An optional flattened field whose columns are all `NULL`.
    Absent,
    /// The records that a merged field has collected, in the order of the rows.
    Collection(Vec<Record>),
}

/// The values of the fields of a shape, in the order of the fields.
#[derive(Debug, PartialEq, Eq)]
pub struct Record {
    pub fields: Vec<Item>,
}

/// The mathematical value of an [`Item`].
pub enum ItemView {
    Cell(ValueView),
    Nested(RecordView),
    Absent,
    Collection(Seq<RecordView>),
}

/// The mathematical value of a [`Record`].
pub struct RecordView {
    pub fields: Seq<ItemView>,
}

/// The value of `item`.
pub open spec fn item_view(item: Item) -> ItemView
    decreases item,
{
    match item {
        Item::Cell(value) => ItemView::Cell(value@),
        Item::Nested(record) => ItemView::Nested(record_view(record)),
        Item::Absent => ItemView::Absent,
        Item::Collection(records) => ItemView::Collection(
            Seq::new(
                records.len() as nat,
                |i: int|
                    if 0 <= i < records.len() {
                        record_view(records[i])
                    } else {
                        arbitrary()
                    },
            ),
        ),
    }
}

/// The value of `record`.
pub open spec fn record_view(record: Record) -> RecordView
    decreases record,
{
    RecordView {
        fields: Seq::new(
            record.fields.len() as nat,
            |i: int|
                if 0 <= i < record.fields.len() {
                    item_view(record.fields[i])
                } else {
                    arbitrary()
                },
        ),
    }
}

impl View for Item {
    type V = ItemView;

    open spec fn view(&self) -> ItemView {
        item_view(*self)
    }
}

impl View for Record {
    type V = RecordView;

    open spec fn view(&self) -> RecordView {
        record_view(*self)
    }
}

/// The values of `records`, in order.
pub open spec fn record_views(records: Seq<Record>) -> Seq<RecordView> {
    Seq::new(records.len(), |i: int| records[i]@)
}

/// The value of a collection is the values of its records.
pub proof fn lemma_collection_view(records: Vec<Record>)
    ensures
        Item::Collection(records)@ == ItemView::Collection(record_views(records@)),
{
    assert(item_view(Item::Collection(records))->Collection_0 =~= record_views(records@));
}

/// Whether the records of the two lists are the same values, one by one.
fn same_records(left: &Vec<Record>, right: &Vec<Record>) -> (same: bool)
    ensures
        same == (record_views(left@) == record_views(right@)),
    decreases left,
{
    if left.len() != right.len() {
        assert(record_views(left@).len() != record_views(right@).len());
        return false;
    }
    let mut i: usize = 0;
    while i < left.len()
        invariant
            i <= left.len(),
            left.len() == right.len(),
            forall|j: int| 0 <= j < i ==> left[j]@ == right[j]@,
        decreases left.len() - i,
    {
        if !left[i].same(&right[i]) {
            assert(record_views(left@)[i as int] != record_views(right@)[i as int]);
            return false;
        }
        i = i + 1;
    }
    assert(record_views(left@) =~= record_views(right@));
    true
}

impl Item {
    /// Whether the two items are the same value.
    pub fn same(&self, other: &Item) -> (same: bool)
        ensures
            same == (self@ == other@),
        decreases self,
    {
        match (self, other) {
            (Item::Cell(a), Item::Cell(b)) => a.same(b),
            (Item::Nested(a), Item::Nested(b)) => a.same(b),
            (Item::Absent, Item::Absent) => true,
            (Item::Collection(a), Item::Collection(b)) => {
                proof {
                    lemma_collection_view(*a);
                    lemma_collection_view(*b);
                }
                same_records(a, b)
            },
            _ => false,
        }
    }
}

impl Record {
    /// Whether the two records are the same value.
    pub fn same(&self, other: &Record) -> (same: bool)
        ensures
            same == (self@ == other@),
        decreases self,
    {
        if self.fields.len() != other.fields.len() {
            assert(self@.fields.len() != other@.fields.len());
            return false;
        }
        let mut i: usize = 0;
        while i < self.fields.len()
            invariant
                i <= self.fields.len(),
                self.fields.len() == other.fields.len(),
                forall|j: int| 0 <= j < i ==> self.fields[j]@ == other.fields[j]@,
            decreases self.fields.len() - i,
        {
            if !self.fields[i].same(&other.fields[i]) {
                assert(self@.fields[i as int] != other@.fields[i as int]);
                return false;
            }
            i = i + 1;
        }
        assert(self@.fields =~= other@.fields);
        true
    }
}

} // verus!
