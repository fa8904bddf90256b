//! Merging the records of several rows into one object.
//!
//! Rows with the same key make one object. Its collection fields hold the
//! records of all of its rows, in the order of the rows; its other fields
//! are those of its first row.

use crate::attrs::MergeKind;
use crate::record::{record_views, Item, ItemView, Record, RecordView};
use vstd::prelude::*;

verus! {

/// The field `index` of `record`, if it has one.
pub open spec fn field(record: RecordView, index: usize) -> Option<ItemView> {
    if index < record.fields.len() {
        Some(record.fields[index as int])
    } else {
        None
    }
}

/// Whether `a` and `b` have the same key: the same value in each of the
/// fields `keys`.
pub open spec fn same_key(a: RecordView, b: RecordView, keys: Seq<usize>) -> bool {
    forall|k: int| 0 <= k < keys.len() ==> field(a, #[trigger] keys[k]) == field(b, keys[k])
}

/// A field of an object after a row has been merged into it: a
/// collection followed by the collection of the row.
pub open spec fn absorbed_item(mine: ItemView, theirs: ItemView) -> ItemView {
    match (mine, theirs) {
        (ItemView::Collection(a), ItemView::Collection(b)) => ItemView::Collection(a + b),
        (other, _) => other,
    }
}

/// `object` after `row` has been merged into it: each of the fields
/// `collections` has taken what `row` holds there.
pub open spec fn absorbed(object: RecordView, row: RecordView, collections: Seq<usize>) -> RecordView {
    RecordView {
        fields: Seq::new(
            object.fields.len(),
            |i: int|
                if i < row.fields.len() && collections.contains(i as usize) {
                    absorbed_item(object.fields[i], row.fields[i])
                } else {
                    object.fields[i]
                },
        ),
    }
}

/// The first of `objects`, from index `from` on, that has the key of `row`.
pub open spec fn first_with_key(
    objects: Seq<RecordView>,
    row: RecordView,
    keys: Seq<usize>,
    from: int,
) -> Option<int>
    decreases objects.len() - from,
{
    if from < 0 || from >= objects.len() {
        None
    } else if same_key(objects[from], row, keys) {
        Some(from)
    } else {
        first_with_key(objects, row, keys, from + 1)
    }
}

/// How rows are merged: which rows, by which key fields, and into which
/// collection fields.
#[derive(Debug, PartialEq, Eq)]
pub struct Merge {
    pub kind: MergeKind,
    /// The indices of the key fields.
    pub keys: Vec<usize>,
    /// The indices of the fields that collect.
    pub collections: Vec<usize>,
}

/// The mathematical value of a [`Merge`].
pub struct MergeView {
    pub kind: MergeKind,
    pub keys: Seq<usize>,
    pub collections: Seq<usize>,
}

impl View for Merge {
    type V = MergeView;

    open spec fn view(&self) -> MergeView {
        MergeView { kind: self.kind, keys: self.keys@, collections: self.collections@ }
    }
}

impl MergeView {
    /// The object that takes `row`, if one of `objects` does. With
    /// `Group` it is the last object, where that has the key of `row`. With
    /// `Hash` it is the first object that has the key of `row`.
    pub open spec fn target(self, objects: Seq<RecordView>, row: RecordView) -> Option<int> {
        match self.kind {
            MergeKind::Group => if objects.len() > 0 && same_key(objects.last(), row, self.keys) {
                Some(objects.len() - 1)
            } else {
                None
            },
            MergeKind::Hash => first_with_key(objects, row, self.keys, 0),
        }
    }

    /// The objects after `row`: it is merged into its target, or it
    /// becomes a new object after the others.
    pub open spec fn step(self, objects: Seq<RecordView>, row: RecordView) -> Seq<RecordView> {
        match self.target(objects, row) {
            Some(j) => objects.update(j, absorbed(objects[j], row, self.collections)),
            None => objects.push(row),
        }
    }

    /// The objects that `rows` make, taken one after the other.
    pub open spec fn merged(self, rows: Seq<RecordView>) -> Seq<RecordView>
        decreases rows.len(),
    {
        if rows.len() == 0 {
            Seq::empty()
        } else {
            self.step(self.merged(rows.drop_last()), rows.last())
        }
    }
}

/// Whether no key field is a collection field.
pub open spec fn disjoint(keys: Seq<usize>, collections: Seq<usize>) -> bool {
    forall|k: int| 0 <= k < keys.len() ==> !collections.contains(#[trigger] keys[k])
}

/// Merging a row into an object leaves the key of the object as it is,
/// where no key field is a collection field.
pub proof fn lemma_absorbed_keeps_key(
    object: RecordView,
    row: RecordView,
    keys: Seq<usize>,
    collections: Seq<usize>,
    other: RecordView,
)
    requires
        disjoint(keys, collections),
    ensures
        same_key(absorbed(object, row, collections), other, keys) == same_key(object, other, keys),
        same_key(other, absorbed(object, row, collections), keys) == same_key(other, object, keys),
{
    let merged = absorbed(object, row, collections);
    assert forall|k: int| 0 <= k < keys.len() implies field(merged, #[trigger] keys[k]) == field(
        object,
        keys[k],
    ) by {
        assert(!collections.contains(keys[k]));
    }
}

/// What [`first_with_key`] finds is the first object with the key, and
/// where it finds none, no object has the key.
pub proof fn lemma_first_with_key(
    objects: Seq<RecordView>,
    row: RecordView,
    keys: Seq<usize>,
    from: int,
)
    requires
        0 <= from,
    ensures
        match first_with_key(objects, row, keys, from) {
            Some(j) => from <= j < objects.len() && same_key(objects[j], row, keys) && forall|
                i: int,
            | from <= i < j ==> !same_key(#[trigger] objects[i], row, keys),
            None => forall|i: int|
                from <= i < objects.len() ==> !same_key(#[trigger] objects[i], row, keys),
        },
    decreases objects.len() - from,
{
    if from < objects.len() && !same_key(objects[from], row, keys) {
        lemma_first_with_key(objects, row, keys, from + 1);
    }
}

/// Merging makes no more objects than there are rows.
pub proof fn lemma_merged_len(merge: MergeView, rows: Seq<RecordView>)
    ensures
        merge.merged(rows).len() <= rows.len(),
    decreases rows.len(),
{
    if rows.len() > 0 {
        lemma_merged_len(merge, rows.drop_last());
        lemma_first_with_key(merge.merged(rows.drop_last()), rows.last(), merge.keys, 0);
    }
}

/// With `Hash`, no two objects have the same key: every row went into the
/// one object of its key, wherever the row stood.
pub proof fn lemma_hash_keys_distinct(merge: MergeView, rows: Seq<RecordView>)
    requires
        merge.kind == MergeKind::Hash,
        disjoint(merge.keys, merge.collections),
    ensures
        forall|i: int, j: int|
            0 <= i < j < merge.merged(rows).len() ==> !same_key(
                #[trigger] merge.merged(rows)[i],
                #[trigger] merge.merged(rows)[j],
                merge.keys,
            ),
    decreases rows.len(),
{
    if rows.len() > 0 {
        let before = merge.merged(rows.drop_last());
        let row = rows.last();
        let after = merge.merged(rows);
        let keys = merge.keys;
        lemma_hash_keys_distinct(merge, rows.drop_last());
        lemma_first_with_key(before, row, keys, 0);
        match merge.target(before, row) {
            Some(t) => {
                assert forall|i: int, j: int| 0 <= i < j < after.len() implies !same_key(
                    #[trigger] after[i],
                    #[trigger] after[j],
                    keys,
                ) by {
                    assert(!same_key(before[i], before[j], keys));
                    if i == t {
                        lemma_absorbed_keeps_key(before[t], row, keys, merge.collections, before[j]);
                    } else if j == t {
                        lemma_absorbed_keeps_key(before[t], row, keys, merge.collections, before[i]);
                    }
                }
            },
            None => {
                assert forall|i: int, j: int| 0 <= i < j < after.len() implies !same_key(
                    #[trigger] after[i],
                    #[trigger] after[j],
                    keys,
                ) by {
                    if j < before.len() {
                        assert(!same_key(before[i], before[j], keys));
                    } else {
                        assert(!same_key(before[i], row, keys));
                    }
                }
            },
        }
    }
}

/// With `Group`, no two neighbouring objects have the same key: a row with
/// the key of the object before it went into that object.
pub proof fn lemma_group_neighbours_differ(merge: MergeView, rows: Seq<RecordView>)
    requires
        merge.kind == MergeKind::Group,
        disjoint(merge.keys, merge.collections),
    ensures
        forall|i: int|
            0 <= i < merge.merged(rows).len() - 1 ==> !same_key(
                #[trigger] merge.merged(rows)[i],
                merge.merged(rows)[i + 1],
                merge.keys,
            ),
    decreases rows.len(),
{
    if rows.len() > 0 {
        let before = merge.merged(rows.drop_last());
        let row = rows.last();
        let after = merge.merged(rows);
        let keys = merge.keys;
        lemma_group_neighbours_differ(merge, rows.drop_last());
        match merge.target(before, row) {
            Some(t) => {
                assert forall|i: int| 0 <= i < after.len() - 1 implies !same_key(
                    #[trigger] after[i],
                    after[i + 1],
                    keys,
                ) by {
                    assert(!same_key(before[i], before[i + 1], keys));
                    if i + 1 == t {
                        lemma_absorbed_keeps_key(before[t], row, keys, merge.collections, before[i]);
                    }
                }
            },
            None => {
                assert forall|i: int| 0 <= i < after.len() - 1 implies !same_key(
                    #[trigger] after[i],
                    after[i + 1],
                    keys,
                ) by {
                    if i + 1 < before.len() {
                        assert(!same_key(before[i], before[i + 1], keys));
                    }
                }
            },
        }
    }
}

/// Whether `a` and `b` have the same key; see [`same_key`].
pub fn keys_match(a: &Record, b: &Record, keys: &[usize]) -> (same: bool)
    ensures
        same == same_key(a@, b@, keys@),
{
    let mut k: usize = 0;
    while k < keys.len()
        invariant
            k <= keys.len(),
            forall|j: int| 0 <= j < k ==> field(a@, #[trigger] keys@[j]) == field(b@, keys@[j]),
        decreases keys.len() - k,
    {
        let index = keys[k];
        let same = if index < a.fields.len() {
            index < b.fields.len() && a.fields[index].same(&b.fields[index])
        } else {
            index >= b.fields.len()
        };
        if !same {
            assert(field(a@, keys@[k as int]) != field(b@, keys@[k as int]));
            return false;
        }
        k = k + 1;
    }
    true
}

/// The values of two lists of records, one after the other, are the
/// values of the one list followed by those of the other.
pub proof fn lemma_record_views_add(a: Seq<Record>, b: Seq<Record>)
    ensures
        record_views(a + b) == record_views(a) + record_views(b),
{
    assert(record_views(a + b) =~= record_views(a) + record_views(b));
}

/// Appends the records of `theirs` to `mine` where both are collections.
fn absorb_item(mine: &mut Item, theirs: Item)
    ensures
        final(mine)@ == absorbed_item(old(mine)@, theirs@),
{
    match theirs {
        Item::Collection(mut more) => {
            match mine {
                Item::Collection(records) => {
                    proof {
                        crate::record::lemma_collection_view(*records);
                        crate::record::lemma_collection_view(more);
                        lemma_record_views_add(records@, more@);
                    }
                    records.append(&mut more);
                    proof {
                        crate::record::lemma_collection_view(*records);
                    }
                },
                _ => {},
            }
        },
        _ => {},
    }
}

/// Merges `row` into `object`; see [`absorbed`].
pub fn absorb(object: &mut Record, row: Record, collections: &[usize])
    ensures
        final(object)@ == absorbed(old(object)@, row@, collections@),
{
    let mut row = row;
    let ghost theirs = row@;
    let ghost mine = object@;
    let mut j: usize = 0;
    while j < collections.len()
        invariant
            j <= collections.len(),
            object.fields.len() == mine.fields.len(),
            row.fields.len() == theirs.fields.len(),
            forall|i: int|
                0 <= i < object.fields.len() ==> (#[trigger] object.fields[i])@ == (if i
                    < theirs.fields.len() && collections@.take(j as int).contains(i as usize) {
                    absorbed_item(mine.fields[i], theirs.fields[i])
                } else {
                    mine.fields[i]
                }),
            forall|i: int|
                0 <= i < row.fields.len() ==> (#[trigger] row.fields[i])@ == (if i
                    < object.fields.len() && collections@.take(j as int).contains(i as usize) {
                    ItemView::Absent
                } else {
                    theirs.fields[i]
                }),
        decreases collections.len() - j,
    {
        let c = collections[j];
        let ghost done = collections@.take(j as int);
        let ghost next = collections@.take(j + 1);
        proof {
            assert(next =~= done.push(c));
            assert forall|i: usize| next.contains(i) <==> (done.contains(i) || i == c) by {
                if done.contains(i) {
                    let at = choose|at: int| 0 <= at < done.len() && done[at] == i;
                    assert(next[at] == i);
                }
                if i == c {
                    assert(next[j as int] == c);
                }
            }
        }
        if c < object.fields.len() && c < row.fields.len() {
            let ghost object_before = object.fields@;
            let ghost row_before = row.fields@;
            let mut taken = Item::Absent;
            std::mem::swap(&mut row.fields[c], &mut taken);
            absorb_item(&mut object.fields[c], taken);
            proof {
                assert forall|i: int| 0 <= i < object.fields.len() implies (
                #[trigger] object.fields[i])@ == (if i < theirs.fields.len() && next.contains(
                    i as usize,
                ) {
                    absorbed_item(mine.fields[i], theirs.fields[i])
                } else {
                    mine.fields[i]
                }) by {
                    if i != c {
                        assert(object.fields[i] == object_before[i]);
                    }
                }
                assert forall|i: int| 0 <= i < row.fields.len() implies (#[trigger] row.fields[i])@
                    == (if i < object.fields.len() && next.contains(i as usize) {
                    ItemView::Absent
                } else {
                    theirs.fields[i]
                }) by {
                    if i != c {
                        assert(row.fields[i] == row_before[i]);
                    }
                }
            }
        }
        j = j + 1;
    }
    proof {
        assert(collections@.take(collections.len() as int) =~= collections@);
        assert(object@.fields =~= absorbed(mine, theirs, collections@).fields);
    }
}

/// The index of the first of `objects` that has the key of `row`.
pub fn find_key(objects: &Vec<Record>, row: &Record, keys: &[usize]) -> (found: Option<usize>)
    ensures
        match found {
            Some(j) => first_with_key(record_views(objects@), row@, keys@, 0) == Some(j as int)
                && j < objects.len(),
            None => first_with_key(record_views(objects@), row@, keys@, 0) is None,
        },
{
    let mut j: usize = 0;
    while j < objects.len()
        invariant
            j <= objects.len(),
            first_with_key(record_views(objects@), row@, keys@, 0) == first_with_key(
                record_views(objects@),
                row@,
                keys@,
                j as int,
            ),
        decreases objects.len() - j,
    {
        assert(record_views(objects@)[j as int] == objects[j as int]@);
        if keys_match(&objects[j], row, keys) {
            return Some(j);
        }
        j = j + 1;
    }
    None
}

impl Merge {
    /// Takes one more row: merges `row` into its target among `objects`,
    /// or appends it as a new object; see [`MergeView::step`].
    pub fn push(&self, objects: &mut Vec<Record>, row: Record)
        ensures
            record_views(final(objects)@) == self@.step(record_views(old(objects)@), row@),
    {
        let ghost before = record_views(objects@);
        let target = match self.kind {
            MergeKind::Group => {
                let len = objects.len();
                if len > 0 {
                    assert(before.last() == objects[len - 1]@);
                    if keys_match(&objects[len - 1], &row, self.keys.as_slice()) {
                        Some(len - 1)
                    } else {
                        None
                    }
                } else {
                    None
                }
            },
            MergeKind::Hash => find_key(objects, &row, self.keys.as_slice()),
        };
        assert(match target {
            Some(j) => self@.target(before, row@) == Some(j as int) && j < objects.len(),
            None => self@.target(before, row@) is None,
        });
        match target {
            Some(j) => {
                assert(before[j as int] == objects[j as int]@);
                absorb(&mut objects[j], row, self.collections.as_slice());
                assert(record_views(objects@) =~= before.update(
                    j as int,
                    absorbed(before[j as int], row@, self.collections@),
                ));
            },
            None => {
                objects.push(row);
                assert(record_views(objects@) =~= before.push(row@));
            },
        }
    }
}

} // verus!
