//! What merging keeps: the records that the rows hold, and their order.

use crate::attrs::MergeKind;
use crate::merge::{
    absorbed, absorbed_item, disjoint, field, first_with_key, lemma_absorbed_keeps_key,
    lemma_first_with_key, lemma_hash_keys_distinct, same_key, MergeView,
};
use crate::record::{ItemView, RecordView};
use vstd::prelude::*;

verus! {

/// The records that the field `c` of `record` has collected; none where
/// the field is no collection.
pub open spec fn collected(record: RecordView, c: usize) -> Seq<RecordView> {
    match field(record, c) {
        Some(ItemView::Collection(records)) => records,
        _ => Seq::empty(),
    }
}

/// Whether each of the fields `collections` of `record` is a collection.
pub open spec fn collects(record: RecordView, collections: Seq<usize>) -> bool {
    forall|k: int|
        0 <= k < collections.len() ==> field(record, #[trigger] collections[k]) matches Some(
            ItemView::Collection(_),
        )
}

/// What the first `upto` of `records` have collected in the field `c`,
/// one after the other.
pub open spec fn flattened(records: Seq<RecordView>, c: usize, upto: int) -> Seq<RecordView>
    decreases upto,
{
    if upto <= 0 || upto > records.len() {
        Seq::empty()
    } else {
        flattened(records, c, upto - 1) + collected(records[upto - 1], c)
    }
}

/// What those of the first `upto` of `rows` that have the key of `object`
/// have collected in the field `c`, one after the other.
pub open spec fn gathered(
    rows: Seq<RecordView>,
    keys: Seq<usize>,
    object: RecordView,
    c: usize,
    upto: int,
) -> Seq<RecordView>
    decreases upto,
{
    if upto <= 0 || upto > rows.len() {
        Seq::empty()
    } else {
        gathered(rows, keys, object, c, upto - 1) + if same_key(rows[upto - 1], object, keys) {
            collected(rows[upto - 1], c)
        } else {
            Seq::empty()
        }
    }
}

/// To have the same key is symmetric.
pub proof fn lemma_same_key_symmetric(a: RecordView, b: RecordView, keys: Seq<usize>)
    ensures
        same_key(a, b, keys) == same_key(b, a, keys),
{
}

/// To have the same key is transitive.
pub proof fn lemma_same_key_transitive(a: RecordView, b: RecordView, c: RecordView, keys: Seq<usize>)
    requires
        same_key(a, b, keys),
        same_key(b, c, keys),
    ensures
        same_key(a, c, keys),
{
}

/// An object that takes a row has collections where both had them.
pub proof fn lemma_absorbed_collects(object: RecordView, row: RecordView, collections: Seq<usize>)
    requires
        collects(object, collections),
        collects(row, collections),
    ensures
        collects(absorbed(object, row, collections), collections),
{
    let merged = absorbed(object, row, collections);
    assert forall|k: int| 0 <= k < collections.len() implies field(
        merged,
        #[trigger] collections[k],
    ) matches Some(ItemView::Collection(_)) by {
        let c = collections[k];
        assert(collections.contains(c));
        assert(field(object, c) matches Some(ItemView::Collection(_)));
        assert(field(row, c) matches Some(ItemView::Collection(_)));
        assert(merged.fields[c as int] == absorbed_item(
            object.fields[c as int],
            row.fields[c as int],
        ));
    }
}

/// An object that takes a row has collected what it had, and then what
/// the row had.
pub proof fn lemma_absorbed_collected(
    object: RecordView,
    row: RecordView,
    collections: Seq<usize>,
    c: usize,
)
    requires
        collects(object, collections),
        collects(row, collections),
        collections.contains(c),
    ensures
        collected(absorbed(object, row, collections), c) == collected(object, c) + collected(
            row,
            c,
        ),
{
    let merged = absorbed(object, row, collections);
    let k = choose|k: int| 0 <= k < collections.len() && collections[k] == c;
    assert(field(object, collections[k]) matches Some(ItemView::Collection(_)));
    assert(field(row, collections[k]) matches Some(ItemView::Collection(_)));
    assert(merged.fields[c as int] == absorbed_item(object.fields[c as int], row.fields[c as int]));
}

/// With `Group`, the objects hold in their collections what the rows
/// hold, in the order of the rows.
pub proof fn lemma_group_keeps_order(merge: MergeView, rows: Seq<RecordView>, c: usize)
    requires
        merge.kind == MergeKind::Group,
        merge.collections.contains(c),
        forall|i: int| 0 <= i < rows.len() ==> collects(#[trigger] rows[i], merge.collections),
    ensures
        flattened(merge.merged(rows), c, merge.merged(rows).len() as int) == flattened(
            rows,
            c,
            rows.len() as int,
        ),
        forall|j: int|
            0 <= j < merge.merged(rows).len() ==> collects(
                #[trigger] merge.merged(rows)[j],
                merge.collections,
            ),
    decreases rows.len(),
{
    if rows.len() > 0 {
        let front = rows.drop_last();
        let row = rows.last();
        let before = merge.merged(front);
        let after = merge.merged(rows);
        let n = front.len() as int;
        assert forall|i: int| 0 <= i < front.len() implies collects(
            #[trigger] front[i],
            merge.collections,
        ) by {
            assert(front[i] == rows[i]);
        }
        lemma_group_keeps_order(merge, front, c);
        lemma_flattened_prefix(rows, front, c, n);
        match merge.target(before, row) {
            Some(t) => {
                let last = before.len() - 1;
                lemma_absorbed_collects(before[last], row, merge.collections);
                lemma_absorbed_collected(before[last], row, merge.collections, c);
                lemma_flattened_prefix(after, before, c, last);
                assert(flattened(after, c, after.len() as int) =~= flattened(before, c, last) + (
                collected(before[last], c) + collected(row, c)));
                assert(flattened(before, c, before.len() as int) + collected(row, c)
                    =~= flattened(before, c, last) + (collected(before[last], c) + collected(
                    row,
                    c,
                )));
                assert forall|j: int| 0 <= j < after.len() implies collects(
                    #[trigger] after[j],
                    merge.collections,
                ) by {
                    if j != last {
                        assert(after[j] == before[j]);
                    }
                }
            },
            None => {
                lemma_flattened_prefix(after, before, c, before.len() as int);
                assert forall|j: int| 0 <= j < after.len() implies collects(
                    #[trigger] after[j],
                    merge.collections,
                ) by {
                    if j < before.len() {
                        assert(after[j] == before[j]);
                    }
                }
            },
        }
    }
}

/// What the first records have collected does not depend on the records
/// after them.
pub proof fn lemma_flattened_prefix(a: Seq<RecordView>, b: Seq<RecordView>, c: usize, upto: int)
    requires
        0 <= upto <= a.len(),
        upto <= b.len(),
        forall|i: int| 0 <= i < upto ==> a[i] == b[i],
    ensures
        flattened(a, c, upto) == flattened(b, c, upto),
    decreases upto,
{
    if upto > 0 {
        lemma_flattened_prefix(a, b, c, upto - 1);
    }
}

/// What the first rows of a key have collected does not depend on the
/// rows after them.
pub proof fn lemma_gathered_prefix(
    a: Seq<RecordView>,
    b: Seq<RecordView>,
    keys: Seq<usize>,
    object: RecordView,
    c: usize,
    upto: int,
)
    requires
        0 <= upto <= a.len(),
        upto <= b.len(),
        forall|i: int| 0 <= i < upto ==> a[i] == b[i],
    ensures
        gathered(a, keys, object, c, upto) == gathered(b, keys, object, c, upto),
    decreases upto,
{
    if upto > 0 {
        lemma_gathered_prefix(a, b, keys, object, c, upto - 1);
    }
}

/// What the rows of a key have collected is the same for every object
/// with that key.
pub proof fn lemma_gathered_same_key(
    rows: Seq<RecordView>,
    keys: Seq<usize>,
    a: RecordView,
    b: RecordView,
    c: usize,
    upto: int,
)
    requires
        same_key(a, b, keys),
    ensures
        gathered(rows, keys, a, c, upto) == gathered(rows, keys, b, c, upto),
    decreases upto,
{
    if 0 < upto <= rows.len() {
        lemma_gathered_same_key(rows, keys, a, b, c, upto - 1);
        let row = rows[upto - 1];
        if same_key(row, a, keys) {
            lemma_same_key_transitive(row, a, b, keys);
        }
        if same_key(row, b, keys) {
            lemma_same_key_symmetric(a, b, keys);
            lemma_same_key_transitive(row, b, a, keys);
        }
    }
}

/// Rows of other keys have collected nothing for an object.
pub proof fn lemma_gathered_none(
    rows: Seq<RecordView>,
    keys: Seq<usize>,
    object: RecordView,
    c: usize,
    upto: int,
)
    requires
        forall|i: int| 0 <= i < upto && i < rows.len() ==> !same_key(#[trigger] rows[i], object, keys),
    ensures
        gathered(rows, keys, object, c, upto) == Seq::<RecordView>::empty(),
    decreases upto,
{
    if 0 < upto <= rows.len() {
        lemma_gathered_none(rows, keys, object, c, upto - 1);
        assert(!same_key(rows[upto - 1], object, keys));
    }
}

/// With `Hash`, every object holds in its collections what the rows of
/// its key hold, in the order of the rows.
pub proof fn lemma_hash_gathers(merge: MergeView, rows: Seq<RecordView>, c: usize)
    requires
        merge.kind == MergeKind::Hash,
        disjoint(merge.keys, merge.collections),
        merge.collections.contains(c),
        forall|i: int| 0 <= i < rows.len() ==> collects(#[trigger] rows[i], merge.collections),
    ensures
        forall|j: int|
            0 <= j < merge.merged(rows).len() ==> collects(
                #[trigger] merge.merged(rows)[j],
                merge.collections,
            ),
        forall|j: int|
            0 <= j < merge.merged(rows).len() ==> collected(#[trigger] merge.merged(rows)[j], c)
                == gathered(rows, merge.keys, merge.merged(rows)[j], c, rows.len() as int),
    decreases rows.len(),
{
    if rows.len() > 0 {
        let keys = merge.keys;
        let front = rows.drop_last();
        let row = rows.last();
        let before = merge.merged(front);
        let after = merge.merged(rows);
        let n = front.len() as int;
        assert forall|i: int| 0 <= i < front.len() implies collects(
            #[trigger] front[i],
            merge.collections,
        ) by {
            assert(front[i] == rows[i]);
        }
        lemma_hash_gathers(merge, front, c);
        lemma_hash_keys_distinct(merge, front);
        lemma_hash_covers(merge, front);
        lemma_first_with_key(before, row, keys, 0);
        assert(collects(row, merge.collections)) by {
            assert(row == rows[n]);
        }
        match merge.target(before, row) {
            Some(t) => {
                let taken = absorbed(before[t], row, merge.collections);
                lemma_absorbed_collects(before[t], row, merge.collections);
                lemma_absorbed_collected(before[t], row, merge.collections, c);
                lemma_absorbed_keeps_key(before[t], row, keys, merge.collections, before[t]);
                lemma_absorbed_keeps_key(before[t], row, keys, merge.collections, row);
                assert(same_key(taken, before[t], keys));
                assert(same_key(taken, row, keys));
                lemma_same_key_symmetric(taken, row, keys);
                assert forall|j: int| 0 <= j < after.len() implies collects(
                    #[trigger] after[j],
                    merge.collections,
                ) by {
                    if j != t {
                        assert(after[j] == before[j]);
                    }
                }
                assert forall|j: int| 0 <= j < after.len() implies collected(
                    #[trigger] after[j],
                    c,
                ) == gathered(rows, keys, after[j], c, rows.len() as int) by {
                    lemma_gathered_prefix(rows, front, keys, after[j], c, n);
                    if j == t {
                        lemma_gathered_same_key(front, keys, taken, before[t], c, n);
                        assert(collected(before[t], c) == gathered(front, keys, before[t], c, n));
                    } else {
                        assert(after[j] == before[j]);
                        assert(collected(before[j], c) == gathered(front, keys, before[j], c, n));
                        if same_key(row, before[j], keys) {
                            lemma_same_key_transitive(before[t], row, before[j], keys);
                            if t < j {
                                assert(!same_key(before[t], before[j], keys));
                            } else {
                                lemma_same_key_symmetric(before[t], before[j], keys);
                                assert(!same_key(before[j], before[t], keys));
                            }
                        }
                        assert(gathered(front, keys, before[j], c, n) + Seq::<RecordView>::empty()
                            =~= gathered(front, keys, before[j], c, n));
                    }
                }
            },
            None => {
                assert forall|j: int| 0 <= j < after.len() implies collects(
                    #[trigger] after[j],
                    merge.collections,
                ) by {
                    if j < before.len() {
                        assert(after[j] == before[j]);
                    }
                }
                assert forall|j: int| 0 <= j < after.len() implies collected(
                    #[trigger] after[j],
                    c,
                ) == gathered(rows, keys, after[j], c, rows.len() as int) by {
                    lemma_gathered_prefix(rows, front, keys, after[j], c, n);
                    if j < before.len() {
                        assert(after[j] == before[j]);
                        assert(collected(before[j], c) == gathered(front, keys, before[j], c, n));
                        assert(!same_key(before[j], row, keys));
                        lemma_same_key_symmetric(before[j], row, keys);
                        assert(gathered(front, keys, before[j], c, n) + Seq::<RecordView>::empty()
                            =~= gathered(front, keys, before[j], c, n));
                    } else {
                        assert(after[j] == row);
                        assert forall|i: int| 0 <= i < n && i < front.len() implies !same_key(
                            #[trigger] front[i],
                            row,
                            keys,
                        ) by {
                            lemma_first_with_key(before, front[i], keys, 0);
                            let k = first_with_key(before, front[i], keys, 0)->0;
                            if same_key(front[i], row, keys) {
                                lemma_same_key_transitive(before[k], front[i], row, keys);
                                assert(!same_key(before[k], row, keys));
                            }
                        }
                        lemma_gathered_none(front, keys, row, c, n);
                        assert(Seq::<RecordView>::empty() + collected(row, c) =~= collected(
                            row,
                            c,
                        ));
                    }
                }
            },
        }
    }
}

/// With `Hash`, every row has gone into an object: the objects hold one
/// with the key of the row.
pub proof fn lemma_hash_covers(merge: MergeView, rows: Seq<RecordView>)
    requires
        merge.kind == MergeKind::Hash,
        disjoint(merge.keys, merge.collections),
    ensures
        forall|i: int|
            0 <= i < rows.len() ==> first_with_key(
                merge.merged(rows),
                #[trigger] rows[i],
                merge.keys,
                0,
            ) is Some,
    decreases rows.len(),
{
    if rows.len() > 0 {
        let keys = merge.keys;
        let front = rows.drop_last();
        let row = rows.last();
        let before = merge.merged(front);
        let after = merge.merged(rows);
        let n = front.len() as int;
        lemma_hash_covers(merge, front);
        lemma_first_with_key(before, row, keys, 0);
        assert forall|i: int| 0 <= i < rows.len() implies first_with_key(
            after,
            #[trigger] rows[i],
            keys,
            0,
        ) is Some by {
            lemma_first_with_key(after, rows[i], keys, 0);
            let object = if i < n {
                assert(rows[i] == front[i]);
                lemma_first_with_key(before, front[i], keys, 0);
                first_with_key(before, front[i], keys, 0)->0
            } else {
                match merge.target(before, row) {
                    Some(t) => t,
                    None => before.len() as int,
                }
            };
            match merge.target(before, row) {
                Some(t) => {
                    if object == t {
                        lemma_absorbed_keeps_key(
                            before[t],
                            row,
                            keys,
                            merge.collections,
                            rows[i],
                        );
                    } else {
                        assert(after[object] == before[object]);
                    }
                },
                None => {
                    if object < before.len() {
                        assert(after[object] == before[object]);
                    } else {
                        assert(after[object] == row);
                    }
                },
            }
            assert(same_key(after[object], rows[i], keys));
        }
    }
}

/// The first row with a key is the same among more rows.
pub proof fn lemma_first_with_key_prefix(
    rows: Seq<RecordView>,
    more: Seq<RecordView>,
    object: RecordView,
    keys: Seq<usize>,
)
    requires
        rows.len() <= more.len(),
        forall|i: int| 0 <= i < rows.len() ==> rows[i] == more[i],
        first_with_key(rows, object, keys, 0) is Some,
    ensures
        first_with_key(more, object, keys, 0) == first_with_key(rows, object, keys, 0),
{
    lemma_first_with_key(rows, object, keys, 0);
    lemma_first_with_key(more, object, keys, 0);
    let i = first_with_key(rows, object, keys, 0)->0;
    assert(same_key(more[i], object, keys));
    let j = first_with_key(more, object, keys, 0)->0;
    if j < i {
        assert(!same_key(rows[j], object, keys));
    }
}

/// The first row with the key of an object is the first row with the key
/// of any object of the same key.
pub proof fn lemma_first_with_key_same_key(
    rows: Seq<RecordView>,
    a: RecordView,
    b: RecordView,
    keys: Seq<usize>,
    from: int,
)
    requires
        same_key(a, b, keys),
    ensures
        first_with_key(rows, a, keys, from) == first_with_key(rows, b, keys, from),
    decreases rows.len() - from,
{
    if 0 <= from < rows.len() {
        if same_key(rows[from], a, keys) {
            lemma_same_key_transitive(rows[from], a, b, keys);
        } else {
            if same_key(rows[from], b, keys) {
                lemma_same_key_symmetric(a, b, keys);
                lemma_same_key_transitive(rows[from], b, a, keys);
            }
            lemma_first_with_key_same_key(rows, a, b, keys, from + 1);
        }
    }
}

/// With `Hash`, the objects stand in the order in which their keys were
/// first seen: each has a first row of its key, and the first row of an
/// earlier object comes before that of a later one.
pub proof fn lemma_hash_first_seen_order(merge: MergeView, rows: Seq<RecordView>)
    requires
        merge.kind == MergeKind::Hash,
        disjoint(merge.keys, merge.collections),
    ensures
        forall|j: int|
            0 <= j < merge.merged(rows).len() ==> first_with_key(
                rows,
                #[trigger] merge.merged(rows)[j],
                merge.keys,
                0,
            ) is Some,
        forall|j: int, k: int|
            0 <= j < k < merge.merged(rows).len() ==> first_with_key(
                rows,
                #[trigger] merge.merged(rows)[j],
                merge.keys,
                0,
            )->0 < first_with_key(rows, #[trigger] merge.merged(rows)[k], merge.keys, 0)->0,
    decreases rows.len(),
{
    if rows.len() > 0 {
        let keys = merge.keys;
        let front = rows.drop_last();
        let row = rows.last();
        let before = merge.merged(front);
        let after = merge.merged(rows);
        let n = front.len() as int;
        lemma_hash_first_seen_order(merge, front);
        lemma_hash_covers(merge, front);
        lemma_first_with_key(before, row, keys, 0);
        // The first row of each object that stood before, among all rows.
        assert forall|j: int| 0 <= j < before.len() implies first_with_key(
            rows,
            #[trigger] after[j],
            keys,
            0,
        ) == first_with_key(front, before[j], keys, 0) by {
            lemma_first_with_key_prefix(front, rows, before[j], keys);
            if merge.target(before, row) == Some(j) {
                lemma_absorbed_keeps_key(before[j], row, keys, merge.collections, before[j]);
                lemma_first_with_key_same_key(rows, after[j], before[j], keys, 0);
            } else {
                assert(after[j] == before[j]);
            }
        }
        if merge.target(before, row) is None {
            let m = before.len() as int;
            assert(after[m] == row);
            lemma_first_with_key(rows, row, keys, 0);
            assert(same_key(rows[n], row, keys));
            assert forall|i: int| 0 <= i < n implies !same_key(#[trigger] rows[i], row, keys) by {
                assert(rows[i] == front[i]);
                lemma_first_with_key(before, front[i], keys, 0);
                let k = first_with_key(before, front[i], keys, 0)->0;
                if same_key(front[i], row, keys) {
                    lemma_same_key_transitive(before[k], front[i], row, keys);
                    assert(!same_key(before[k], row, keys));
                }
            }
            assert(first_with_key(rows, after[m], keys, 0) == Some(n));
            assert forall|j: int| 0 <= j < before.len() implies first_with_key(
                rows,
                #[trigger] after[j],
                keys,
                0,
            )->0 < n by {
                lemma_first_with_key(front, before[j], keys, 0);
            }
        }
    }
}

} // verus!
