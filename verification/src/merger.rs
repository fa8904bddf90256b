//! Merging rows one by one, with an index of the keys that were seen.
//!
//! With [`MergeKind::Hash`] a row goes into the first object of its key,
//! wherever that stands. A [`Merger`] finds it through a hash map from the
//! hash of a key to the objects whose keys have that hash.

use crate::attrs::MergeKind;
use crate::merge::{
    absorb, absorbed, disjoint, field, first_with_key, keys_match, lemma_absorbed_keeps_key,
    lemma_first_with_key, same_key, Merge, MergeView,
};
use crate::record::{record_views, Item, ItemView, Record, RecordView};
use crate::value::{Value, ValueView};
use std::collections::HashMap;
use vstd::prelude::*;
use vstd::std_specs::hash::*;

verus! {

broadcast use vstd::std_specs::hash::group_hash_axioms;

/// `hash` after taking in `word`.
pub open spec fn mix(hash: u64, word: u64) -> u64 {
    (hash ^ word).wrapping_mul(0x100_0000_01b3)
}

/// `hash` after taking in the characters of `text`, one after the other.
pub open spec fn hash_chars(text: Seq<char>, hash: u64) -> u64
    decreases text.len(),
{
    if text.len() == 0 {
        hash
    } else {
        mix(hash_chars(text.drop_last(), hash), text.last() as u64)
    }
}

/// `hash` after taking in `bytes`, one after the other.
pub open spec fn hash_bytes(bytes: Seq<u8>, hash: u64) -> u64
    decreases bytes.len(),
{
    if bytes.len() == 0 {
        hash
    } else {
        mix(hash_bytes(bytes.drop_last(), hash), bytes.last() as u64)
    }
}

/// `hash` after taking in `value`.
pub open spec fn hash_value(value: ValueView, hash: u64) -> u64 {
    match value {
        ValueView::Null => mix(hash, 0),
        ValueView::Bool(b) => mix(
            mix(hash, 1),
            if b {
                1
            } else {
                0
            },
        ),
        ValueView::Int(i) => if i >= 0 {
            mix(mix(hash, 2), i as u64)
        } else {
            mix(mix(hash, 3), (-(i + 1)) as u64)
        },
        ValueView::Text(text) => hash_chars(text, mix(hash, 4)),
        ValueView::Bytes(bytes) => hash_bytes(bytes, mix(hash, 5)),
    }
}

/// `hash` after taking in the field `item` of a key. Of a field that is
/// no cell only its kind is taken in.
pub open spec fn hash_item(item: Option<ItemView>, hash: u64) -> u64 {
    match item {
        Some(ItemView::Cell(value)) => hash_value(value, mix(hash, 6)),
        Some(ItemView::Nested(_)) => mix(hash, 7),
        Some(ItemView::Absent) => mix(hash, 8),
        Some(ItemView::Collection(_)) => mix(hash, 9),
        None => mix(hash, 10),
    }
}

/// The hash of the first `upto` key fields of `record`.
pub open spec fn hash_key_upto(record: RecordView, keys: Seq<usize>, upto: int) -> u64
    decreases upto,
{
    if upto <= 0 || upto > keys.len() {
        0xcbf2_9ce4_8422_2325
    } else {
        hash_item(field(record, keys[upto - 1]), hash_key_upto(record, keys, upto - 1))
    }
}

/// The hash of the key of `record`: records with the same key have the
/// same hash.
pub open spec fn hash_key(record: RecordView, keys: Seq<usize>) -> u64 {
    hash_key_upto(record, keys, keys.len() as int)
}

/// Records with the same key have the same hash.
pub proof fn lemma_same_key_same_hash(a: RecordView, b: RecordView, keys: Seq<usize>, upto: int)
    requires
        same_key(a, b, keys),
    ensures
        hash_key_upto(a, keys, upto) == hash_key_upto(b, keys, upto),
    decreases upto,
{
    if 0 < upto <= keys.len() {
        lemma_same_key_same_hash(a, b, keys, upto - 1);
        assert(field(a, keys[upto - 1]) == field(b, keys[upto - 1]));
    }
}

/// Computes [`mix`].
fn mixed(hash: u64, word: u64) -> (mixed: u64)
    ensures
        mixed == mix(hash, word),
{
    (hash ^ word).wrapping_mul(0x100_0000_01b3)
}

/// Computes [`hash_value`].
fn value_hash(value: &Value, hash: u64) -> (hashed: u64)
    ensures
        hashed == hash_value(value@, hash),
{
    match value {
        Value::Null => mixed(hash, 0),
        Value::Bool(b) => mixed(
            mixed(hash, 1),
            if *b {
                1
            } else {
                0
            },
        ),
        Value::Int(i) => if *i >= 0 {
            mixed(mixed(hash, 2), *i as u64)
        } else {
            mixed(mixed(hash, 3), (-(*i + 1)) as u64)
        },
        Value::Text(text) => {
            let mut hashed = mixed(hash, 4);
            let ghost start = hashed;
            assert(text@.take(0) =~= Seq::<char>::empty());
            for c in it: text.as_str().chars()
                invariant
                    it.seq() == text@,
                    hashed == hash_chars(text@.take(it.index() as int), start),
            {
                let ghost n = it.index() as int;
                assert(text@.take(n + 1).drop_last() =~= text@.take(n));
                hashed = mixed(hashed, c as u64);
            }
            assert(text@.take(text@.len() as int) =~= text@);
            hashed
        },
        Value::Bytes(bytes) => {
            let mut hashed = mixed(hash, 5);
            let ghost start = hashed;
            let mut i: usize = 0;
            assert(bytes@.take(0) =~= Seq::<u8>::empty());
            while i < bytes.len()
                invariant
                    i <= bytes.len(),
                    hashed == hash_bytes(bytes@.take(i as int), start),
                decreases bytes.len() - i,
            {
                assert(bytes@.take(i + 1).drop_last() =~= bytes@.take(i as int));
                hashed = mixed(hashed, bytes[i] as u64);
                i = i + 1;
            }
            assert(bytes@.take(bytes.len() as int) =~= bytes@);
            hashed
        },
    }
}

/// Computes [`hash_key`].
pub fn key_hash(record: &Record, keys: &[usize]) -> (hash: u64)
    ensures
        hash == hash_key(record@, keys@),
{
    let mut hash: u64 = 0xcbf2_9ce4_8422_2325;
    let mut k: usize = 0;
    while k < keys.len()
        invariant
            k <= keys.len(),
            hash == hash_key_upto(record@, keys@, k as int),
        decreases keys.len() - k,
    {
        let index = keys[k];
        hash = if index < record.fields.len() {
            match &record.fields[index] {
                Item::Cell(value) => value_hash(value, mixed(hash, 6)),
                Item::Nested(_) => mixed(hash, 7),
                Item::Absent => mixed(hash, 8),
                Item::Collection(_) => mixed(hash, 9),
            }
        } else {
            mixed(hash, 10)
        };
        k = k + 1;
    }
    hash
}

/// Whether `buckets` index the keys of `objects`: every object stands in
/// the bucket of the hash of its key, and every bucket lists objects in
/// rising order.
pub open spec fn indexes(
    buckets: Map<u64, Vec<usize>>,
    objects: Seq<RecordView>,
    keys: Seq<usize>,
) -> bool {
    &&& forall|j: int|
        0 <= j < objects.len() ==> buckets.contains_key(
            #[trigger] hash_key(objects[j], keys),
        ) && buckets[hash_key(objects[j], keys)]@.contains(j as usize)
    &&& forall|hash: u64, a: int, b: int|
        buckets.contains_key(hash) && 0 <= a < b < buckets[hash].len() ==> (
        #[trigger] buckets[hash][a]) < (#[trigger] buckets[hash][b])
    &&& forall|hash: u64, a: int|
        buckets.contains_key(hash) && 0 <= a < buckets[hash].len() ==> (
        #[trigger] buckets[hash][a]) < objects.len()
}

/// The objects that the rows taken so far make, with what it takes to
/// find the object of the next row.
pub struct Merger<'a> {
    merge: &'a Merge,
    objects: Vec<Record>,
    /// The buckets of the index, where the merger keeps one.
    buckets: Option<HashMap<u64, Vec<usize>>>,
}

impl<'a> Merger<'a> {
    /// Whether the index, where there is one, indexes the objects.
    pub closed spec fn well_formed(&self) -> bool {
        match self.buckets {
            Some(buckets) => {
                &&& self.merge.kind == MergeKind::Hash
                &&& disjoint(self.merge.keys@, self.merge.collections@)
                &&& indexes(buckets@, record_views(self.objects@), self.merge.keys@)
            },
            None => true,
        }
    }

    /// How the merger merges.
    pub closed spec fn merge(&self) -> MergeView {
        self.merge@
    }

    /// The objects made so far.
    pub closed spec fn objects(&self) -> Seq<RecordView> {
        record_views(self.objects@)
    }

    /// A merger without objects. It keeps an index where it merges by
    /// `Hash` and no key field is a collection field.
    pub fn new(merge: &'a Merge) -> (merger: Merger<'a>)
        ensures
            merger.well_formed(),
            merger.merge() == merge@,
            merger.objects() == Seq::<RecordView>::empty(),
    {
        let indexed = match merge.kind {
            MergeKind::Hash => are_disjoint(merge.keys.as_slice(), merge.collections.as_slice()),
            MergeKind::Group => false,
        };
        let buckets = if indexed {
            Some(HashMap::new())
        } else {
            None
        };
        let merger = Merger { merge, objects: Vec::new(), buckets };
        assert(record_views(merger.objects@) =~= Seq::<RecordView>::empty());
        merger
    }

    /// Takes one more row: merges `row` into its target among the
    /// objects, or appends it as a new object; see [`MergeView::step`].
    pub fn push(&mut self, row: Record)
        requires
            old(self).well_formed(),
        ensures
            final(self).well_formed(),
            final(self).merge() == old(self).merge(),
            final(self).objects() == old(self).merge().step(old(self).objects(), row@),
    {
        let ghost before = record_views(self.objects@);
        let ghost keys = self.merge.keys@;
        let ghost collections = self.merge.collections@;
        match &mut self.buckets {
            None => {
                self.merge.push(&mut self.objects, row);
            },
            Some(buckets) => {
                let hash = key_hash(&row, self.merge.keys.as_slice());
                let found = find_indexed(buckets, &self.objects, &row, self.merge.keys.as_slice(), hash);
                match found {
                    Some(j) => {
                        assert(before[j as int] == self.objects[j as int]@);
                        absorb(&mut self.objects[j], row, self.merge.collections.as_slice());
                        proof {
                            let merged = absorbed(before[j as int], row@, collections);
                            let after = record_views(self.objects@);
                            assert(after =~= before.update(j as int, merged));
                            lemma_absorbed_keeps_key(
                                before[j as int],
                                row@,
                                keys,
                                collections,
                                before[j as int],
                            );
                            lemma_same_key_same_hash(merged, before[j as int], keys, keys.len() as int);
                            assert forall|i: int| 0 <= i < after.len() implies buckets@.contains_key(
                                #[trigger] hash_key(after[i], keys),
                            ) && buckets@[hash_key(after[i], keys)]@.contains(i as usize) by {
                                if i != j {
                                    assert(after[i] == before[i]);
                                }
                                assert(buckets@.contains_key(hash_key(before[i], keys)));
                            }
                        }
                    },
                    None => {
                        let j = self.objects.len();
                        let mut bucket = match buckets.remove(&hash) {
                            Some(bucket) => bucket,
                            None => Vec::new(),
                        };
                        let ghost old_buckets = old(self).buckets->0@;
                        let ghost old_bucket = bucket@;
                        bucket.push(j);
                        buckets.insert(hash, bucket);
                        self.objects.push(row);
                        proof {
                            let after = record_views(self.objects@);
                            assert(after =~= before.push(row@));
                            assert forall|i: int| 0 <= i < after.len() implies buckets@.contains_key(
                                #[trigger] hash_key(after[i], keys),
                            ) && buckets@[hash_key(after[i], keys)]@.contains(i as usize) by {
                                if i < before.len() {
                                    assert(after[i] == before[i]);
                                    let h = hash_key(before[i], keys);
                                    assert(old_buckets.contains_key(h));
                                    if h == hash {
                                        let at = choose|at: int|
                                            0 <= at < old_bucket.len() && old_bucket[at] == i as usize;
                                        assert(bucket@[at] == i as usize);
                                    }
                                } else {
                                    assert(bucket@[old_bucket.len() as int] == j);
                                }
                            }
                            assert forall|h: u64, a: int, b: int|
                                buckets@.contains_key(h) && 0 <= a < b < buckets@[h].len() implies (
                            #[trigger] buckets@[h][a]) < (#[trigger] buckets@[h][b]) by {
                                if h == hash {
                                    if b < old_bucket.len() {
                                        assert(old_buckets[h][a] < old_buckets[h][b]);
                                    } else {
                                        assert(old_buckets.contains_key(h) ==> old_buckets[h][a]
                                            < before.len());
                                    }
                                } else {
                                    assert(old_buckets[h][a] < old_buckets[h][b]);
                                }
                            }
                            assert forall|h: u64, a: int|
                                buckets@.contains_key(h) && 0 <= a < buckets@[h].len() implies (
                            #[trigger] buckets@[h][a]) < after.len() by {
                                if h == hash {
                                    if a < old_bucket.len() {
                                        assert(old_buckets[h][a] < before.len());
                                    }
                                } else {
                                    assert(old_buckets[h][a] < before.len());
                                }
                            }
                        }
                    },
                }
            },
        }
    }

    /// The objects that the rows made.
    pub fn finish(self) -> (objects: Vec<Record>)
        ensures
            record_views(objects@) == self.objects(),
    {
        self.objects
    }
}

/// Decides [`disjoint`].
pub fn are_disjoint(keys: &[usize], collections: &[usize]) -> (apart: bool)
    ensures
        apart == disjoint(keys@, collections@),
{
    let mut k: usize = 0;
    while k < keys.len()
        invariant
            k <= keys.len(),
            forall|i: int| 0 <= i < k ==> !collections@.contains(#[trigger] keys@[i]),
        decreases keys.len() - k,
    {
        let mut c: usize = 0;
        while c < collections.len()
            invariant
                c <= collections.len(),
                k < keys.len(),
                forall|i: int| 0 <= i < c ==> collections@[i] != keys@[k as int],
            decreases collections.len() - c,
        {
            if collections[c] == keys[k] {
                assert(collections@.contains(keys@[k as int]));
                return false;
            }
            c = c + 1;
        }
        k = k + 1;
    }
    true
}

/// The first object with the key of `row`, found through the index.
fn find_indexed(
    buckets: &HashMap<u64, Vec<usize>>,
    objects: &Vec<Record>,
    row: &Record,
    keys: &[usize],
    hash: u64,
) -> (found: Option<usize>)
    requires
        indexes(buckets@, record_views(objects@), keys@),
        hash == hash_key(row@, keys@),
    ensures
        match found {
            Some(j) => first_with_key(record_views(objects@), row@, keys@, 0) == Some(j as int)
                && j < objects.len(),
            None => first_with_key(record_views(objects@), row@, keys@, 0) is None,
        },
{
    let ghost all = record_views(objects@);
    proof {
        lemma_first_with_key(all, row@, keys@, 0);
        if let Some(first) = first_with_key(all, row@, keys@, 0) {
            lemma_same_key_same_hash(all[first], row@, keys@, keys@.len() as int);
            assert(hash_key(all[first], keys@) == hash);
            assert(buckets@.contains_key(hash));
        }
    }
    match buckets.get(&hash) {
        None => None,
        Some(bucket) => {
            let mut p: usize = 0;
            while p < bucket.len()
                invariant
                    p <= bucket.len(),
                    all == record_views(objects@),
                    hash == hash_key(row@, keys@),
                    buckets@.contains_key(hash) && buckets@[hash] == *bucket,
                    indexes(buckets@, all, keys@),
                    forall|q: int| 0 <= q < p ==> !same_key(all[bucket[q] as int], row@, keys@),
                decreases bucket.len() - p,
            {
                let candidate = bucket[p];
                assert(buckets@[hash][p as int] < all.len());
                assert(all[candidate as int] == objects[candidate as int]@);
                if keys_match(&objects[candidate], row, keys) {
                    proof {
                        lemma_first_with_key(all, row@, keys@, 0);
                        let first = first_with_key(all, row@, keys@, 0)->0;
                        lemma_same_key_same_hash(all[first], row@, keys@, keys@.len() as int);
                        assert(hash_key(all[first], keys@) == hash);
                        assert(all.len() == objects.len());
                        assert(bucket@.contains(first as usize));
                        let q = choose|q: int| 0 <= q < bucket@.len() && bucket@[q] == first as usize;
                        if q < p {
                            assert(!same_key(all[bucket[q] as int], row@, keys@));
                        } else if q > p {
                            assert(buckets@[hash][p as int] < buckets@[hash][q]);
                        }
                    }
                    return Some(candidate);
                }
                p = p + 1;
            }
            proof {
                lemma_first_with_key(all, row@, keys@, 0);
                if let Some(first) = first_with_key(all, row@, keys@, 0) {
                    lemma_same_key_same_hash(all[first], row@, keys@, keys@.len() as int);
                    assert(hash_key(all[first], keys@) == hash);
                    assert(all.len() == objects.len());
                    assert(bucket@.contains(first as usize));
                    let q = choose|q: int| 0 <= q < bucket@.len() && bucket@[q] == first as usize;
                    assert(!same_key(all[bucket[q] as int], row@, keys@));
                }
            }
            None
        },
    }
}

impl Merge {
    /// Merges the records of `rows`, taken in order, into objects; see
    /// [`MergeView::merged`].
    pub fn fold(&self, rows: Vec<Record>) -> (objects: Vec<Record>)
        ensures
            record_views(objects@) == self@.merged(record_views(rows@)),
    {
        let ghost all = record_views(rows@);
        let mut merger = Merger::new(self);
        assert(all.take(0) =~= Seq::<RecordView>::empty());
        for row in it: rows
            invariant
                all == record_views(it.seq()),
                merger.well_formed(),
                merger.merge() == self@,
                merger.objects() == self@.merged(all.take(it.index() as int)),
        {
            let ghost n = it.index() as int;
            assert(all.take(n + 1).drop_last() =~= all.take(n));
            assert(all.take(n + 1).last() == row@);
            merger.push(row);
        }
        assert(all.take(all.len() as int) =~= all);
        merger.finish()
    }
}

} // verus!
