//! Extract typed values from rows.

use crate::search::first_index_from;
use crate::text::{decimal, push_decimal, str_eq};
use crate::value::{Kind, Type};
use std::ops::Range;
use vstd::prelude::*;
use vstd::slice::slice_subrange;
use vstd::string::StringExecFns;

verus! {

/// An error that can occur while extracting values from a row.
#[derive(Debug, PartialEq, Eq)]
pub enum Error {
    /// An error with a message of the caller's own.
    Custom { msg: String },
    /// The row has `found` columns, and the shape takes `expected`.
    ColumnCount { found: usize, expected: usize },
    /// No column of the row answers to `index`; `columns` lists the
    /// columns that were searched.
    SliceLookup { index: String, columns: String },
    /// No column from the last split on is called `split`; `columns` lists
    /// the columns that were searched.
    InvalidSplit { split: String, columns: String },
    /// `range` reaches beyond the `len` columns of the row, or ends before
    /// it begins.
    SliceIndex { range: Range<usize>, len: usize },
    /// The cell of column `index` holds a value of kind `kind`, which is
    /// not of the type `ty` that the field asks for.
    TypeMismatch { index: String, ty: Type, kind: Kind },
}

/// The mathematical value of an [`Error`].
pub enum ErrorView {
    Custom { msg: Seq<char> },
    ColumnCount { found: int, expected: int },
    SliceLookup { index: Seq<char>, columns: Seq<char> },
    InvalidSplit { split: Seq<char>, columns: Seq<char> },
    SliceIndex { start: int, end: int, len: int },
    TypeMismatch { index: Seq<char>, ty: Type, kind: Kind },
}

impl View for Error {
    type V = ErrorView;

    open spec fn view(&self) -> ErrorView {
        match self {
            Error::Custom { msg } => ErrorView::Custom { msg: msg@ },
            Error::ColumnCount { found, expected } => ErrorView::ColumnCount {
                found: *found as int,
                expected: *expected as int,
            },
            Error::SliceLookup { index, columns } => ErrorView::SliceLookup {
                index: index@,
                columns: columns@,
            },
            Error::InvalidSplit { split, columns } => ErrorView::InvalidSplit {
                split: split@,
                columns: columns@,
            },
            Error::SliceIndex { range, len } => ErrorView::SliceIndex {
                start: range.start as int,
                end: range.end as int,
                len: *len as int,
            },
            Error::TypeMismatch { index, ty, kind } => ErrorView::TypeMismatch {
                index: index@,
                ty: *ty,
                kind: *kind,
            },
        }
    }
}

impl ErrorView {
    /// The error in words.
    pub open spec fn message(self) -> Seq<char> {
        match self {
            ErrorView::Custom { msg } => msg,
            ErrorView::ColumnCount { found, expected } => "invalid number of columns, found "@
                + decimal(found as nat) + " but expected "@ + decimal(expected as nat),
            ErrorView::SliceLookup { index, columns } => "failed to get column: `"@ + index
                + "` (columns were: "@ + columns + ")"@,
            ErrorView::InvalidSplit { split, columns } => "failed to split on: `"@ + split
                + "` (columns were: "@ + columns + ")"@,
            ErrorView::SliceIndex { start, end, len } => "failed to slice row on: `"@ + decimal(
                start as nat,
            ) + ".."@ + decimal(end as nat) + "` (len was: "@ + decimal(len as nat) + ")"@,
            ErrorView::TypeMismatch { index, ty, kind } => "failed to read column: `"@ + index
                + "` (expected "@ + ty.kind.name() + if ty.nullable {
                " or null"@
            } else {
                ""@
            } + ", found "@ + kind.name() + ")"@,
        }
    }
}

impl Error {
    /// The error in words; see [`ErrorView::message`].
    pub fn message(&self) -> (message: String)
        ensures
            message@ == self@.message(),
    {
        match self {
            Error::Custom { msg } => msg.clone(),
            Error::ColumnCount { found, expected } => {
                let mut message = "invalid number of columns, found ".to_owned();
                push_decimal(&mut message, *found);
                message.append(" but expected ");
                push_decimal(&mut message, *expected);
                message
            },
            Error::SliceLookup { index, columns } => {
                let mut message = "failed to get column: `".to_owned();
                message.append(index.as_str());
                message.append("` (columns were: ");
                message.append(columns.as_str());
                message.append(")");
                message
            },
            Error::InvalidSplit { split, columns } => {
                let mut message = "failed to split on: `".to_owned();
                message.append(split.as_str());
                message.append("` (columns were: ");
                message.append(columns.as_str());
                message.append(")");
                message
            },
            Error::SliceIndex { range, len } => {
                let mut message = "failed to slice row on: `".to_owned();
                push_decimal(&mut message, range.start);
                message.append("..");
                push_decimal(&mut message, range.end);
                message.append("` (len was: ");
                push_decimal(&mut message, *len);
                message.append(")");
                message
            },
            Error::TypeMismatch { index, ty, kind } => {
                let mut message = "failed to read column: `".to_owned();
                message.append(index.as_str());
                message.append("` (expected ");
                message.append(ty.kind.as_str());
                message.append(if ty.nullable {
                    " or null"
                } else {
                    ""
                });
                message.append(", found ");
                message.append(kind.as_str());
                message.append(")");
                message
            },
        }
    }

    /// Construct a new error message with a custom message.
    pub fn new(msg: &str) -> (error: Error)
        ensures
            error@ == (ErrorView::Custom { msg: msg@ }),
    {
        Error::Custom { msg: msg.to_owned() }
    }
}

/// One step of splitting columns: a partition, or the split that found no column.
#[derive(Debug, PartialEq, Eq)]
pub enum SplitResult {
    NotFound { split: String, start: usize },
    Range(Range<usize>),
}

/// The mathematical value of a [`SplitResult`].
pub enum SplitView {
    NotFound { split: Seq<char>, start: int },
    Range { start: int, end: int },
}

impl View for SplitResult {
    type V = SplitView;

    open spec fn view(&self) -> SplitView {
        match self {
            SplitResult::NotFound { split, start } => SplitView::NotFound {
                split: split@,
                start: *start as int,
            },
            SplitResult::Range(range) => SplitView::Range {
                start: range.start as int,
                end: range.end as int,
            },
        }
    }
}

impl DeepView for SplitResult {
    type V = SplitView;

    open spec fn deep_view(&self) -> SplitView {
        self@
    }
}

/// The partitions that the splits from number `next` on make of `columns`.
/// `start` is where the open partition begins: 0, or the column that the
/// last split found. `from` is where the search for the next split begins:
/// 0, or the column after the one that the last split found.
///
/// Each split closes the open partition before the first column of its
/// name and opens the next one there. A split that finds no column ends the
/// sequence. After the last split, the open partition runs to the end of
/// the row.
pub open spec fn partitions_from(
    columns: Seq<Seq<char>>,
    splits: Seq<Seq<char>>,
    next: int,
    start: int,
    from: int,
) -> Seq<SplitView>
    decreases splits.len() - next,
{
    if next < 0 || next >= splits.len() {
        seq![SplitView::Range { start, end: columns.len() as int }]
    } else {
        match first_index_from(columns, splits[next], from) {
            Some(found) => seq![SplitView::Range { start, end: found }] + partitions_from(
                columns,
                splits,
                next + 1,
                found,
                found + 1,
            ),
            None => seq![SplitView::NotFound { split: splits[next], start }],
        }
    }
}

/// The partitions that `splits` make of `columns`; see [`partitions_from`].
pub open spec fn partitions(columns: Seq<Seq<char>>, splits: Seq<Seq<char>>) -> Seq<SplitView> {
    partitions_from(columns, splits, 0, 0, 0)
}

/// The list of `columns` as an error message shows it: each name between
/// backticks, the names separated by a comma and a space.
pub open spec fn formatted(columns: Seq<Seq<char>>) -> Seq<char>
    decreases columns.len(),
{
    if columns.len() == 0 {
        Seq::empty()
    } else {
        let front = columns.drop_last();
        let separator = if front.len() > 0 {
            seq![',', ' ']
        } else {
            Seq::empty()
        };
        formatted(front) + separator + seq!['`'] + columns.last() + seq!['`']
    }
}

/// The bounds of `parts` where each of them is a partition; else the
/// error for the first split among them that found no column: it names the
/// split and lists the columns from the open partition on.
pub open spec fn ranges_of(parts: Seq<SplitView>, columns: Seq<Seq<char>>) -> Result<
    Seq<(int, int)>,
    ErrorView,
>
    decreases parts.len(),
{
    if parts.len() == 0 {
        Ok(Seq::empty())
    } else {
        match parts[0] {
            SplitView::NotFound { split, start } => Err(
                ErrorView::InvalidSplit { split, columns: formatted(columns.skip(start)) },
            ),
            SplitView::Range { start, end } => match ranges_of(parts.drop_first(), columns) {
                Ok(rest) => Ok(seq![(start, end)] + rest),
                Err(e) => Err(e),
            },
        }
    }
}

/// The values of `parts`.
pub open spec fn split_views(parts: Seq<SplitResult>) -> Seq<SplitView> {
    Seq::new(parts.len(), |i: int| parts[i]@)
}

/// The bounds of each of `ranges`.
pub open spec fn bounds(ranges: Seq<Range<usize>>) -> Seq<(int, int)> {
    Seq::new(ranges.len(), |i: int| (ranges[i].start as int, ranges[i].end as int))
}

/// Whether `parts` tile the columns from `start` to `len`: the first
/// begins at `start`, each begins where the one before it ends, none ends
/// before it begins, and the last ends at `len`.
pub open spec fn tiles(parts: Seq<(int, int)>, start: int, len: int) -> bool {
    &&& parts.len() > 0
    &&& parts[0].0 == start
    &&& parts.last().1 == len
    &&& forall|i: int| 0 <= i < parts.len() ==> (#[trigger] parts[i]).0 <= parts[i].1
    &&& forall|i: int| 0 <= i < parts.len() - 1 ==> (#[trigger] parts[i]).1 == parts[i + 1].0
}

/// The bounds that [`ranges_of`] gives are those of the parts, one by one,
/// and every part is then a partition.
pub proof fn lemma_ranges_of(parts: Seq<SplitView>, columns: Seq<Seq<char>>)
    ensures
        match ranges_of(parts, columns) {
            Ok(ranges) => {
                &&& ranges.len() == parts.len()
                &&& forall|i: int|
                    0 <= i < parts.len() ==> (#[trigger] parts[i]) == (SplitView::Range {
                        start: ranges[i].0,
                        end: ranges[i].1,
                    })
            },
            Err(_) => true,
        },
    decreases parts.len(),
{
    if parts.len() > 0 {
        lemma_ranges_of(parts.drop_first(), columns);
        if let Ok(ranges) = ranges_of(parts, columns) {
            let rest = ranges_of(parts.drop_first(), columns)->Ok_0;
            assert forall|i: int| 0 <= i < parts.len() implies (#[trigger] parts[i]) == (
            SplitView::Range { start: ranges[i].0, end: ranges[i].1 }) by {
                if i > 0 {
                    assert(parts[i] == parts.drop_first()[i - 1]);
                    assert(ranges[i] == rest[i - 1]);
                }
            }
        }
    }
}

/// Every partition lies within the row, and a split that finds no column
/// reports a start within the row.
pub proof fn lemma_partitions_from_within(
    columns: Seq<Seq<char>>,
    splits: Seq<Seq<char>>,
    next: int,
    start: int,
    from: int,
)
    requires
        0 <= start <= from <= columns.len(),
    ensures
        forall|i: int|
            0 <= i < partitions_from(columns, splits, next, start, from).len() ==> match (
            #[trigger] partitions_from(columns, splits, next, start, from)[i]) {
                SplitView::Range { start, end } => 0 <= start <= end <= columns.len(),
                SplitView::NotFound { start, .. } => 0 <= start <= columns.len(),
            },
    decreases splits.len() - next,
{
    if 0 <= next < splits.len() {
        crate::search::lemma_first_index_from(columns, splits[next], from);
        if let Some(found) = first_index_from(columns, splits[next], from) {
            lemma_partitions_from_within(columns, splits, next + 1, found, found + 1);
        }
    }
}

/// Where every split finds a column, the partitions from a split on are
/// one more than the splits that are left, they tile the columns from the
/// open partition to the end of the row, and each of them but the first
/// begins with a column of its split's name.
pub proof fn lemma_partitions_from_tile(
    columns: Seq<Seq<char>>,
    splits: Seq<Seq<char>>,
    next: int,
    start: int,
    from: int,
)
    requires
        0 <= next <= splits.len(),
        0 <= start <= from <= columns.len(),
    ensures
        match ranges_of(partitions_from(columns, splits, next, start, from), columns) {
            Ok(parts) => {
                &&& parts.len() == splits.len() - next + 1
                &&& tiles(parts, start, columns.len() as int)
                &&& forall|i: int|
                    1 <= i < parts.len() ==> 0 <= (#[trigger] parts[i]).0 < columns.len()
                        && columns[parts[i].0] == splits[next + i - 1]
            },
            Err(_) => true,
        },
    decreases splits.len() - next,
{
    let all = partitions_from(columns, splits, next, start, from);
    if next >= splits.len() {
        assert(all.drop_first() =~= Seq::<SplitView>::empty());
        assert(ranges_of(all.drop_first(), columns) == Ok::<Seq<(int, int)>, ErrorView>(
            Seq::empty(),
        ));
        assert(ranges_of(all, columns) == Ok::<Seq<(int, int)>, ErrorView>(
            seq![(start, columns.len() as int)] + Seq::<(int, int)>::empty(),
        ));
    } else {
        crate::search::lemma_first_index_from(columns, splits[next], from);
        match first_index_from(columns, splits[next], from) {
            Some(found) => {
                let rest = partitions_from(columns, splits, next + 1, found, found + 1);
                assert(all.drop_first() =~= rest);
                lemma_partitions_from_tile(columns, splits, next + 1, found, found + 1);
                if let Ok(tail) = ranges_of(rest, columns) {
                    let parts = seq![(start, found)] + tail;
                    assert(ranges_of(all, columns) == Ok::<Seq<(int, int)>, ErrorView>(parts));
                    assert forall|i: int| 0 <= i < parts.len() - 1 implies (#[trigger] parts[i]).1
                        == parts[i + 1].0 by {
                        if i > 0 {
                            assert(parts[i] == tail[i - 1]);
                            assert(parts[i + 1] == tail[i]);
                        }
                    }
                    assert forall|i: int| 0 <= i < parts.len() implies (#[trigger] parts[i]).0
                        <= parts[i].1 by {
                        if i > 0 {
                            assert(parts[i] == tail[i - 1]);
                        }
                    }
                    assert forall|i: int| 1 <= i < parts.len() implies 0 <= (#[trigger] parts[i]).0
                        < columns.len() && columns[parts[i].0] == splits[next + i - 1] by {
                        assert(parts[i] == tail[i - 1]);
                        if i > 1 {
                            assert(tail[i - 1].0 == tail[i - 1].0);
                        }
                    }
                    assert(parts.last() == tail.last());
                }
            },
            None => {},
        }
    }
}

/// The partitions that `splits` make of `columns`, where every split finds
/// a column, tile the whole row, one partition more than there are splits.
pub proof fn lemma_partitions_tile(columns: Seq<Seq<char>>, splits: Seq<Seq<char>>)
    ensures
        match ranges_of(partitions(columns, splits), columns) {
            Ok(parts) => parts.len() == splits.len() + 1 && tiles(parts, 0, columns.len() as int),
            Err(_) => true,
        },
{
    lemma_partitions_from_tile(columns, splits, 0, 0, 0);
}

/// Split a row's columns into multiple partitions based on some split-points.
///
/// Given a list of column labels, a split is made right before the first
/// column with a matching name following the previous split:
///
/// ```text
/// Labels:       a,    a,      c,  a
/// Indices:      0 1 2 3 4 5 6 7 8 9 10
/// Columns:      a b c a b a b c b a c
/// Splits:      |     |       |   |
/// Partitions: + +---+ +-----+ +-+ +-+
/// Ranges:     [0..0, 0..3, 3..7, 7..9, 9..11]
/// ```
///
/// The first partition always contains the leading columns (zero or more):
///
/// ```text
/// Labels:         b,  a
/// Indices:    0 1 2 3 4 5
/// Columns:    d a b c a b
/// Splits:        |   |
/// Partitions: +-+ +-+ +-+
/// Ranges:     [0..2, 2..4, 4..6]
/// ```
///
/// The result is [`partitions`] of the two lists of names. Its last item
/// is `NotFound` where a split matched none of the remaining columns.
pub fn partition_many(columns: &[String], splits: &[&str]) -> (parts: Vec<SplitResult>)
    ensures
        parts.deep_view() == partitions(columns.deep_view(), splits.deep_view()),
{
    let ghost names = columns.deep_view();
    let ghost labels = splits.deep_view();
    let mut parts: Vec<SplitResult> = Vec::new();
    let mut previous_end: usize = 0;
    let mut from: usize = 0;
    let mut next: usize = 0;
    while next < splits.len()
        invariant
            names == columns.deep_view(),
            labels == splits.deep_view(),
            next <= splits.len(),
            previous_end <= from <= columns.len(),
            parts.deep_view() + partitions_from(
                names,
                labels,
                next as int,
                previous_end as int,
                from as int,
            ) == partitions(names, labels),
        decreases splits.len() - next,
    {
        let split = splits[next];
        let mut found: usize = from;
        while found < columns.len() && !str_eq(columns[found].as_str(), split)
            invariant
                names == columns.deep_view(),
                from <= found <= columns.len(),
                first_index_from(names, split@, from as int) == first_index_from(
                    names,
                    split@,
                    found as int,
                ),
            decreases columns.len() - found,
        {
            found = found + 1;
        }
        let ghost before = parts.deep_view();
        let ghost rest = partitions_from(
            names,
            labels,
            next as int,
            previous_end as int,
            from as int,
        );
        assert(labels[next as int] == split@);
        if found < columns.len() {
            parts.push(SplitResult::Range(previous_end..found));
            proof {
                let head = SplitView::Range { start: previous_end as int, end: found as int };
                assert(parts.deep_view() =~= before.push(head));
                assert(before.push(head) + partitions_from(
                    names,
                    labels,
                    next + 1,
                    found as int,
                    found + 1,
                ) =~= before + rest);
            }
            previous_end = found;
            from = found + 1;
            next = next + 1;
        } else {
            parts.push(SplitResult::NotFound { split: split.to_owned(), start: previous_end });
            proof {
                let head = SplitView::NotFound { split: split@, start: previous_end as int };
                assert(parts.deep_view() =~= before.push(head));
                assert(before.push(head) =~= before + rest);
            }
            return parts;
        }
    }
    let ghost before = parts.deep_view();
    parts.push(SplitResult::Range(previous_end..columns.len()));
    proof {
        let last = SplitView::Range { start: previous_end as int, end: columns.len() as int };
        assert(parts.deep_view() =~= before.push(last));
        assert(before.push(last) =~= before + seq![last]);
    }
    parts
}

/// Split a row's columns into multiple partitions based on some
/// split-points, as [`partition_many`] does, and return the partitions.
///
/// # Errors
///
/// Will return an error if the columns could not be split (ie. no column
/// with a matching name was found in the remaining columns). The error names
/// the split and lists the columns from the start of the open partition on.
pub fn split_columns_many(columns: &[String], splits: &[&str]) -> (result: Result<
    Vec<Range<usize>>,
    Error,
>)
    ensures
        match ranges_of(partitions(columns.deep_view(), splits.deep_view()), columns.deep_view()) {
            Ok(parts) => result matches Ok(ranges) && bounds(ranges@) == parts,
            Err(e) => result matches Err(error) && error@ == e,
        },
{
    let ghost names = columns.deep_view();
    let parts = partition_many(columns, splits);
    let ghost all = split_views(parts@);
    proof {
        assert(all =~= parts.deep_view());
        assert(all.skip(0) =~= all);
        assert(bounds(Seq::<Range<usize>>::empty()) =~= Seq::<(int, int)>::empty());
        if let Ok(rest) = ranges_of(all, names) {
            assert(Seq::<(int, int)>::empty() + rest =~= rest);
        }
        lemma_partitions_from_within(names, splits.deep_view(), 0, 0, 0);
    }
    let mut ranges: Vec<Range<usize>> = Vec::new();
    for part in it: parts
        invariant
            names == columns.deep_view(),
            all == split_views(it.seq()),
            all == partitions(names, splits.deep_view()),
            forall|i: int|
                0 <= i < all.len() ==> match #[trigger] all[i] {
                    SplitView::Range { start, end } => 0 <= start <= end <= names.len(),
                    SplitView::NotFound { start, .. } => 0 <= start <= names.len(),
                },
            ranges_of(all, names) == match ranges_of(all.skip(it.index() as int), names) {
                Ok(rest) => Ok(bounds(ranges@) + rest),
                Err(e) => Err(e),
            },
    {
        let ghost n = it.index() as int;
        let ghost before = bounds(ranges@);
        proof {
            assert(all.skip(n)[0] == part@);
            assert(all.skip(n).drop_first() =~= all.skip(n + 1));
        }
        match part {
            SplitResult::Range(range) => {
                ranges.push(range);
                proof {
                    assert(bounds(ranges@) =~= before.push((range.start as int, range.end as int)));
                    if let Ok(rest) = ranges_of(all.skip(n + 1), names) {
                        assert(before + (seq![(range.start as int, range.end as int)] + rest)
                            =~= bounds(ranges@) + rest);
                    }
                }
            },
            SplitResult::NotFound { split, start } => {
                assert(start <= columns.len()) by {
                    assert(all[n] == part@);
                }
                let searched = slice_subrange(columns, start, columns.len());
                assert(searched.deep_view() =~= names.skip(start as int));
                let listed = format_columns(searched);
                return Err(Error::InvalidSplit { split, columns: listed });
            },
        }
    }
    proof {
        assert(all.skip(all.len() as int) =~= Seq::<SplitView>::empty());
        assert(bounds(ranges@) + Seq::<(int, int)>::empty() =~= bounds(ranges@));
    }
    Ok(ranges)
}

/// Lists the names of `columns` for an error message; see [`formatted`].
pub fn format_columns(columns: &[String]) -> (total: String)
    ensures
        total@ == formatted(columns.deep_view()),
{
    let ghost names = columns.deep_view();
    let mut total = String::new();
    let mut i: usize = 0;
    while i < columns.len()
        invariant
            names == columns.deep_view(),
            i <= columns.len(),
            total@ == formatted(names.take(i as int)),
        decreases columns.len() - i,
    {
        let ghost before = total@;
        if i > 0 {
            total.append(", ");
        }
        total.push('`');
        total.append(columns[i].as_str());
        total.push('`');
        proof {
            reveal_strlit(", ");
            let taken = names.take(i + 1);
            assert(taken.drop_last() =~= names.take(i as int));
            assert(taken.last() == columns[i as int]@);
            assert(", "@ =~= seq![',', ' ']);
            let separator = if i > 0 {
                seq![',', ' ']
            } else {
                Seq::<char>::empty()
            };
            assert(total@ =~= before + separator + seq!['`'] + taken.last() + seq!['`']);
        }
        i = i + 1;
    }
    proof {
        assert(names.take(i as int) =~= names);
    }
    total
}

} // verus!
