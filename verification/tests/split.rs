use postgres_query::extract::{format_columns, partition_many, split_columns_many, Error, SplitResult};
use postgres_query::{Kind, Type};
use std::ops::Range;

fn split_chars_fallible(columns: &str, splits: &str) -> Vec<SplitResult> {
    let cols: Vec<String> = columns.chars().map(|ch| ch.to_string()).collect();
    let splits: Vec<String> = splits.chars().map(|ch| ch.to_string()).collect();
    let splits: Vec<&str> = splits.iter().map(|split| split.as_str()).collect();
    partition_many(&cols, &splits)
}

fn split_chars(columns: &str, splits: &str) -> Vec<Range<usize>> {
    split_chars_fallible(columns, splits)
        .into_iter()
        .map(|split| match split {
            SplitResult::Range(range) => range,
            SplitResult::NotFound { split, start } => panic!(
                "failed to split {:?} on {:?}",
                columns.chars().skip(start).collect::<String>(),
                split,
            ),
        })
        .collect()
}

#[test]
fn split_columns_many_no_excess() {
    let partitions = split_chars("abcabdab", "aaa");
    assert_eq!(partitions, vec![0..0, 0..3, 3..6, 6..8,])
}

#[test]
fn split_columns_many_leading_columns() {
    let partitions = split_chars("deabcabdab", "aaa");
    assert_eq!(partitions, vec![0..2, 2..5, 5..8, 8..10,])
}

#[test]
fn split_columns_many_too_many_splits() {
    let partitions = split_chars_fallible("abcabc", "aaa");
    assert_eq!(
        partitions,
        vec![
            SplitResult::Range(0..0),
            SplitResult::Range(0..3),
            SplitResult::NotFound {
                split: "a".to_owned(),
                start: 3,
            }
        ]
    )
}

fn names(text: &str) -> Vec<String> {
    text.chars().map(|ch| ch.to_string()).collect()
}

#[test]
fn split_at_first_column_leaves_leading_partition_empty() {
    let partitions = split_chars("abcab", "aa");
    assert_eq!(partitions, vec![0..0, 0..3, 3..5]);
}

#[test]
fn split_not_found_reports_where_the_search_began() {
    let partitions = split_chars_fallible("abc", "aa");
    assert_eq!(
        partitions,
        vec![
            SplitResult::Range(0..0),
            SplitResult::NotFound {
                split: "a".to_owned(),
                start: 0,
            }
        ]
    );
}

#[test]
fn split_found_at_last_column_still_ends_with_a_partition() {
    let partitions = split_chars("ab", "b");
    assert_eq!(partitions, vec![0..1, 1..2]);
}

#[test]
fn without_splits_the_row_is_one_partition() {
    assert_eq!(split_chars("abc", ""), vec![0..3]);
    assert_eq!(split_chars("", ""), vec![0..0]);
}

#[test]
fn splitting_stops_at_the_first_split_without_column() {
    let partitions = split_chars_fallible("abc", "bxc");
    assert_eq!(
        partitions,
        vec![
            SplitResult::Range(0..1),
            SplitResult::NotFound {
                split: "x".to_owned(),
                start: 1,
            }
        ]
    );
}

#[test]
fn documented_splits() {
    assert_eq!(
        split_chars("abcabacbac", "aaca"),
        vec![0..0, 0..3, 3..6, 6..8, 8..10]
    );
    assert_eq!(split_chars("dabcab", "ba"), vec![0..2, 2..4, 4..6]);
}

#[test]
fn split_columns_many_gives_the_ranges() {
    let columns = names("deabcabdab");
    let ranges = split_columns_many(&columns, &["a", "a", "a"]).unwrap();
    assert_eq!(ranges, vec![0..2, 2..5, 5..8, 8..10]);
}

#[test]
fn split_columns_many_lists_the_remaining_columns() {
    let columns = names("abcabc");
    let error = split_columns_many(&columns, &["a", "a", "a"]).unwrap_err();
    assert_eq!(
        error,
        Error::InvalidSplit {
            split: "a".to_owned(),
            columns: "`a`, `b`, `c`".to_owned(),
        }
    );
}

#[test]
fn split_names_are_compared_exactly() {
    let columns = vec!["id".to_owned(), "Id".to_owned(), "idx".to_owned()];
    let error = split_columns_many(&columns, &["ID"]).unwrap_err();
    assert_eq!(
        error,
        Error::InvalidSplit {
            split: "ID".to_owned(),
            columns: "`id`, `Id`, `idx`".to_owned(),
        }
    );
    assert_eq!(split_columns_many(&columns, &["Id"]).unwrap(), vec![0..1, 1..3]);
}

#[test]
fn format_columns_quotes_and_separates() {
    assert_eq!(format_columns(&[]), "");
    assert_eq!(format_columns(&names("a")), "`a`");
    assert_eq!(format_columns(&names("abc")), "`a`, `b`, `c`");
    assert_eq!(format_columns(&["".to_owned(), "x y".to_owned()]), "``, `x y`");
}

#[test]
fn custom_error_keeps_the_message() {
    assert_eq!(
        Error::new("no such thing"),
        Error::Custom {
            msg: "no such thing".to_owned()
        }
    );
}

#[test]
fn extract_errors_in_words() {
    assert_eq!(Error::new("as given").message(), "as given");
    assert_eq!(
        Error::ColumnCount {
            found: 3,
            expected: 12
        }
        .message(),
        "invalid number of columns, found 3 but expected 12"
    );
    assert_eq!(
        Error::SliceLookup {
            index: "name".to_owned(),
            columns: "`id`, `age`".to_owned()
        }
        .message(),
        "failed to get column: `name` (columns were: `id`, `age`)"
    );
    assert_eq!(
        Error::InvalidSplit {
            split: "id".to_owned(),
            columns: "`a`".to_owned()
        }
        .message(),
        "failed to split on: `id` (columns were: `a`)"
    );
    assert_eq!(
        Error::SliceIndex {
            range: 2..40,
            len: 3
        }
        .message(),
        "failed to slice row on: `2..40` (len was: 3)"
    );
    assert_eq!(
        Error::TypeMismatch {
            index: "age".to_owned(),
            ty: Type::new(Kind::Int),
            kind: Kind::Text
        }
        .message(),
        "failed to read column: `age` (expected int, found text)"
    );
    assert_eq!(
        Error::TypeMismatch {
            index: "0".to_owned(),
            ty: Type::nullable(Kind::Bytes),
            kind: Kind::Bool
        }
        .message(),
        "failed to read column: `0` (expected bytes or null, found bool)"
    );
}
