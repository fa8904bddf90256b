use postgres_query::extract::Error;
use postgres_query::row::index_text;
use postgres_query::row::{slice, whole};
use postgres_query::{DataRow, Kind, Row, Type, Value};

fn make(columns: &[&str], cells: Vec<Value>) -> DataRow {
    DataRow::new(columns.iter().map(|name| name.to_string()).collect(), cells).unwrap()
}

fn person() -> DataRow {
    make(
        &["id", "Name", "name", "age"],
        vec![
            Value::Int(14),
            Value::Text("upper".to_owned()),
            Value::Text("lower".to_owned()),
            Value::Null,
        ],
    )
}

#[test]
fn row_needs_as_many_cells_as_columns() {
    let error = DataRow::new(vec!["a".to_owned(), "b".to_owned()], vec![Value::Null]).unwrap_err();
    assert_eq!(
        error,
        Error::ColumnCount {
            found: 1,
            expected: 2
        }
    );
}

#[test]
fn row_knows_its_columns() {
    let row = person();
    assert_eq!(row.len(), 4);
    assert!(!row.is_empty());
    assert_eq!(row.columns(), &["id", "Name", "name", "age"]);
    assert!(make(&[], vec![]).is_empty());
}

#[test]
fn whole_row_as_slice() {
    let row = person();
    let slice = row.as_slice();
    assert_eq!(slice.len(), 4);
    assert_eq!(slice.columns(), row.columns());
    assert_eq!(slice.get(0), &Value::Int(14));
}

#[test]
fn slice_restricts_the_columns() {
    let row = person();
    let slice = row.slice(1..3).unwrap();
    assert_eq!(slice.len(), 2);
    assert!(!slice.is_empty());
    assert_eq!(slice.columns(), &["Name", "name"]);
    assert_eq!(slice.try_get(0).unwrap(), &Value::Text("upper".to_owned()));
    assert_eq!(slice.try_get(1).unwrap(), &Value::Text("lower".to_owned()));
    assert!(row.slice(2..2).unwrap().is_empty());
}

#[test]
fn slice_beyond_the_row() {
    let row = person();
    assert_eq!(
        row.slice(2..5).err(),
        Some(Error::SliceIndex {
            range: 2..5,
            len: 4
        })
    );
}

#[test]
fn slice_that_ends_before_it_begins() {
    let row = person();
    assert_eq!(
        row.slice(3..2).err(),
        Some(Error::SliceIndex {
            range: 3..2,
            len: 4
        })
    );
}

#[test]
fn slice_of_a_slice_counts_from_the_slice() {
    let row = person();
    let outer = row.slice(1..4).unwrap();
    let inner = outer.slice(1..3).unwrap();
    assert_eq!(inner.columns(), &["name", "age"]);
    assert_eq!(inner.get(0), &Value::Text("lower".to_owned()));
    assert_eq!(inner.get(1), &Value::Null);
    assert_eq!(
        outer.slice(1..4).err(),
        Some(Error::SliceIndex {
            range: 1..4,
            len: 3
        })
    );
    assert_eq!(
        outer.slice(2..1).err(),
        Some(Error::SliceIndex {
            range: 2..1,
            len: 3
        })
    );
}

#[test]
fn lookup_by_position_outside_the_slice() {
    let row = person();
    let slice = row.slice(1..3).unwrap();
    assert_eq!(
        slice.try_get(2).err(),
        Some(Error::SliceLookup {
            index: "2".to_owned(),
            columns: "`Name`, `name`".to_owned(),
        })
    );
}

#[test]
fn lookup_by_name_prefers_the_exact_name() {
    let row = person();
    let slice = row.as_slice();
    assert_eq!(slice.position("name"), Some(2));
    assert_eq!(slice.position("Name"), Some(1));
    assert_eq!(
        slice.try_get_named("name").unwrap(),
        &Value::Text("lower".to_owned())
    );
}

#[test]
fn lookup_by_name_falls_back_to_ascii_case() {
    let row = person();
    let slice = row.as_slice();
    assert_eq!(slice.position("NAME"), Some(1));
    assert_eq!(slice.position("ID"), Some(0));
    assert_eq!(slice.position("Age"), Some(3));
    assert_eq!(
        slice.try_get_named("NAME").unwrap(),
        &Value::Text("upper".to_owned())
    );
}

#[test]
fn lookup_by_name_folds_ascii_letters_only() {
    let row = make(&["straße", "ÉCOLE"], vec![Value::Int(1), Value::Int(2)]);
    let slice = row.as_slice();
    assert_eq!(slice.position("STRAßE"), Some(0));
    assert_eq!(slice.position("STRASSE"), None);
    assert_eq!(slice.position("école"), None);
    assert_eq!(slice.position("Écolé"), None);
    assert_eq!(slice.position("Écolé".to_uppercase().as_str()), None);
    assert_eq!(slice.position("École"), Some(1));
}

#[test]
fn lookup_by_name_sees_the_slice_only() {
    let row = person();
    let slice = row.slice(1..4).unwrap();
    assert_eq!(slice.position("name"), Some(1));
    assert_eq!(slice.position("id"), None);
    assert_eq!(
        slice.try_get_named("id").err(),
        Some(Error::SliceLookup {
            index: "id".to_owned(),
            columns: "`Name`, `name`, `age`".to_owned(),
        })
    );
}

#[test]
fn values_have_kinds() {
    assert_eq!(Value::Null.kind(), Kind::Null);
    assert_eq!(Value::Bool(true).kind(), Kind::Bool);
    assert_eq!(Value::Int(-3).kind(), Kind::Int);
    assert_eq!(Value::Text(String::new()).kind(), Kind::Text);
    assert_eq!(Value::Bytes(vec![0]).kind(), Kind::Bytes);
    assert!(Value::Null.is_null());
    assert!(!Value::Int(0).is_null());
}

#[test]
fn values_compare_by_content() {
    assert!(Value::Null.same(&Value::Null));
    assert!(Value::Int(7).same(&Value::Int(7)));
    assert!(!Value::Int(7).same(&Value::Int(8)));
    assert!(!Value::Int(1).same(&Value::Bool(true)));
    assert!(Value::Text("a".to_owned()).same(&Value::Text("a".to_owned())));
    assert!(!Value::Text("a".to_owned()).same(&Value::Text("A".to_owned())));
    assert!(Value::Bytes(vec![1, 2]).same(&Value::Bytes(vec![1, 2])));
    assert!(!Value::Bytes(vec![1, 2]).same(&Value::Bytes(vec![1, 3])));
    assert!(!Value::Bytes(vec![1, 2]).same(&Value::Bytes(vec![1])));
    assert!(!Value::Bytes(vec![]).same(&Value::Text(String::new())));
    let text = Value::Text("copy".to_owned());
    assert_eq!(text.clone(), text);
}

#[test]
fn types_take_their_kind_and_null_where_nullable() {
    let int = Type::new(Kind::Int);
    assert!(int.takes(Kind::Int));
    assert!(!int.takes(Kind::Text));
    assert!(!int.takes(Kind::Null));
    let optional = Type::nullable(Kind::Int);
    assert!(optional.takes(Kind::Int));
    assert!(optional.takes(Kind::Null));
    assert!(!optional.takes(Kind::Bool));
}

#[test]
fn index_text_is_decimal() {
    assert_eq!(index_text(0), "0");
    assert_eq!(index_text(9), "9");
    assert_eq!(index_text(10), "10");
    assert_eq!(index_text(4096), "4096");
    assert_eq!(index_text(usize::MAX), usize::MAX.to_string());
}

#[test]
fn slice_of_any_row() {
    let row = person();
    let outer = slice(&row, 1..4).unwrap();
    assert_eq!(outer.columns(), &["Name", "name", "age"]);
    // A slice is a row: it can be sliced like one, at the cost of going
    // through the slice to reach the row.
    let inner = slice(&outer, 1..3).unwrap();
    assert_eq!(inner.columns(), &["name", "age"]);
    assert_eq!(inner.get(0), &Value::Text("lower".to_owned()));
    let all = whole(&inner);
    assert_eq!(all.len(), 2);
    assert_eq!(all.try_get_named("AGE").unwrap(), &Value::Null);
    assert_eq!(
        slice(&inner, 0..3).err(),
        Some(Error::SliceIndex {
            range: 0..3,
            len: 2
        })
    );
}

#[test]
fn row_finds_cells_by_position_and_name() {
    let row = person();
    assert_eq!(row.try_get(0).unwrap(), &Value::Int(14));
    assert_eq!(row.get(3), &Value::Null);
    assert_eq!(row.position("name"), Some(2));
    assert_eq!(
        row.try_get_named("Name").unwrap(),
        &Value::Text("upper".to_owned())
    );
    assert_eq!(
        row.try_get(4).err(),
        Some(Error::SliceLookup {
            index: "4".to_owned(),
            columns: "`id`, `Name`, `name`, `age`".to_owned(),
        })
    );
    assert_eq!(
        row.try_get_named("none").err(),
        Some(Error::SliceLookup {
            index: "none".to_owned(),
            columns: "`id`, `Name`, `name`, `age`".to_owned(),
        })
    );
}
