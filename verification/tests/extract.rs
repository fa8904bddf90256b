use postgres_query::extract::Error;
use postgres_query::from_sql_row::{from_row, is_all_null, read_field};
use postgres_query::{
    DataRow, Field, Item, Kind, MergeKind, PartitionKind, Record, Shape, Type, Value,
};

fn integer() -> Type {
    Type::new(Kind::Int)
}

fn text() -> Type {
    Type::new(Kind::Text)
}

fn num(n: i64) -> Value {
    Value::Int(n)
}

fn txt(text: &str) -> Value {
    Value::Text(text.to_owned())
}

fn make(columns: &[&str], cells: Vec<Value>) -> DataRow {
    DataRow::new(columns.iter().map(|name| name.to_string()).collect(), cells).unwrap()
}

fn person() -> Shape {
    Shape::new(vec![
        Field::named("id", integer()),
        Field::named("name", text()),
    ])
}

fn split_on(mut field: Field, points: &[&str]) -> Field {
    for point in points {
        field.attrs.splits.push(point.to_string());
    }
    field
}

fn split(fields: Vec<Field>) -> Shape {
    let mut shape = Shape::new(fields);
    shape.attrs.partition = Some(PartitionKind::Split);
    shape
}

fn exact(fields: Vec<Field>) -> Shape {
    let mut shape = Shape::new(fields);
    shape.attrs.partition = Some(PartitionKind::Exact);
    shape
}

fn fetch_one(shape: Shape, row: &DataRow) -> Result<Record, Error> {
    postgres_query::from_sql_row::derive(shape).unwrap().from_row(row)
}

fn fetch(shape: Shape, rows: &[DataRow]) -> Result<Vec<Record>, Error> {
    postgres_query::from_sql_row::derive(shape).unwrap().from_row_multi(rows)
}

fn cell(record: &Record, field: usize) -> &Value {
    match &record.fields[field] {
        Item::Cell(value) => value,
        other => panic!("expected a cell, found {:?}", other),
    }
}

fn nested(record: &Record, field: usize) -> &Record {
    match &record.fields[field] {
        Item::Nested(record) => record,
        other => panic!("expected a record, found {:?}", other),
    }
}

fn collection(record: &Record, field: usize) -> &Vec<Record> {
    match &record.fields[field] {
        Item::Collection(records) => records,
        other => panic!("expected a collection, found {:?}", other),
    }
}

fn family_row() -> DataRow {
    make(
        &[
            "generation",
            "id",
            "name",
            "age",
            "id",
            "name",
            "age",
            "id",
            "name",
            "age",
        ],
        vec![
            num(8),
            num(0),
            txt("John"),
            num(61),
            num(1),
            txt("Bob"),
            num(32),
            num(2),
            txt("Ike"),
            num(7),
        ],
    )
}

#[test]
fn simple_select_fetch() {
    let row = make(&["?column?"], vec![num(14)]);
    let value = fetch_one(Shape::tuple(&[integer()]), &row).unwrap();
    assert_eq!(
        value,
        Record {
            fields: vec![Item::Cell(num(14))]
        }
    );
}

#[test]
fn cached_fetch() {
    let extractor = postgres_query::from_sql_row::derive(Shape::tuple(&[text(), integer()])).unwrap();
    for _ in 0..10usize {
        let row = make(&["?column?", "?column?"], vec![txt("Myke"), num(31)]);
        let record = extractor.from_row(&row).unwrap();
        assert_eq!(cell(&record, 0), &txt("Myke"));
        assert_eq!(cell(&record, 1), &num(31));
    }
}

#[test]
fn fetch_named_struct() {
    let shape = Shape::new(vec![
        Field::named("age", integer()),
        Field::named("name", text()),
    ]);
    let row = make(&["name", "age"], vec![txt("Myke"), num(31)]);
    let person = fetch_one(shape, &row).unwrap();

    assert_eq!(cell(&person, 1), &txt("Myke"));
    assert_eq!(cell(&person, 0), &num(31));
}

#[test]
fn fetch_named_struct_rename() {
    let mut customer = Field::named("customer", text());
    customer.attrs.rename = Some("name".to_owned());
    let shape = Shape::new(vec![customer, Field::named("age", integer())]);
    let row = make(&["name", "age"], vec![txt("Myke"), num(31)]);
    let person = fetch_one(shape, &row).unwrap();

    assert_eq!(cell(&person, 0), &txt("Myke"));
    assert_eq!(cell(&person, 1), &num(31));
}

#[test]
fn fetch_named_struct_flattened() {
    let info = Shape::new(vec![
        Field::named("name", text()),
        Field::named("age", integer()),
    ]);
    let shape = Shape::new(vec![
        Field::named("id", integer()),
        Field::flattened("info", info),
    ]);
    let row = make(&["id", "name", "age"], vec![num(14), txt("Myke"), num(31)]);
    let customer = fetch_one(shape, &row).unwrap();

    assert_eq!(cell(nested(&customer, 1), 0), &txt("Myke"));
    assert_eq!(cell(nested(&customer, 1), 1), &num(31));
    assert_eq!(cell(&customer, 0), &num(14));
}

#[test]
fn fetch_joined_relations() {
    let shape = Shape::new(vec![
        Field::named("customer", text()),
        Field::named("item", text()),
    ]);
    let rows = vec![
        make(&["customer", "item"], vec![txt("Anna"), txt("Note book")]),
        make(&["customer", "item"], vec![txt("Emma"), txt("Hair dryer")]),
        make(&["customer", "item"], vec![txt("Emma"), txt("Phone")]),
    ];
    let orders = fetch(shape, &rows).unwrap();

    assert_eq!(orders.len(), 3);

    assert_eq!(cell(&orders[0], 0), &txt("Anna"));
    assert_eq!(cell(&orders[0], 1), &txt("Note book"));

    assert_eq!(cell(&orders[1], 0), &txt("Emma"));
    assert_eq!(cell(&orders[1], 1), &txt("Hair dryer"));

    assert_eq!(cell(&orders[2], 0), &txt("Emma"));
    assert_eq!(cell(&orders[2], 1), &txt("Phone"));
}

#[test]
fn multi_mapping_exact() {
    let shape = exact(vec![
        Field::flattened("parent", person()),
        Field::flattened("child", person()),
    ]);
    let row = make(
        &["id", "name", "id", "name"],
        vec![num(1), txt("Bob"), num(2), txt("Ike")],
    );
    let family = fetch_one(shape, &row).unwrap();

    assert_eq!(cell(nested(&family, 0), 0), &num(1));
    assert_eq!(cell(nested(&family, 0), 1), &txt("Bob"));

    assert_eq!(cell(nested(&family, 1), 0), &num(2));
    assert_eq!(cell(nested(&family, 1), 1), &txt("Ike"));
}

#[test]
fn multi_mapping_custom_stride() {
    let mut parent = Field::flattened("parent", person());
    parent.attrs.stride = Some(4);
    let mut child = Field::flattened("child", person());
    child.attrs.stride = Some(3);
    let shape = exact(vec![parent, child]);
    let row = make(
        &["generation", "id", "name", "age", "id", "name", "age"],
        vec![
            num(11),
            num(1),
            txt("Bob"),
            num(42),
            num(2),
            txt("Ike"),
            num(14),
        ],
    );
    let family = fetch_one(shape, &row).unwrap();

    assert_eq!(cell(nested(&family, 0), 0), &num(1));
    assert_eq!(cell(nested(&family, 0), 1), &txt("Bob"));

    assert_eq!(cell(nested(&family, 1), 0), &num(2));
    assert_eq!(cell(nested(&family, 1), 1), &txt("Ike"));
}

#[test]
fn multi_mapping_exact_mixed_fields() {
    let shape = exact(vec![
        Field::named("generation", integer()),
        Field::named("origin", text()),
        Field::flattened("parent", person()),
        Field::flattened("child", person()),
    ]);
    // Order shouldn't matter within one group
    let row = make(
        &["origin", "generation", "id", "name", "id", "name"],
        vec![
            txt("Germany"),
            num(7),
            num(1),
            txt("Bob"),
            num(2),
            txt("Ike"),
        ],
    );
    let family = fetch_one(shape, &row).unwrap();

    assert_eq!(cell(&family, 0), &num(7));
    assert_eq!(cell(&family, 1), &txt("Germany"));

    assert_eq!(cell(nested(&family, 2), 0), &num(1));
    assert_eq!(cell(nested(&family, 2), 1), &txt("Bob"));

    assert_eq!(cell(nested(&family, 3), 0), &num(2));
    assert_eq!(cell(nested(&family, 3), 1), &txt("Ike"));
}

#[test]
fn multi_mapping_excessive_colunms() {
    let shape = split(vec![
        split_on(Field::flattened("grandparent", person()), &["id"]),
        split_on(Field::flattened("parent", person()), &["id"]),
        split_on(Field::flattened("child", person()), &["id"]),
    ]);
    let row = make(
        &[
            "id", "name", "age", "id", "name", "age", "id", "name", "age",
        ],
        vec![
            num(0),
            txt("John"),
            num(61),
            num(1),
            txt("Bob"),
            num(32),
            num(2),
            txt("Ike"),
            num(7),
        ],
    );
    let family = fetch_one(shape, &row).unwrap();

    assert_eq!(cell(nested(&family, 0), 0), &num(0));
    assert_eq!(cell(nested(&family, 0), 1), &txt("John"));

    assert_eq!(cell(nested(&family, 1), 0), &num(1));
    assert_eq!(cell(nested(&family, 1), 1), &txt("Bob"));

    assert_eq!(cell(nested(&family, 2), 0), &num(2));
    assert_eq!(cell(nested(&family, 2), 1), &txt("Ike"));
}

#[test]
fn multi_mapping_leading_columns() {
    let shape = split(vec![
        Field::named("generation", integer()),
        split_on(Field::flattened("grandparent", person()), &["id"]),
        split_on(Field::flattened("parent", person()), &["id"]),
        split_on(Field::flattened("child", person()), &["id"]),
    ]);
    let family = fetch_one(shape, &family_row()).unwrap();

    assert_eq!(cell(&family, 0), &num(8));

    assert_eq!(cell(nested(&family, 1), 0), &num(0));
    assert_eq!(cell(nested(&family, 1), 1), &txt("John"));

    assert_eq!(cell(nested(&family, 2), 0), &num(1));
    assert_eq!(cell(nested(&family, 2), 1), &txt("Bob"));

    assert_eq!(cell(nested(&family, 3), 0), &num(2));
    assert_eq!(cell(nested(&family, 3), 1), &txt("Ike"));
}

#[test]
fn multi_mapping_mixed() {
    let shape = split(vec![
        Field::named("generation", integer()),
        split_on(Field::flattened("grandparent", person()), &["id"]),
        Field::named("age", integer()),
        split_on(Field::flattened("parent", person()), &["id"]),
        split_on(Field::flattened("child", person()), &["id"]),
    ]);
    let family = fetch_one(shape, &family_row()).unwrap();

    assert_eq!(cell(&family, 0), &num(8));

    assert_eq!(cell(nested(&family, 1), 0), &num(0));
    assert_eq!(cell(nested(&family, 1), 1), &txt("John"));
    assert_eq!(cell(&family, 2), &num(61));

    assert_eq!(cell(nested(&family, 3), 0), &num(1));
    assert_eq!(cell(nested(&family, 3), 1), &txt("Bob"));

    assert_eq!(cell(nested(&family, 4), 0), &num(2));
    assert_eq!(cell(nested(&family, 4), 1), &txt("Ike"));
}

#[test]
fn multi_mapping_stacked_splits() {
    let shape = split(vec![
        Field::named("generation", integer()),
        split_on(Field::named("id", integer()), &["id"]),
        split_on(Field::named("name", text()), &["id", "name"]),
        split_on(Field::named("age", integer()), &["age"]),
    ]);
    // Each line represents a partition
    let row = make(
        &[
            "generation",
            "id", "name", "age",
            "id",
            "name",
            "age", "id", "name", "age",
        ],
        vec![
            num(8),
            num(0), txt("John"), num(61),
            num(1),
            txt("Bob"),
            num(32), num(2), txt("Ike"), num(7),
        ],
    );
    let family = fetch_one(shape, &row).unwrap();

    assert_eq!(cell(&family, 0), &num(8));
    assert_eq!(cell(&family, 1), &num(0));
    assert_eq!(cell(&family, 2), &txt("Bob"));
    assert_eq!(cell(&family, 3), &num(32));
}

fn author(kind: MergeKind) -> Shape {
    let book = Shape::new(vec![Field::named("title", text())]);
    let mut id = Field::named("id", integer());
    id.attrs.key = true;
    let mut books = Field::named("books", text());
    books.ty = postgres_query::FieldType::Row(book);
    books.attrs.merge = true;
    let mut shape = Shape::new(vec![id, Field::named("name", text()), books]);
    shape.attrs.merge = Some(kind);
    shape
}

fn author_rows() -> Vec<DataRow> {
    let columns = ["id", "name", "title"];
    vec![
        make(
            &columns,
            vec![
                num(1),
                txt("J.R.R. Tolkien"),
                txt("The Fellowship of the Ring"),
            ],
        ),
        make(
            &columns,
            vec![num(1), txt("J.R.R. Tolkien"), txt("The Two Towers")],
        ),
        make(
            &columns,
            vec![num(2), txt("Andrzej Sapkowski"), txt("The Last Wish")],
        ),
        make(
            &columns,
            vec![num(1), txt("J.R.R. Tolkien"), txt("Return of the King")],
        ),
    ]
}

#[test]
fn multi_mapping_many_to_one_group() {
    let authors = fetch(author(MergeKind::Group), &author_rows()).unwrap();

    assert_eq!(authors.len(), 3);

    let tolkien = &authors[0];
    let andrzej = &authors[1];
    let tolkien2 = &authors[2];

    assert_eq!(cell(tolkien, 0), &num(1));
    assert_eq!(cell(tolkien, 1), &txt("J.R.R. Tolkien"));
    assert_eq!(collection(tolkien, 2).len(), 2);
    assert_eq!(
        cell(&collection(tolkien, 2)[0], 0),
        &txt("The Fellowship of the Ring")
    );
    assert_eq!(cell(&collection(tolkien, 2)[1], 0), &txt("The Two Towers"));

    assert_eq!(cell(andrzej, 0), &num(2));
    assert_eq!(cell(andrzej, 1), &txt("Andrzej Sapkowski"));
    assert_eq!(collection(andrzej, 2).len(), 1);
    assert_eq!(cell(&collection(andrzej, 2)[0], 0), &txt("The Last Wish"));

    assert_eq!(cell(tolkien2, 0), &num(1));
    assert_eq!(cell(tolkien2, 1), &txt("J.R.R. Tolkien"));
    assert_eq!(collection(tolkien2, 2).len(), 1);
    assert_eq!(
        cell(&collection(tolkien2, 2)[0], 0),
        &txt("Return of the King")
    );
}

#[test]
fn multi_mapping_many_to_one_hash() {
    let authors = fetch(author(MergeKind::Hash), &author_rows()).unwrap();

    assert_eq!(authors.len(), 2);

    let tolkien = &authors[0];
    let andrzej = &authors[1];

    assert_eq!(cell(tolkien, 0), &num(1));
    assert_eq!(cell(tolkien, 1), &txt("J.R.R. Tolkien"));
    assert_eq!(collection(tolkien, 2).len(), 3);
    assert_eq!(
        cell(&collection(tolkien, 2)[0], 0),
        &txt("The Fellowship of the Ring")
    );
    assert_eq!(cell(&collection(tolkien, 2)[1], 0), &txt("The Two Towers"));
    assert_eq!(
        cell(&collection(tolkien, 2)[2], 0),
        &txt("Return of the King")
    );

    assert_eq!(cell(andrzej, 0), &num(2));
    assert_eq!(cell(andrzej, 1), &txt("Andrzej Sapkowski"));
    assert_eq!(collection(andrzej, 2).len(), 1);
    assert_eq!(cell(&collection(andrzej, 2)[0], 0), &txt("The Last Wish"));
}

#[test]
fn multi_mapping_many_to_one_group_with_split() {
    let book = Shape::new(vec![
        Field::named("id", integer()),
        Field::named("title", text()),
    ]);
    let mut id = split_on(Field::named("id", integer()), &["id"]);
    id.attrs.key = true;
    let mut books = split_on(Field::flattened("books", book), &["id"]);
    books.attrs.flatten = false;
    books.attrs.merge = true;
    let mut shape = split(vec![id, Field::named("name", text()), books]);
    shape.attrs.merge = Some(MergeKind::Group);

    let columns = ["id", "name", "id", "title"];
    let rows = vec![
        make(
            &columns,
            vec![
                num(1),
                txt("J.R.R. Tolkien"),
                num(1),
                txt("The Fellowship of the Ring"),
            ],
        ),
        make(
            &columns,
            vec![num(1), txt("J.R.R. Tolkien"), num(2), txt("The Two Towers")],
        ),
        make(
            &columns,
            vec![
                num(2),
                txt("Andrzej Sapkowski"),
                num(3),
                txt("The Last Wish"),
            ],
        ),
        make(
            &columns,
            vec![
                num(1),
                txt("J.R.R. Tolkien"),
                num(4),
                txt("Return of the King"),
            ],
        ),
    ];
    let authors = fetch(shape, &rows).unwrap();

    assert_eq!(authors.len(), 3);

    let tolkien = &authors[0];
    let andrzej = &authors[1];
    let tolkien2 = &authors[2];

    assert_eq!(cell(tolkien, 0), &num(1));
    assert_eq!(cell(tolkien, 1), &txt("J.R.R. Tolkien"));
    assert_eq!(collection(tolkien, 2).len(), 2);
    assert_eq!(cell(&collection(tolkien, 2)[0], 0), &num(1));
    assert_eq!(
        cell(&collection(tolkien, 2)[0], 1),
        &txt("The Fellowship of the Ring")
    );
    assert_eq!(cell(&collection(tolkien, 2)[1], 0), &num(2));
    assert_eq!(cell(&collection(tolkien, 2)[1], 1), &txt("The Two Towers"));

    assert_eq!(cell(andrzej, 0), &num(2));
    assert_eq!(cell(andrzej, 1), &txt("Andrzej Sapkowski"));
    assert_eq!(collection(andrzej, 2).len(), 1);
    assert_eq!(cell(&collection(andrzej, 2)[0], 0), &num(3));
    assert_eq!(cell(&collection(andrzej, 2)[0], 1), &txt("The Last Wish"));

    assert_eq!(cell(&collection(tolkien2, 2)[0], 0), &num(4));
    assert_eq!(
        cell(&collection(tolkien2, 2)[0], 1),
        &txt("Return of the King")
    );
}

#[test]
fn parameter_list() {
    let shape = Shape::new(vec![Field::positional(integer())]);
    let rows = vec![make(&["id"], vec![num(1)]), make(&["id"], vec![num(3)])];
    let ids = fetch(shape, &rows).unwrap();

    assert_eq!(ids.len(), 2);
    assert_eq!(cell(&ids[0], 0), &num(1));
    assert_eq!(cell(&ids[1], 0), &num(3));
}

fn optional_family() -> Shape {
    let mut father = split_on(Field::flattened("father", person()), &["id"]);
    father.optional = true;
    split(vec![
        split_on(Field::flattened("child", person()), &["id"]),
        father,
    ])
}

#[test]
fn optional_flatten() {
    let columns = ["id", "name", "id", "name"];
    let rows = vec![
        make(
            &columns,
            vec![
                num(1),
                txt("Luke Skywalker"),
                num(2),
                txt("Darth Vader"),
            ],
        ),
        make(
            &columns,
            vec![num(2), txt("Darth Vader"), Value::Null, Value::Null],
        ),
    ];
    let families = fetch(optional_family(), &rows).unwrap();

    let luke = &families[0];
    let vader = &families[1];

    assert_eq!(cell(nested(luke, 0), 0), &num(1));
    assert_eq!(cell(nested(luke, 0), 1), &txt("Luke Skywalker"));
    assert_eq!(cell(nested(luke, 1), 0), &num(2));
    assert_eq!(cell(nested(luke, 1), 1), &txt("Darth Vader"));

    assert_eq!(cell(nested(vader, 0), 0), &num(2));
    assert_eq!(cell(nested(vader, 0), 1), &txt("Darth Vader"));
    assert_eq!(vader.fields[1], Item::Absent);
}

#[test]
fn optional_flatten_invalid_type() {
    let columns = ["id", "name", "id", "name"];
    let rows = vec![
        make(
            &columns,
            vec![
                num(1),
                txt("Luke Skywalker"),
                Value::Null,
                txt("Darth Vader"),
            ],
        ),
        make(
            &columns,
            vec![
                num(2),
                txt("Darth Vader"),
                txt("a number"),
                txt("The Force"),
            ],
        ),
    ];
    let families = fetch(optional_family(), &rows);

    // 'a number' is not of the correct type, so this should fail
    assert!(families.is_err());
}

#[test]
fn optional_record_with_a_value_must_be_whole() {
    let row = make(
        &["id", "name", "id", "name"],
        vec![num(2), txt("Darth Vader"), Value::Null, txt("Anakin")],
    );
    assert_eq!(
        fetch_one(optional_family(), &row),
        Err(Error::TypeMismatch {
            index: "id".to_owned(),
            ty: integer(),
            kind: Kind::Null,
        })
    );
}

#[test]
fn record_that_is_not_optional_is_never_absent() {
    let shape = split(vec![
        split_on(Field::flattened("child", person()), &["id"]),
        split_on(Field::flattened("father", person()), &["id"]),
    ]);
    let row = make(
        &["id", "name", "id", "name"],
        vec![num(2), txt("Darth Vader"), Value::Null, Value::Null],
    );
    assert_eq!(
        fetch_one(shape, &row),
        Err(Error::TypeMismatch {
            index: "id".to_owned(),
            ty: integer(),
            kind: Kind::Null,
        })
    );
}

#[test]
fn nullable_cell_takes_null() {
    let shape = Shape::new(vec![Field::named("age", Type::nullable(Kind::Int))]);
    let row = make(&["age"], vec![Value::Null]);
    let record = fetch_one(shape, &row).unwrap();
    assert_eq!(cell(&record, 0), &Value::Null);
}

#[test]
fn column_count_of_a_tuple() {
    let shape = Shape::tuple(&[integer(), integer(), integer(), integer()]);
    let row = make(&["a", "b", "c"], vec![num(1), num(2), num(3)]);
    assert_eq!(
        fetch_one(shape, &row),
        Err(Error::ColumnCount {
            expected: 4,
            found: 3
        })
    );
}

#[test]
fn tuple_takes_no_more_columns_either() {
    let shape = Shape::tuple(&[integer()]);
    let row = make(&["a", "b"], vec![num(1), num(2)]);
    assert_eq!(
        fetch_one(shape, &row),
        Err(Error::ColumnCount {
            expected: 1,
            found: 2
        })
    );
}

#[test]
fn tuple_in_a_partition_is_counted_against_the_partition() {
    let mut pair = Field::flattened("pair", Shape::tuple(&[integer(), text()]));
    pair.attrs.stride = Some(3);
    let shape = exact(vec![pair]);
    let row = make(&["a", "b", "c"], vec![num(1), txt("x"), num(3)]);
    assert_eq!(
        fetch_one(shape, &row),
        Err(Error::ColumnCount {
            expected: 2,
            found: 3
        })
    );
}

#[test]
fn position_is_counted_within_the_group() {
    let shape = exact(vec![
        Field::flattened("first", person()),
        Field::positional(text()),
        Field::positional(integer()),
    ]);
    let row = make(
        &["id", "name", "x", "y"],
        vec![num(1), txt("Bob"), txt("zero"), num(1)],
    );
    let record = fetch_one(shape, &row).unwrap();
    assert_eq!(cell(&record, 1), &txt("zero"));
    assert_eq!(cell(&record, 2), &num(1));
}

#[test]
fn position_without_partitioning_is_the_place_of_the_field() {
    let shape = Shape::new(vec![
        Field::positional(integer()),
        Field::flattened("who", person()),
        Field::positional(integer()),
    ]);
    let row = make(
        &["id", "name", "age"],
        vec![num(1), txt("Bob"), num(32)],
    );
    let record = fetch_one(shape, &row).unwrap();
    assert_eq!(cell(&record, 0), &num(1));
    assert_eq!(cell(nested(&record, 1), 1), &txt("Bob"));
    assert_eq!(cell(&record, 2), &num(32));
}

#[test]
fn cell_of_another_type() {
    let row = make(&["id", "name"], vec![txt("one"), txt("Bob")]);
    assert_eq!(
        fetch_one(person(), &row),
        Err(Error::TypeMismatch {
            index: "id".to_owned(),
            ty: integer(),
            kind: Kind::Text,
        })
    );
    let row = make(&["a"], vec![Value::Bool(true)]);
    assert_eq!(
        fetch_one(Shape::new(vec![Field::positional(integer())]), &row),
        Err(Error::TypeMismatch {
            index: "0".to_owned(),
            ty: integer(),
            kind: Kind::Bool,
        })
    );
}

#[test]
fn column_that_is_not_there() {
    let row = make(&["id", "title"], vec![num(1), txt("Bob")]);
    assert_eq!(
        fetch_one(person(), &row),
        Err(Error::SliceLookup {
            index: "name".to_owned(),
            columns: "`id`, `title`".to_owned(),
        })
    );
    let shape = Shape::new(vec![
        Field::positional(integer()),
        Field::positional(integer()),
    ]);
    let row = make(&["a"], vec![num(1)]);
    assert_eq!(
        fetch_one(shape, &row),
        Err(Error::SliceLookup {
            index: "1".to_owned(),
            columns: "`a`".to_owned(),
        })
    );
}

#[test]
fn split_at_the_wrong_column_leaves_a_partition_empty() {
    let shape = split(vec![
        Field::flattened("parent", person()),
        split_on(Field::flattened("child", person()), &["id"]),
    ]);
    let row = make(
        &["id", "name", "id", "name"],
        vec![num(1), txt("Bob"), num(2), txt("Ike")],
    );
    assert_eq!(
        fetch_one(shape, &row),
        Err(Error::SliceLookup {
            index: "id".to_owned(),
            columns: "".to_owned(),
        })
    );
}

#[test]
fn split_error_comes_before_the_fields() {
    let shape = split(vec![
        Field::named("missing", integer()),
        split_on(Field::flattened("child", person()), &["id"]),
    ]);
    let row = make(&["a", "b"], vec![num(1), num(2)]);
    assert_eq!(
        fetch_one(shape, &row),
        Err(Error::InvalidSplit {
            split: "id".to_owned(),
            columns: "`a`, `b`".to_owned(),
        })
    );
}

#[test]
fn exact_partitions_beyond_the_row() {
    let shape = exact(vec![
        Field::flattened("parent", person()),
        Field::flattened("child", person()),
    ]);
    let row = make(&["id", "name", "id"], vec![num(1), txt("Bob"), num(2)]);
    assert_eq!(
        fetch_one(shape, &row),
        Err(Error::SliceIndex {
            range: 2..4,
            len: 3
        })
    );
}

#[test]
fn first_failing_row_fails_the_whole() {
    let rows = vec![
        make(&["id", "name"], vec![num(1), txt("Bob")]),
        make(&["id", "name"], vec![num(2), num(0)]),
        make(&["id"], vec![num(3)]),
    ];
    assert_eq!(
        fetch(person(), &rows),
        Err(Error::TypeMismatch {
            index: "name".to_owned(),
            ty: text(),
            kind: Kind::Int,
        })
    );
}

#[test]
fn no_rows_make_no_objects() {
    assert_eq!(fetch(person(), &[]), Ok(vec![]));
    assert_eq!(fetch(author(MergeKind::Hash), &[]), Ok(vec![]));
}

#[test]
fn engine_reads_unchecked_shapes_too() {
    let row = make(&["id", "name"], vec![num(1), txt("Bob")]);
    let record = from_row(&person(), &row.as_slice()).unwrap();
    assert_eq!(cell(&record, 1), &txt("Bob"));

    let mut shape = person();
    shape.fields[0].attrs.flatten = true;
    assert_eq!(
        from_row(&shape, &row.as_slice()),
        Err(Error::Custom {
            msg: "malformed shape".to_owned()
        })
    );
    let mut field = Field::flattened("who", person());
    field.attrs.flatten = false;
    assert_eq!(
        read_field(&field, &row.as_slice(), 0),
        Err(Error::Custom {
            msg: "malformed shape".to_owned()
        })
    );
}

#[test]
fn all_null() {
    let row = make(&["a", "b"], vec![Value::Null, Value::Null]);
    assert!(is_all_null(&row.as_slice()));
    let row = make(&["a", "b"], vec![Value::Null, num(0)]);
    assert!(!is_all_null(&row.as_slice()));
    assert!(is_all_null(&row.slice(0..1).unwrap()));
    assert!(is_all_null(&row.slice(1..1).unwrap()));
}

#[test]
fn extractor_counts_its_columns() {
    let extractor = postgres_query::from_sql_row::derive(exact(vec![
        Field::named("generation", integer()),
        Field::flattened("parent", person()),
    ]))
    .unwrap();
    assert_eq!(extractor.column_count(), 3);
}
