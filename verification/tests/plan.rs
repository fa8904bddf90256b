use postgres_query::extract::Error;
use postgres_query::plan::{
    collect_split_points, partition_exact, partition_initializers, partition_split, Slot,
};
use postgres_query::{Field, Kind, PartitionKind, Shape, Type};

fn integer() -> Type {
    Type::new(Kind::Int)
}

fn text() -> Type {
    Type::new(Kind::Text)
}

fn person() -> Shape {
    Shape::new(vec![Field::named("id", integer()), Field::named("name", text())])
}

fn names(columns: &[&str]) -> Vec<String> {
    columns.iter().map(|name| name.to_string()).collect()
}

fn slot(start: usize, end: usize, position: usize) -> Slot {
    Slot {
        start,
        end,
        position,
    }
}

fn split_on(mut field: Field, points: &[&str]) -> Field {
    for point in points {
        field.attrs.splits.push(point.to_string());
    }
    field
}

fn stride(mut field: Field, stride: usize) -> Field {
    field.attrs.stride = Some(stride);
    field
}

#[test]
fn without_partitioning_every_field_reads_the_row() {
    let shape = Shape::new(vec![
        Field::named("a", integer()),
        Field::flattened("b", person()),
        Field::named("c", integer()),
    ]);
    let slots = partition_initializers(&shape, &names(&["a", "id", "name", "c", "x"])).unwrap();
    assert_eq!(slots, vec![slot(0, 5, 0), slot(0, 5, 1), slot(0, 5, 2)]);
}

#[test]
fn exact_groups_neighbouring_cells() {
    let fields = vec![
        Field::named("generation", integer()),
        Field::named("origin", text()),
        Field::flattened("parent", person()),
        Field::flattened("child", person()),
        Field::named("last", integer()),
    ];
    let slots = partition_exact(&fields, 7).unwrap();
    assert_eq!(
        slots,
        vec![
            slot(0, 2, 0),
            slot(0, 2, 1),
            slot(2, 4, 0),
            slot(4, 6, 0),
            slot(6, 7, 0)
        ]
    );
}

#[test]
fn exact_stride_gives_a_field_its_own_partition() {
    let fields = vec![
        Field::named("a", integer()),
        stride(Field::named("b", integer()), 3),
        Field::named("c", integer()),
        Field::named("d", integer()),
        stride(Field::flattened("e", person()), 4),
    ];
    let slots = partition_exact(&fields, 10).unwrap();
    assert_eq!(
        slots,
        vec![
            slot(0, 1, 0),
            slot(1, 4, 0),
            slot(4, 6, 0),
            slot(4, 6, 1),
            slot(6, 10, 0)
        ]
    );
}

#[test]
fn exact_leaves_trailing_columns() {
    let fields = vec![Field::flattened("parent", person())];
    assert_eq!(partition_exact(&fields, 5).unwrap(), vec![slot(0, 2, 0)]);
    assert_eq!(partition_exact(&[], 5).unwrap(), vec![]);
}

#[test]
fn exact_beyond_the_row() {
    let fields = vec![
        Field::flattened("parent", person()),
        Field::flattened("child", person()),
    ];
    assert_eq!(
        partition_exact(&fields, 3),
        Err(Error::SliceIndex {
            range: 2..4,
            len: 3
        })
    );
    assert_eq!(
        partition_exact(&fields, 1),
        Err(Error::SliceIndex {
            range: 0..2,
            len: 1
        })
    );
}

#[test]
fn exact_stride_beyond_all_bounds() {
    let fields = vec![
        Field::named("a", integer()),
        stride(Field::named("b", integer()), usize::MAX),
    ];
    assert_eq!(
        partition_exact(&fields, 8),
        Err(Error::SliceIndex {
            range: 1..usize::MAX,
            len: 8
        })
    );
}

#[test]
fn split_points_in_order() {
    let fields = vec![
        Field::named("generation", integer()),
        split_on(Field::named("id", integer()), &["id"]),
        split_on(Field::named("name", text()), &["id", "name"]),
        split_on(Field::named("age", integer()), &["age"]),
    ];
    assert_eq!(collect_split_points(&fields), vec!["id", "id", "name", "age"]);
    assert_eq!(collect_split_points(&[]), Vec::<&str>::new());
}

#[test]
fn split_gives_each_group_its_partition() {
    let fields = vec![
        Field::named("generation", integer()),
        split_on(Field::flattened("grandparent", person()), &["id"]),
        Field::named("age", integer()),
        split_on(Field::flattened("parent", person()), &["id"]),
        split_on(Field::flattened("child", person()), &["id"]),
    ];
    let columns = names(&[
        "generation",
        "id",
        "name",
        "age",
        "id",
        "name",
        "age",
        "id",
        "name",
        "age",
    ]);
    let slots = partition_split(&fields, &columns).unwrap();
    assert_eq!(
        slots,
        vec![
            slot(0, 1, 0),
            slot(1, 4, 0),
            slot(1, 4, 1),
            slot(4, 7, 0),
            slot(7, 10, 0)
        ]
    );
}

#[test]
fn stacked_splits_skip_partitions() {
    let fields = vec![
        Field::named("generation", integer()),
        split_on(Field::named("id", integer()), &["id"]),
        split_on(Field::named("name", text()), &["id", "name"]),
        split_on(Field::named("age", integer()), &["age"]),
    ];
    let columns = names(&[
        "generation",
        "id",
        "name",
        "age",
        "id",
        "name",
        "age",
        "id",
        "name",
        "age",
    ]);
    let slots = partition_split(&fields, &columns).unwrap();
    assert_eq!(
        slots,
        vec![slot(0, 1, 0), slot(1, 4, 0), slot(5, 6, 0), slot(6, 10, 0)]
    );
}

#[test]
fn split_that_finds_no_column() {
    let fields = vec![
        split_on(Field::flattened("parent", person()), &["id"]),
        split_on(Field::flattened("child", person()), &["id"]),
    ];
    assert_eq!(
        partition_split(&fields, &names(&["x", "id", "name"])),
        Err(Error::InvalidSplit {
            split: "id".to_owned(),
            columns: "`id`, `name`".to_owned(),
        })
    );
}

#[test]
fn partitioning_follows_the_container() {
    let mut shape = Shape::new(vec![
        split_on(Field::flattened("parent", person()), &["id"]),
        split_on(Field::flattened("child", person()), &["id"]),
    ]);
    let columns = names(&["id", "name", "id", "name"]);
    shape.attrs.partition = Some(PartitionKind::Split);
    assert_eq!(
        partition_initializers(&shape, &columns).unwrap(),
        vec![slot(0, 2, 0), slot(2, 4, 0)]
    );
    shape.attrs.partition = Some(PartitionKind::Exact);
    assert_eq!(
        partition_initializers(&shape, &columns).unwrap(),
        vec![slot(0, 2, 0), slot(2, 4, 0)]
    );
    shape.attrs.partition = None;
    assert_eq!(
        partition_initializers(&shape, &columns).unwrap(),
        vec![slot(0, 4, 0), slot(0, 4, 1)]
    );
}
