use bytes::BytesMut;
use postgres_query::parse::parse;
use postgres_query::{Error, ParseError, Query};
use postgres_types::{IsNull, ToSql, Type};

type Parameter<'a> = &'a (dyn ToSql + Sync);

fn assert_params_eq<'a>(a: &[&'a (dyn ToSql + Sync)], b: &[(&'a dyn ToSql, &'a Type)]) {
    assert_eq!(a.len(), b.len());
    for (a, (b, ty)) in a.iter().copied().zip(b.iter().copied()) {
        assert!(sql_eq(a, b, ty));
    }
}

/// Check if two SQL values are of the same type and value
fn sql_eq(a: &dyn ToSql, b: &dyn ToSql, ty: &Type) -> bool {
    let mut a_buffer = BytesMut::new();
    let mut b_buffer = BytesMut::new();

    let a_result = a.to_sql_checked(ty, &mut a_buffer);
    let b_result = b.to_sql_checked(ty, &mut b_buffer);

    let is_null = |null| match null {
        IsNull::Yes => true,
        IsNull::No => false,
    };

    a_result.is_ok()
        && b_result.is_ok()
        && is_null(a_result.unwrap()) == is_null(b_result.unwrap())
        && a_buffer == b_buffer
}

#[test]
fn parse_query_without_bindings() {
    let query = Query::<Parameter>::parse("SELECT 123, 'abc'", &[]).unwrap();
    assert_eq!(query.sql(), "SELECT 123, 'abc'");
}

#[test]
fn parse_query_single_binding() {
    let query = Query::<Parameter>::parse("SELECT $number", &[("number", &123)]).unwrap();
    assert_eq!(query.sql(), "SELECT $1");
}

#[test]
fn parse_query_missing_identifier_eof() {
    let query = Query::<Parameter>::parse("SELECT $", &[]);
    assert!(matches!(
        query.unwrap_err(),
        Error::Parse(ParseError::EmptyIdentifier { found: None })
    ));
}

#[test]
fn parse_query_missing_identifier() {
    let query = Query::<Parameter>::parse("SELECT $ FROM users", &[]);
    assert!(matches!(
        query.unwrap_err(),
        Error::Parse(ParseError::EmptyIdentifier { found: Some(' ') })
    ));
}

#[test]
fn text_only() {
    let query = Query::<Parameter>::parse("SELECT id, name FROM people", &[]).unwrap();

    assert_eq!(query.sql(), "SELECT id, name FROM people");
    assert_params_eq(query.parameters(), &[])
}

#[test]
fn escape_dollar() {
    let query = Query::<Parameter>::parse("SELECT $$", &[]).unwrap();
    assert_eq!(query.sql(), "SELECT $");
    assert_params_eq(query.parameters(), &[])
}

#[test]
fn parameter_substitution_implicit_name() {
    let age = 42;
    let query = Query::<Parameter>::parse(
        "SELECT id, name FROM people WHERE age = $age",
        &[("age", &age)],
    )
    .unwrap();

    assert_eq!(query.sql(), "SELECT id, name FROM people WHERE age = $1");
    assert_params_eq(query.parameters(), &[(&age, &Type::INT4)])
}

#[test]
fn parameter_substitution_explicit_name() {
    let query = Query::<Parameter>::parse(
        "SELECT id, name FROM people WHERE age = $age",
        &[("age", &42)],
    )
    .unwrap();

    assert_eq!(query.sql(), "SELECT id, name FROM people WHERE age = $1");
    assert_params_eq(query.parameters(), &[(&42, &Type::INT4)])
}

#[test]
fn parameter_substitution_multiple_parameters() {
    let query = Query::<Parameter>::parse(
        "$a $b $c",
        &[("a", &42), ("b", &"John Wick"), ("c", &Option::<i32>::None)],
    )
    .unwrap();

    assert_eq!(query.sql(), "$1 $2 $3");
    assert_params_eq(
        query.parameters(),
        &[
            (&42, &Type::INT4),
            (&"John Wick", &Type::TEXT),
            (&Option::<i32>::None, &Type::INT4),
        ],
    )
}

#[test]
fn dynamic_query() {
    let filters = ["age > $min_age", "name LIKE $name"].join(" AND ");

    let query = Query::<Parameter>::parse(
        &format!("SELECT * FROM people WHERE {}", filters),
        &[("min_age", &32), ("name", &"%John%")],
    )
    .unwrap();

    assert_eq!(
        query.sql(),
        "SELECT * FROM people WHERE age > $1 AND name LIKE $2"
    );
}

#[test]
fn dynamic_query_dynamic_bindings() {
    let mut filters = Vec::new();
    let mut bindings = Vec::<(&str, Parameter)>::new();

    filters.push("age > $min_age");
    bindings.push(("min_age", &32));

    filters.push("name LIKE $name");
    bindings.push(("name", &"%John%"));

    let filters = filters.join(" AND ");
    let sql = format!("SELECT * FROM people WHERE {}", filters);

    let query = Query::parse(&sql, &bindings).unwrap();

    assert_eq!(
        query.sql(),
        "SELECT * FROM people WHERE age > $1 AND name LIKE $2"
    );

    assert_params_eq(
        query.parameters(),
        &[(&32, &Type::INT4), (&"%John%", &Type::TEXT)],
    );
}

#[test]
fn derive_query_basic() {
    let name = &"Jake";
    let age = 21;

    let query = Query::<Parameter>::parse(
        "SELECT * FROM users WHERE age > $age AND name > $name",
        &[("name", name), ("age", &age)],
    )
    .unwrap();

    let params = query.parameters();
    let expected_params: &[&dyn ToSql] = &[&age, &name];

    assert_eq!(format!("{:?}", params), format!("{:?}", expected_params));

    assert_eq!(
        query.sql(),
        "SELECT * FROM users WHERE age > $1 AND name > $2",
    );
}

#[test]
fn define_query_basic() {
    let name = "Jake";

    let query = Query::parse("SELECT id FROM users WHERE name = $name", &[("name", &name)]).unwrap();

    assert_eq!(query.sql(), "SELECT id FROM users WHERE name = $1");
}

#[test]
fn new_keeps_sql_and_parameters() {
    let query = Query::new("SELECT $1".to_owned(), vec![7]);
    assert_eq!(query.sql(), "SELECT $1");
    assert_eq!(query.parameters(), &[7]);
    assert_eq!(query.static_sql(), None);
}

#[test]
fn new_static_keeps_the_text_itself() {
    static TEXT: &str = "SELECT $1, $2";
    let query = Query::new_static(TEXT, vec!["a", "b"]);
    assert_eq!(query.sql(), TEXT);
    assert_eq!(query.parameters(), &["a", "b"]);
    assert_eq!(query.static_sql().unwrap().as_ptr(), TEXT.as_ptr());
}

#[test]
fn parsed_query_is_dynamic() {
    let query = Query::parse("SELECT $a", &[("a", 1)]).unwrap();
    assert_eq!(query.static_sql(), None);
}

#[test]
fn escaped_dollar_alone() {
    let (sql, parameters) = parse::<i32>("$$", &[]).unwrap();
    assert_eq!(sql, "$");
    assert!(parameters.is_empty());
}

#[test]
fn numbering_follows_first_reference() {
    let (sql, parameters) = parse("$b $a $b", &[("a", 1), ("b", 2)]).unwrap();
    assert_eq!(sql, "$1 $2 $1");
    assert_eq!(parameters, vec![2, 1]);
}

#[test]
fn dollar_at_end_of_text() {
    let error = parse::<i32>("SELECT $", &[]).unwrap_err();
    assert_eq!(error, ParseError::EmptyIdentifier { found: None });
}

#[test]
fn dollar_before_space() {
    let error = parse::<i32>("SELECT $ FROM t", &[]).unwrap_err();
    assert_eq!(error, ParseError::EmptyIdentifier { found: Some(' ') });
}

#[test]
fn undefined_binding() {
    let error = parse::<i32>("$x", &[]).unwrap_err();
    assert_eq!(
        error,
        ParseError::UndefinedBinding {
            binding: "x".to_owned()
        }
    );
}

#[test]
fn unused_binding() {
    let error = parse("SELECT $a", &[("a", 1), ("b", 2), ("c", 3)]).unwrap_err();
    assert_eq!(
        error,
        ParseError::UnusedBinding {
            binding: "b".to_owned()
        }
    );
}

#[test]
fn malformed_dollar_comes_before_unused_binding() {
    let error = parse("SELECT $", &[("a", 1)]).unwrap_err();
    assert_eq!(error, ParseError::EmptyIdentifier { found: None });
}

#[test]
fn first_error_in_the_text_is_reported() {
    let error = parse("$missing $", &[("a", 1)]).unwrap_err();
    assert_eq!(
        error,
        ParseError::UndefinedBinding {
            binding: "missing".to_owned()
        }
    );
    let error = parse("$ $missing", &[("a", 1)]).unwrap_err();
    assert_eq!(error, ParseError::EmptyIdentifier { found: Some(' ') });
}

#[test]
fn second_binding_of_a_name_is_unused() {
    let error = parse("$a", &[("a", 1), ("a", 2)]).unwrap_err();
    assert_eq!(
        error,
        ParseError::UnusedBinding {
            binding: "a".to_owned()
        }
    );
}

#[test]
fn identifier_ends_at_the_first_other_character() {
    let (sql, parameters) = parse("($a_1,$B2)$a_1;$$x", &[("B2", 'b'), ("a_1", 'a')]).unwrap();
    assert_eq!(sql, "($1,$2)$1;$x");
    assert_eq!(parameters, vec!['a', 'b']);
}

#[test]
fn identifier_is_ascii_only() {
    let error = parse("$é", &[("é", 1)]).unwrap_err();
    assert_eq!(error, ParseError::EmptyIdentifier { found: Some('é') });
    let error = parse("$aé", &[("aé", 1)]).unwrap_err();
    assert_eq!(
        error,
        ParseError::UndefinedBinding {
            binding: "a".to_owned()
        }
    );
}

#[test]
fn text_outside_placeholders_is_copied() {
    let (sql, parameters) = parse("søk → '%' || $q", &[("q", 0)]).unwrap();
    assert_eq!(sql, "søk → '%' || $1");
    assert_eq!(parameters, vec![0]);
}

#[test]
fn numbers_have_as_many_digits_as_needed() {
    let names: Vec<String> = (0..120).map(|i| format!("p{}", i)).collect();
    let bindings: Vec<(&str, usize)> = names.iter().map(|n| n.as_str()).zip(0..).collect();
    let text: String = names.iter().map(|n| format!("${} ", n)).collect();
    let (sql, parameters) = parse(&text, &bindings).unwrap();
    let expected: String = (1..=120).map(|i| format!("${} ", i)).collect();
    assert_eq!(sql, expected);
    assert_eq!(parameters, (0..120).collect::<Vec<usize>>());
}

#[test]
fn compiling_twice_gives_the_same() {
    let bindings = [("a", 1), ("b", 2), ("c", 3)];
    let first = parse("$c = $a OR $b = $c OR $$", &bindings).unwrap();
    let second = parse("$c = $a OR $b = $c OR $$", &bindings).unwrap();
    assert_eq!(first, second);
    assert_eq!(first.0, "$1 = $2 OR $3 = $1 OR $");
    assert_eq!(first.1, vec![3, 1, 2]);
}

#[test]
fn every_binding_gets_one_number() {
    let bindings = [("x", 10), ("y", 20), ("z", 30)];
    let (_, parameters) = parse("$z $z $x $y $x", &bindings).unwrap();
    let mut sorted = parameters.clone();
    sorted.sort();
    assert_eq!(parameters.len(), bindings.len());
    assert_eq!(sorted, vec![10, 20, 30]);
}

#[test]
fn parse_errors_in_words() {
    assert_eq!(
        ParseError::UndefinedBinding {
            binding: "age".to_owned()
        }
        .message(),
        "failed to find binding matching `$age`"
    );
    assert_eq!(
        ParseError::EmptyIdentifier { found: Some('-') }.message(),
        "expected an identifier, found '-'. Dollar signs may be escaped: `$$`."
    );
    assert_eq!(
        ParseError::EmptyIdentifier { found: None }.message(),
        "expected an identifier, found 'EOF'. Dollar signs may be escaped: `$$`."
    );
    assert_eq!(
        ParseError::UnusedBinding {
            binding: "age".to_owned()
        }
        .message(),
        "unused argument `$age`"
    );
    assert_eq!(
        Error::Parse(ParseError::EmptyIdentifier { found: Some('é') }).message(),
        "failed to parse query: expected an identifier, found 'é'. Dollar signs may be escaped: `$$`."
    );
    assert_eq!(
        Error::Execute(postgres_query::execute::Error::NoRows).message(),
        "failed to execute the query"
    );
}
