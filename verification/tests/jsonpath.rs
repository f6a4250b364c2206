use jsonb::jsonpath::parser::parse_json_path;
use jsonb::keypath::KeyPath;
use jsonb::jsonpath::path::{BinaryOperator, Expr, Path, PathValue};
use jsonb::jsonpath::selector::{Mode, Selector};
use jsonb::parser::parse_value;
use jsonb::{Error, RawJsonb};

fn j(text: &str) -> Vec<u8> {
    parse_value(text.as_bytes()).unwrap()
}

fn select(value: &[u8], path: &str) -> Vec<Vec<u8>> {
    let path = parse_json_path(path.as_bytes()).unwrap();
    Selector::new(path, Mode::Mixed).select_values(value).unwrap()
}

fn texts(values: &[Vec<u8>]) -> Vec<String> {
    values.iter().map(|v| RawJsonb::new(v).to_string()).collect()
}

const STORE: &str = r#"{"store":{"book":[
    {"title":"A","price":8,"category":"fiction","tags":["x","y"]},
    {"title":"B","price":12,"category":"reference","tags":[]},
    {"title":"C","price":5,"category":"fiction","isbn":"1"}
  ],"bicycle":{"color":"red","price":19}},"expensive":10}"#;

#[test]
fn test_json_path() {
    let cases = &[
        (r#"$"#, true),
        (r#"$.*"#, true),
        (r#"$[*]"#, true),
        (r#"$.store.book[*].*"#, true),
        (r#"$.store.book[0].price"#, true),
        (r#"$.store.book[last].isbn"#, false),
        (r#"$.store.book[0,1, last - 2].price"#, false),
        (r#"$.store.book[0,1 to last-1]"#, false),
        (r#"$.store.book?(@.isbn).price"#, false),
        (r#"$.store.book?(@.price > 10).title"#, false),
        (r#"$.store.book?(@.price < $.expensive).price"#, false),
        (r#"$."store":book["price"]"#, false),
        (r#"$.store.book?(@.price < 10 && @.category == "fiction")"#, false),
        (r#"$.store.book?(@.price > 10 || @.category == "reference")"#, false),
        (
            r#"$.store.book?(@.price > 20 && (@.category == "reference" || @.category == "fiction"))"#,
            false,
        ),
    ];

    for (case, in_grammar) in cases {
        let json_path = parse_json_path(case.as_bytes());
        assert_eq!(json_path.is_ok(), *in_grammar, "for {:?}", case);
    }
    for case in [
        r#"$.store.book[?(@.isbn)].price"#,
        r#"$.store.book[?(@.price > 10)].title"#,
        r#"$.store.book[?(@.price < $.expensive)].price"#,
        r#"$.store:book["price"]"#,
        r#"$.store.book[?(@.price < 10 && @.category == "fiction")]"#,
        r#"$.store.book[?(@.price > 10 || @.category == "reference")]"#,
    ] {
        assert!(parse_json_path(case.as_bytes()).is_ok(), "for {:?}", case);
    }
}

#[test]
fn a_path_takes_what_a_walk_through_the_tree_takes() {
    let store = j(STORE);
    let raw = RawJsonb::new(&store);
    let by_path = select(&store, "$.store.book[1].title");
    let by_walk = raw
        .get_by_keypath(&[
            KeyPath::Name("store"),
            KeyPath::Name("book"),
            KeyPath::Index(1),
            KeyPath::Name("title"),
        ])
        .unwrap();
    assert_eq!(by_path, vec![by_walk.unwrap()]);
    let by_path = select(&store, "$.store.bicycle");
    let by_walk = raw.get_by_name("store", false).unwrap().unwrap();
    let by_walk = RawJsonb::new(&by_walk).get_by_name("bicycle", false).unwrap().unwrap();
    assert_eq!(by_path, vec![by_walk]);
    let by_path = select(&store, "$.store.book[*]");
    let book = select(&store, "$.store.book");
    assert_eq!(Some(by_path), RawJsonb::new(&book[0]).array_values().unwrap());
    let by_path = select(&store, "$.store.*");
    let each = raw.get_by_name("store", false).unwrap().unwrap();
    let each = RawJsonb::new(&each).object_each().unwrap().unwrap();
    assert_eq!(by_path, each.into_iter().map(|(_, v)| v).collect::<Vec<_>>());
}

#[test]
fn test_json_path_error() {
    let cases = &[
        r#"x"#,
        r#"$.["#,
        r#"$X"#,
        r#"$."#,
        r#"$.prop."#,
        r#"$.."#,
        r#"$.prop.."#,
        r#"$.foo bar"#,
        r#"$[0, 1, 2 4]"#,
        r#"$['1','2',]"#,
        r#"$['1', ,'3']"#,
        r#"$['aaa'}'bbb']"#,
    ];

    for case in cases {
        let res = parse_json_path(case.as_bytes());
        assert!(res.is_err());
    }
}

#[test]
fn syntax_errors_are_invalid_json_path() {
    assert_eq!(parse_json_path(b"").unwrap_err(), Error::InvalidJsonPath);
    assert_eq!(parse_json_path(b"$[?(@.a < )]").unwrap_err(), Error::InvalidJsonPath);
    assert_eq!(parse_json_path(b"$[1:2:]").unwrap_err(), Error::InvalidJsonPath);
    assert_eq!(parse_json_path(b"$[99999999999]").unwrap_err(), Error::InvalidJsonPath);
}

#[test]
fn steps_are_read() {
    let path = parse_json_path(b" $.store:book[0]..title[*].*..* ").unwrap();
    assert_eq!(
        path.paths,
        vec![
            Path::Root,
            Path::DotField(b"store".to_vec()),
            Path::ColonField(b"book".to_vec()),
            Path::ArrayIndex(0),
            Path::DescentField(b"title".to_vec()),
            Path::BracketWildcard,
            Path::DotWildcard,
            Path::DescentWildcard,
        ]
    );
    let path = parse_json_path(b"$[ 1 , -2,3 ]['a', \"b\\n\"][ 'c' ][ -1 : 5 : 2 ][:][2:]").unwrap();
    assert_eq!(
        path.paths,
        vec![
            Path::Root,
            Path::ArrayIndices(vec![1, -2, 3]),
            Path::ObjectFields(vec![b"a".to_vec(), b"b\n".to_vec()]),
            Path::ObjectField(b"c".to_vec()),
            Path::ArraySlice { start: Some(-1), end: Some(5), step: Some(2) },
            Path::ArraySlice { start: None, end: None, step: None },
            Path::ArraySlice { start: Some(2), end: None, step: None },
        ]
    );
}

#[test]
fn filters_are_read() {
    let path = parse_json_path(b"$[?(@.a < 10 && $.b == 'x' || @.c)]").unwrap();
    let a_lt = Expr::BinaryOp {
        op: BinaryOperator::Lt,
        left: Box::new(Expr::Paths(vec![Path::Current, Path::DotField(b"a".to_vec())])),
        right: Box::new(Expr::Value(PathValue::UInt64(10))),
    };
    let b_eq = Expr::BinaryOp {
        op: BinaryOperator::Eq,
        left: Box::new(Expr::Paths(vec![Path::Root, Path::DotField(b"b".to_vec())])),
        right: Box::new(Expr::Value(PathValue::String(b"x".to_vec()))),
    };
    let and = Expr::BinaryOp { op: BinaryOperator::And, left: Box::new(a_lt), right: Box::new(b_eq) };
    let c = Expr::Paths(vec![Path::Current, Path::DotField(b"c".to_vec())]);
    let or = Expr::BinaryOp { op: BinaryOperator::Or, left: Box::new(and), right: Box::new(c) };
    assert_eq!(path.paths, vec![Path::Root, Path::FilterExpr(Box::new(or))]);

    let path = parse_json_path(b"$[?(@.a <= -3)]").unwrap();
    let lte = Expr::BinaryOp {
        op: BinaryOperator::Lte,
        left: Box::new(Expr::Paths(vec![Path::Current, Path::DotField(b"a".to_vec())])),
        right: Box::new(Expr::Value(PathValue::Int64(-3))),
    };
    assert_eq!(path.paths, vec![Path::Root, Path::FilterExpr(Box::new(lte))]);

    let path = parse_json_path(b"$[?(@.a SubsetOf $.b[*])]").unwrap();
    match &path.paths[1] {
        Path::FilterExpr(e) => match &**e {
            Expr::BinaryOp { op, .. } => assert_eq!(*op, BinaryOperator::Subsetof),
            _ => panic!("no operator"),
        },
        _ => panic!("no filter"),
    }

    let path = parse_json_path(b"$[?(@.a >= 1.5)]").unwrap();
    match &path.paths[1] {
        Path::FilterExpr(e) => match &**e {
            Expr::BinaryOp { op, right, .. } => {
                assert_eq!(*op, BinaryOperator::Gte);
                assert_eq!(**right, Expr::Value(PathValue::Float64(1.5f64.to_bits())));
            }
            _ => panic!("no operator"),
        },
        _ => panic!("no filter"),
    }
}

#[test]
fn filter_keeps_the_cheap_books_in_order() {
    let store = j(STORE);
    let got = select(&store, "$.store.book[?(@.price < 10)].title");
    assert_eq!(texts(&got), vec!["\"A\"", "\"C\""]);
}

#[test]
fn filter_compares_with_a_path_from_the_root() {
    let store = j(STORE);
    let got = select(&store, "$.store.book[?(@.price > $.expensive)].title");
    assert_eq!(texts(&got), vec!["\"B\""]);
    let got = select(&store, "$.store.book[?(@.price < 10 && @.category == 'fiction')].price");
    assert_eq!(texts(&got), vec!["8", "5"]);
    let got = select(&store, "$.store.book[?(@.price > 10 || @.isbn)].title");
    assert_eq!(texts(&got), vec!["\"B\"", "\"C\""]);
    let got = select(&store, "$.store.book[?(@.isbn)].title");
    assert_eq!(texts(&got), vec!["\"C\""]);
    let got = select(&store, "$.store.book[?(@.price != 12)].title");
    assert_eq!(texts(&got), vec!["\"A\"", "\"C\""]);
}

#[test]
fn filter_set_operators() {
    let store = j(STORE);
    let got = select(&store, "$.store.book[?(@.category in $.store.book[0].category)].title");
    assert_eq!(texts(&got), vec!["\"A\"", "\"C\""]);
    let got = select(&store, "$.store.book[?(@.category nin $.store.book[0].category)].title");
    assert_eq!(texts(&got), vec!["\"B\""]);
    let got = select(&store, "$.store.book[?(@.tags[*] size 2)].title");
    assert_eq!(texts(&got), vec!["\"A\""]);
    let got = select(&store, "$.store.book[?(@.tags[*] empty true)].title");
    assert_eq!(texts(&got), vec!["\"B\"", "\"C\""]);
    let got = select(&store, "$.store.book[?(@.tags[*] anyof 'y')].title");
    assert_eq!(texts(&got), vec!["\"A\""]);
    let got = select(&store, "$.store.book[?(@.tags[*] noneof 'y')].title");
    assert_eq!(texts(&got), vec!["\"B\"", "\"C\""]);
    let got = select(&store, "$.store.book[?(@.tags[*] subsetof $.store.book[0].tags[*])].title");
    assert_eq!(texts(&got), vec!["\"A\"", "\"B\"", "\"C\""]);
}

#[test]
fn a_pattern_match_is_refused() {
    let store = j(STORE);
    let path = parse_json_path(b"$.store.book[?(@.title =~ 'A')]").unwrap();
    let r = Selector::new(path, Mode::Mixed).select_values(&store);
    assert_eq!(r, Err(Error::InvalidJsonPath));
}

#[test]
fn steps_select() {
    let store = j(STORE);
    assert_eq!(texts(&select(&store, "$.expensive")), vec!["10"]);
    assert_eq!(texts(&select(&store, "$.store.bicycle.*")), vec!["\"red\"", "19"]);
    assert_eq!(texts(&select(&store, "$.store.book[*].price")), vec!["8", "12", "5"]);
    assert_eq!(texts(&select(&store, "$.store.book[1].title")), vec!["\"B\""]);
    assert_eq!(texts(&select(&store, "$.store.book[2,0].title")), vec!["\"C\"", "\"A\""]);
    assert_eq!(texts(&select(&store, "$.store.book[-1].title")), Vec::<String>::new());
    assert_eq!(texts(&select(&store, "$.store.book[5].title")), Vec::<String>::new());
    assert_eq!(texts(&select(&store, "$.store.book[1:].title")), vec!["\"B\"", "\"C\""]);
    assert_eq!(texts(&select(&store, "$.store.book[-2:].title")), vec!["\"B\"", "\"C\""]);
    assert_eq!(texts(&select(&store, "$.store.book[:-1].title")), vec!["\"A\"", "\"B\""]);
    assert_eq!(texts(&select(&store, "$.store.book[::2].title")), vec!["\"A\"", "\"C\""]);
    assert_eq!(texts(&select(&store, "$.store.book[0:3:0].title")), Vec::<String>::new());
    assert_eq!(texts(&select(&store, "$.store['bicycle']['color','price']")), vec!["\"red\"", "19"]);
    assert_eq!(texts(&select(&store, "$..price")), vec!["19", "8", "12", "5"]);
    assert_eq!(texts(&select(&store, "$.store.bicycle..*")), vec!["\"red\"", "19"]);
    assert_eq!(texts(&select(&store, "$.expensive[*]")), vec!["10"]);
    assert_eq!(texts(&select(&store, "$.store.book[0].tags..*")), vec!["\"x\"", "\"y\""]);
    assert_eq!(texts(&select(&store, "$.store.book$.expensive")), vec!["10"]);
}

#[test]
fn modes_write_data_and_offsets() {
    let value = j("[1,\"ab\",[2]]");
    let raw = RawJsonb::new(&value);
    let path = || parse_json_path(b"$[*]").unwrap();

    let mut data = vec![0xFFu8];
    let mut offsets = vec![7u64];
    raw.get_by_path(path(), &mut data, &mut offsets).unwrap();
    let one = j("1");
    let ab = j("\"ab\"");
    let two = j("[2]");
    let mut expected = vec![0xFFu8];
    expected.extend_from_slice(&one);
    expected.extend_from_slice(&ab);
    expected.extend_from_slice(&two);
    assert_eq!(data, expected);
    let o1 = 1 + one.len() as u64;
    let o2 = o1 + ab.len() as u64;
    let o3 = o2 + two.len() as u64;
    assert_eq!(offsets, vec![7, o1, o2, o3]);

    let mut data = Vec::new();
    let mut offsets = Vec::new();
    raw.get_by_path_first(path(), &mut data, &mut offsets).unwrap();
    assert_eq!(data, one);
    assert_eq!(offsets, vec![one.len() as u64]);

    let mut data = Vec::new();
    let mut offsets = Vec::new();
    raw.get_by_path_array(path(), &mut data, &mut offsets).unwrap();
    assert_eq!(data, value);
    assert_eq!(offsets, vec![value.len() as u64]);

    let mut data = Vec::new();
    let mut offsets = Vec::new();
    raw.get_by_path_first(parse_json_path(b"$.a").unwrap(), &mut data, &mut offsets).unwrap();
    assert!(data.is_empty());
    assert!(offsets.is_empty());

    let selector = Selector::new(path(), Mode::Predicate);
    let mut data = Vec::new();
    let mut offsets = Vec::new();
    assert_eq!(selector.select(&value, &mut data, &mut offsets), Err(Error::InvalidJsonPath));
}

#[test]
fn path_exists_and_path_match() {
    let store = j(STORE);
    let raw = RawJsonb::new(&store);
    assert_eq!(raw.path_exists(parse_json_path(b"$.store.book[2].isbn").unwrap()), Ok(true));
    assert_eq!(raw.path_exists(parse_json_path(b"$.store.book[1].isbn").unwrap()), Ok(false));
    assert_eq!(
        raw.path_match(parse_json_path(b"$.store.book[?(@.price > 11)]").unwrap()),
        Ok(true)
    );
    assert_eq!(
        raw.path_match(parse_json_path(b"$.store.book[?(@.price > 12)]").unwrap()),
        Ok(false)
    );
    assert_eq!(
        raw.path_match(parse_json_path(b"$.store.book").unwrap()),
        Err(Error::InvalidJsonPath)
    );
}
