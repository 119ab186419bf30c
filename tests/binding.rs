use pgbind::statement::{BindError, ColumnDescription, Node, PreparedStatement};
use pgbind::value::{decode, BindValue, Literal, ParamType};

fn w(s: &str) -> Node {
    Node::Word(s.to_string())
}

fn select_repeated() -> Vec<Node> {
    vec![
        w("SELECT"), w("*"), w("FROM"), w("t"), w("WHERE"), w("a"), w("="),
        Node::Placeholder(1), w("AND"), w("b"), w("="), Node::Placeholder(1),
    ]
}

fn prepared(query: Vec<Node>, params: Vec<ParamType>) -> PreparedStatement {
    PreparedStatement::new(query, params, vec![]).unwrap()
}

#[test]
fn end_to_end_repeated_placeholder() {
    let p = prepared(select_repeated(), vec![ParamType::Int8]);
    assert_eq!(p.parameters.len(), 1);
    let bound = p.bind(vec![BindValue::text("5")]).unwrap();
    let expected = vec![
        w("SELECT"), w("*"), w("FROM"), w("t"), w("WHERE"), w("a"), w("="),
        Node::Lit(Literal::Int(5)), w("AND"), w("b"), w("="), Node::Lit(Literal::Int(5)),
    ];
    assert_eq!(bound, expected);
}

#[test]
fn bound_tree_has_no_placeholders() {
    let q = vec![w("SELECT"), Node::Placeholder(2), w(","), Node::Placeholder(1)];
    let p = prepared(q, vec![ParamType::Text, ParamType::Bool]);
    let bound = p.bind(vec![BindValue::text("x"), BindValue::text("true")]).unwrap();
    assert!(bound.iter().all(|n| !matches!(n, Node::Placeholder(_))));
    assert_eq!(bound[1], Node::Lit(Literal::Bool(true)));
    assert_eq!(bound[3], Node::Lit(Literal::Str(b"x".to_vec())));
}

#[test]
fn binding_twice_gives_equal_trees_and_keeps_query() {
    let p = prepared(select_repeated(), vec![ParamType::Int8]);
    let a = p.bind(vec![BindValue::text("7")]).unwrap();
    let b = p.bind(vec![BindValue::text("7")]).unwrap();
    assert_eq!(a, b);
    assert_eq!(p.query, select_repeated());
}

#[test]
fn too_many_values_is_arity_error() {
    let p = prepared(select_repeated(), vec![ParamType::Int8]);
    let r = p.bind(vec![BindValue::text("1"), BindValue::text("2")]);
    assert_eq!(r, Err(BindError::ArityError));
}

#[test]
fn omitted_trailing_value_is_null() {
    let q = vec![Node::Placeholder(1), Node::Placeholder(2)];
    let p = prepared(q, vec![ParamType::Int8, ParamType::Int8]);
    let bound = p.bind(vec![BindValue::text("3")]).unwrap();
    assert_eq!(bound, vec![Node::Lit(Literal::Int(3)), Node::Lit(Literal::Null)]);
}

#[test]
fn bad_integer_text_names_ordinal() {
    let q = vec![Node::Placeholder(1), Node::Placeholder(2)];
    let p = prepared(q, vec![ParamType::Text, ParamType::Int8]);
    let r = p.bind(vec![BindValue::text("ok"), BindValue::text("abc")]);
    assert_eq!(r, Err(BindError::TypeMismatch(2)));
}

#[test]
fn count_mismatch_is_metadata_error() {
    let r = PreparedStatement::new(select_repeated(), vec![ParamType::Int8, ParamType::Int8], vec![]);
    assert_eq!(r.err(), Some(BindError::MetadataMismatch));
    let r = PreparedStatement::new(vec![Node::Placeholder(3)], vec![ParamType::Int8], vec![]);
    assert_eq!(r.err(), Some(BindError::MetadataMismatch));
    let r = PreparedStatement::new(vec![w("SELECT")], vec![ParamType::Int8], vec![]);
    assert_eq!(r.err(), Some(BindError::MetadataMismatch));
}

#[test]
fn no_placeholders_binds_to_equal_tree() {
    let q = vec![w("SELECT"), w("1")];
    let p = prepared(q.clone(), vec![]);
    assert_eq!(p.bind(vec![]).unwrap(), q);
}

#[test]
fn describe_returns_metadata() {
    let col = ColumnDescription { name: "a".to_string(), column_type: ParamType::Int8, format: 0 };
    let p = PreparedStatement::new(select_repeated(), vec![ParamType::Int8], vec![col.clone()]).unwrap();
    let (params, cols) = p.describe();
    assert_eq!(params, &vec![ParamType::Int8]);
    assert_eq!(cols, &vec![col]);
}

#[test]
fn decode_text_integers() {
    assert_eq!(decode(ParamType::Int8, &BindValue::text("123")), Some(Literal::Int(123)));
    assert_eq!(decode(ParamType::Int8, &BindValue::text("-42")), Some(Literal::Int(-42)));
    assert_eq!(
        decode(ParamType::Int8, &BindValue::text("-9223372036854775808")),
        Some(Literal::Int(i64::MIN))
    );
    assert_eq!(
        decode(ParamType::Int8, &BindValue::text("9223372036854775807")),
        Some(Literal::Int(i64::MAX))
    );
    assert_eq!(decode(ParamType::Int8, &BindValue::text("9223372036854775808")), None);
    assert_eq!(decode(ParamType::Int8, &BindValue::text("abc")), None);
    assert_eq!(decode(ParamType::Int8, &BindValue::text("")), None);
    assert_eq!(decode(ParamType::Int8, &BindValue::text("-")), None);
}

#[test]
fn decode_null_under_every_type() {
    for t in [ParamType::Int8, ParamType::Bool, ParamType::Text] {
        assert_eq!(decode(t, &BindValue::Null), Some(Literal::Null));
    }
}

#[test]
fn decode_booleans_and_binary() {
    assert_eq!(decode(ParamType::Bool, &BindValue::text("f")), Some(Literal::Bool(false)));
    assert_eq!(decode(ParamType::Bool, &BindValue::text("yes")), Some(Literal::Bool(true)));
    assert_eq!(decode(ParamType::Bool, &BindValue::text("maybe")), None);
    assert_eq!(decode(ParamType::Bool, &BindValue::Binary(vec![1])), Some(Literal::Bool(true)));
    assert_eq!(decode(ParamType::Bool, &BindValue::Binary(vec![2])), None);
    assert_eq!(
        decode(ParamType::Text, &BindValue::Binary(vec![104, 105])),
        Some(Literal::Str(vec![104, 105]))
    );
    assert_eq!(decode(ParamType::Int8, &BindValue::Binary(vec![0; 8])), Some(Literal::Int(0)));
}

#[test]
fn decode_binary_integers() {
    let v = |b: Vec<u8>| decode(ParamType::Int8, &BindValue::Binary(b));
    assert_eq!(v(vec![0, 0, 0, 0, 0, 0, 1, 2]), Some(Literal::Int(258)));
    assert_eq!(v(vec![0xff; 8]), Some(Literal::Int(-1)));
    assert_eq!(v(vec![0x80, 0, 0, 0, 0, 0, 0, 0]), Some(Literal::Int(i64::MIN)));
    assert_eq!(v(vec![0x7f, 0xff, 0xff, 0xff, 0xff, 0xff, 0xff, 0xff]), Some(Literal::Int(i64::MAX)));
    assert_eq!(v(vec![0, 0, 0, 1]), None);
}

#[test]
fn decode_text_grammar_edges() {
    let b = |s: &str| decode(ParamType::Bool, &BindValue::text(s));
    assert_eq!(b("  TRUE "), Some(Literal::Bool(true)));
    assert_eq!(b("Tr"), Some(Literal::Bool(true)));
    assert_eq!(b("on"), Some(Literal::Bool(true)));
    assert_eq!(b("1"), Some(Literal::Bool(true)));
    assert_eq!(b("OFF"), Some(Literal::Bool(false)));
    assert_eq!(b("of"), Some(Literal::Bool(false)));
    assert_eq!(b("n"), Some(Literal::Bool(false)));
    assert_eq!(b("0"), Some(Literal::Bool(false)));
    assert_eq!(b("o"), None);
    assert_eq!(b("truex"), None);
    assert_eq!(b(""), None);
    let i = |s: &str| decode(ParamType::Int8, &BindValue::text(s));
    assert_eq!(i(" +17\n"), Some(Literal::Int(17)));
    assert_eq!(i("\t-3 "), Some(Literal::Int(-3)));
    assert_eq!(i("+"), None);
    assert_eq!(i("1 2"), None);
    assert_eq!(i("   "), None);
}
