use pgbind::sql::{nodes_from_tokens, parse, TokenKind};
use pgbind::statement::{Node, PreparedStatement};
use pgbind::value::{BindValue, Literal, ParamType};

fn render(nodes: &[Node]) -> String {
    let mut out = String::new();
    for n in nodes {
        match n {
            Node::Word(w) => out.push_str(w),
            Node::Lit(Literal::Int(v)) => out.push_str(&v.to_string()),
            Node::Lit(Literal::Null) => out.push_str("NULL"),
            Node::Lit(Literal::Bool(b)) => out.push_str(if *b { "true" } else { "false" }),
            Node::Lit(Literal::Str(s)) => out.push_str(&format!("'{}'", String::from_utf8_lossy(s))),
            Node::Placeholder(o) => out.push_str(&format!("${}", o)),
        }
    }
    out
}

#[test]
fn parse_and_bind_end_to_end() {
    let q = parse("SELECT * FROM t WHERE a = $1 AND b = $1").unwrap();
    let n = q.iter().filter(|n| matches!(n, Node::Placeholder(1))).count();
    assert_eq!(n, 2);
    let p = PreparedStatement::new(q, vec![ParamType::Int8], vec![]).unwrap();
    assert_eq!(p.parameters.len(), 1);
    let bound = p.bind(vec![BindValue::text("5")]).unwrap();
    assert_eq!(bound, parse("SELECT * FROM t WHERE a = 5 AND b = 5").unwrap());
    assert_eq!(render(&bound), "SELECT * FROM t WHERE a = 5 AND b = 5");
}

#[test]
fn bound_integer_equals_parsed_literal() {
    let q = parse("SELECT * FROM t WHERE a = $1").unwrap();
    let p = PreparedStatement::new(q, vec![ParamType::Int8], vec![]).unwrap();
    let bound = p.bind(vec![BindValue::text("123")]).unwrap();
    assert_eq!(bound, parse("SELECT * FROM t WHERE a = 123").unwrap());
    assert!(bound.contains(&Node::Lit(Literal::Int(123))));
}

#[test]
fn bound_text_equals_parsed_string_literal() {
    let q = parse("SELECT $1").unwrap();
    let p = PreparedStatement::new(q, vec![ParamType::Text], vec![]).unwrap();
    let bound = p.bind(vec![BindValue::text("it's")]).unwrap();
    assert_eq!(bound, parse("SELECT 'it''s'").unwrap());
}

#[test]
fn large_or_fractional_numbers_stay_words() {
    let q = parse("SELECT 1.5, 99999999999999999999").unwrap();
    assert!(q.contains(&Node::Word("1.5".to_string())));
    assert!(q.contains(&Node::Word("99999999999999999999".to_string())));
}

#[test]
fn parse_keeps_text_of_other_tokens() {
    let q = parse("SELECT $2, $1").unwrap();
    assert_eq!(render(&q), "SELECT $2, $1");
    assert!(q.contains(&Node::Placeholder(2)));
    assert!(q.contains(&Node::Word("SELECT".to_string())));
}

#[test]
fn placeholder_without_number_is_rejected() {
    let tokens = vec![
        (TokenKind::Other, "SELECT".to_string()),
        (TokenKind::Placeholder, "$x".to_string()),
    ];
    assert_eq!(nodes_from_tokens(&tokens), None);
    let tokens = vec![
        (TokenKind::Placeholder, "$12".to_string()),
        (TokenKind::Number, "7".to_string()),
        (TokenKind::Quoted, "ab".to_string()),
    ];
    assert_eq!(
        nodes_from_tokens(&tokens),
        Some(vec![
            Node::Placeholder(12),
            Node::Lit(Literal::Int(7)),
            Node::Lit(Literal::Str(b"ab".to_vec())),
        ])
    );
}
