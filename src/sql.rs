use vstd::prelude::*;
use vstd::utf8::encode_utf8;
use crate::statement::{Node, NodeModel};
use crate::value::{
    Literal,
    LiteralModel,
    all_digits,
    copy_bytes,
    digits_value,
    parse_magnitude,
    parse_text_int,
    text_int,
};

verus! {

/// What a token is, as far as binding is concerned.
#[derive(Clone, Copy, Debug, PartialEq, Eq, Structural)]
pub enum TokenKind {
    /// A positional placeholder such as `$1`.
    Placeholder,
    /// An unsigned numeric literal.
    Number,
    /// A single-quoted string; its text is the unescaped content.
    Quoted,
    /// Anything else, held as its SQL text.
    Other,
}

/// The tokens of SQL text under the PostgreSQL dialect, as sqlparser's
/// tokenizer gives them: each with its kind and its text; `None` where the
/// text does not tokenize.
pub uninterp spec fn sql_tokens(sql: Seq<char>) -> Option<Seq<(TokenKind, Seq<char>)>>;

pub open spec fn token_models(t: Seq<(TokenKind, String)>) -> Seq<(TokenKind, Seq<char>)> {
    t.map_values(|p: (TokenKind, String)| (p.0, p.1@))
}

/// Relies on sqlparser's `Tokenizer::tokenize` with `PostgreSqlDialect`.
/// Placeholders, numbers and single-quoted strings keep the text their token
/// carries; every other token is rendered by its `Display`.
#[verifier::external_body]
fn tokenize(sql: &str) -> (r: Option<Vec<(TokenKind, String)>>)
    ensures
        match r {
            Some(t) => sql_tokens(sql@) == Some(token_models(t@)),
            None => sql_tokens(sql@) is None,
        },
{
    let dialect = sqlparser::dialect::PostgreSqlDialect {};
    match sqlparser::tokenizer::Tokenizer::new(&dialect, sql).tokenize() {
        Ok(tokens) => Some(tokens.iter().map(|t| match t {
            sqlparser::tokenizer::Token::Placeholder(s) => (TokenKind::Placeholder, s.clone()),
            sqlparser::tokenizer::Token::Number(n, _) => (TokenKind::Number, n.clone()),
            sqlparser::tokenizer::Token::SingleQuotedString(s) => (TokenKind::Quoted, s.clone()),
            other => (TokenKind::Other, other.to_string()),
        }).collect()),
        Err(_) => None,
    }
}

/// The ordinal that placeholder text `$<digits>` denotes, over its bytes.
pub open spec fn ordinal_of(b: Seq<u8>) -> Option<nat> {
    if b.len() >= 2 && b[0] == 36 && all_digits(b.skip(1)) && digits_value(b.skip(1))
        <= usize::MAX {
        Some(digits_value(b.skip(1)))
    } else {
        None
    }
}

/// The node a token becomes: a placeholder by its ordinal, an integer
/// literal for a number that fits 64 bits, a string literal for a quoted
/// string, and a word for anything else. `None` for a placeholder that is
/// not `$<digits>`.
pub open spec fn token_node(t: (TokenKind, Seq<char>)) -> Option<NodeModel> {
    match t.0 {
        TokenKind::Placeholder => match ordinal_of(encode_utf8(t.1)) {
            Some(o) => Some(NodeModel::Placeholder(o)),
            None => None,
        },
        TokenKind::Number => match text_int(encode_utf8(t.1)) {
            Some(n) => Some(NodeModel::Lit(LiteralModel::Int(n))),
            None => Some(NodeModel::Word(t.1)),
        },
        TokenKind::Quoted => Some(NodeModel::Lit(LiteralModel::Str(encode_utf8(t.1)))),
        TokenKind::Other => Some(NodeModel::Word(t.1)),
    }
}

fn parse_ordinal(b: &[u8]) -> (r: Option<usize>)
    ensures
        match r {
            Some(o) => ordinal_of(b@) == Some(o as nat),
            None => ordinal_of(b@) is None,
        },
{
    if b.len() < 2 || b[0] != 36 {
        return None;
    }
    proof {
        assert(b@.subrange(1, b@.len() as int) =~= b@.skip(1));
    }
    match parse_magnitude(b, 1) {
        Some(m) => {
            if m <= usize::MAX as u64 {
                Some(m as usize)
            } else {
                None
            }
        },
        None => None,
    }
}

fn token_to_node(kind: TokenKind, text: &String) -> (r: Option<Node>)
    ensures
        match r {
            Some(n) => token_node((kind, text@)) == Some(n@),
            None => token_node((kind, text@)) is None,
        },
{
    let b = text.as_str().as_bytes();
    match kind {
        TokenKind::Placeholder => match parse_ordinal(b) {
            Some(o) => Some(Node::Placeholder(o)),
            None => None,
        },
        TokenKind::Number => match parse_text_int(b) {
            Some(n) => Some(Node::Lit(Literal::Int(n))),
            None => Some(Node::Word(text.clone())),
        },
        TokenKind::Quoted => Some(Node::Lit(Literal::Str(copy_bytes(b)))),
        TokenKind::Other => Some(Node::Word(text.clone())),
    }
}

/// Turns tokens into the pre-order node sequence; `None` where a placeholder
/// is not of the form `$<digits>`.
pub fn nodes_from_tokens(tokens: &Vec<(TokenKind, String)>) -> (r: Option<Vec<Node>>)
    ensures
        match r {
            Some(v) => v@.len() == tokens@.len() && forall|i: int|
                0 <= i < v@.len() ==> token_node(token_models(tokens@)[i]) == Some(#[trigger] v@[i]@),
            None => exists|i: int|
                0 <= i < tokens@.len() && token_node(#[trigger] token_models(tokens@)[i]) is None,
        },
{
    let ghost tm = token_models(tokens@);
    let mut out: Vec<Node> = Vec::new();
    let mut i: usize = 0;
    while i < tokens.len()
        invariant
            tm == token_models(tokens@),
            tm.len() == tokens@.len(),
            i <= tokens@.len(),
            out@.len() == i,
            forall|j: int| 0 <= j < i ==> token_node(tm[j]) == Some(#[trigger] out@[j]@),
        decreases tokens@.len() - i,
    {
        let t = &tokens[i];
        proof {
            assert(tm[i as int] == (t.0, t.1@));
        }
        match token_to_node(t.0, &t.1) {
            Some(n) => {
                out.push(n);
            },
            None => {
                return None;
            },
        }
        i = i + 1;
    }
    Some(out)
}

/// Parses SQL text into its node sequence: sqlparser tokenizes it, and the
/// tokens become nodes.
pub fn parse(sql: &str) -> (r: Option<Vec<Node>>)
    ensures
        match r {
            Some(v) => sql_tokens(sql@) is Some && v@.len() == sql_tokens(sql@)->Some_0.len()
                && forall|i: int|
                0 <= i < v@.len() ==> token_node(sql_tokens(sql@)->Some_0[i]) == Some(
                    #[trigger] v@[i]@,
                ),
            None => match sql_tokens(sql@) {
                Some(t) => exists|i: int| 0 <= i < t.len() && token_node(#[trigger] t[i]) is None,
                None => true,
            },
        },
{
    match tokenize(sql) {
        Some(tokens) => nodes_from_tokens(&tokens),
        None => None,
    }
}

} // verus!
