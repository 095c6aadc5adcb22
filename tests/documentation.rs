use doc_collect::documentation::Documentation;
use doc_collect::literal::TrimmedLiteral;
use doc_collect::literalset::LiteralSet;
use doc_collect::span::{LineColumn, Span};
use doc_collect::token::{LiteralToken, Spacing, Token};

fn parse(path: &str, source: &str) -> Documentation {
    let stream: proc_macro2::TokenStream = source.parse().expect("Must be valid rust");
    Documentation::from_stream(path, stream)
}

fn span(line: usize) -> Span {
    Span { start: LineColumn { line, column: 0 }, end: LineColumn { line, column: 10 } }
}

fn doc_attr(text: &str, line: usize) -> Vec<Token> {
    vec![
        Token::Punct('#', Spacing::Alone),
        Token::Group(vec![
            Token::Ident("doc".to_string()),
            Token::Punct('=', Spacing::Alone),
            Token::Literal(LiteralToken { text: format!("\"{}\"", text), span: span(line) }),
        ]),
    ]
}

fn contents(set: &LiteralSet) -> Vec<String> {
    (0..set.len()).map(|i| set.literal(i).as_str().to_string()).collect()
}

#[test]
fn parse_and_construct() {
    let test = "/// **A** _very_ good test.
        struct Vikings;
        ";
    let docs = parse("/tmp/dummy", test);
    let entries = docs.iter();
    assert_eq!(entries.len(), 1);
    assert_eq!(entries[0].0, "/tmp/dummy");
    let v = entries[0].1;
    assert_eq!(v.len(), 1);
    assert_eq!(v[0].to_string(), " **A** _very_ good test.".to_owned());
    assert_eq!(v[0].len(), 1);
    assert_eq!(v[0].literal(0).span().start.line, 1);
}

#[test]
fn single_run_is_one_block() {
    let docs = parse("a.rs", "/// one\n/// two\n/// three\nstruct X;\n");
    let entries = docs.into_iter();
    assert_eq!(entries.len(), 1);
    assert_eq!(entries[0].0, "a.rs");
    assert_eq!(entries[0].1.len(), 1);
    assert_eq!(contents(&entries[0].1[0]), vec![" one", " two", " three"]);
    assert_eq!(entries[0].1[0].to_string(), " one\n two\n three");
}

#[test]
fn blank_line_splits_blocks() {
    let docs = parse("a.rs", "/// one\n\n/// two\nstruct X;\n");
    let entries = docs.into_iter();
    assert_eq!(entries.len(), 1);
    assert_eq!(entries[0].1.len(), 2);
    assert_eq!(contents(&entries[0].1[0]), vec![" one"]);
    assert_eq!(contents(&entries[0].1[1]), vec![" two"]);
}

#[test]
fn code_line_splits_blocks() {
    let docs = parse("a.rs", "/// one\n#[derive(Debug)]\n/// two\nstruct X;\n");
    let entries = docs.into_iter();
    assert_eq!(entries[0].1.len(), 2);
}

#[test]
fn empty_doc_line_keeps_block() {
    let docs = parse("a.rs", "/// A headline.\n///\n/// Body text\nstruct X;\n");
    let entries = docs.into_iter();
    assert_eq!(entries[0].1.len(), 1);
    assert_eq!(contents(&entries[0].1[0]), vec![" A headline.", "", " Body text"]);
}

#[test]
fn nested_groups_are_walked_in_order() {
    let source = "mod m {\n    /// outer\n    fn f() {\n        /// inner\n        let x = 1;\n    }\n}\n/// last\nstruct Y;\n";
    let docs = parse("n.rs", source);
    let entries = docs.into_iter();
    assert_eq!(entries.len(), 1);
    let blocks = &entries[0].1;
    assert_eq!(blocks.len(), 3);
    assert_eq!(contents(&blocks[0]), vec![" outer"]);
    assert_eq!(contents(&blocks[1]), vec![" inner"]);
    assert_eq!(contents(&blocks[2]), vec![" last"]);
    assert!(blocks[0].literal(0).span().start.line < blocks[1].literal(0).span().start.line);
    assert!(blocks[1].literal(0).span().start.line < blocks[2].literal(0).span().start.line);
}

#[test]
fn deeply_nested_tokens() {
    let inner = doc_attr("deep", 3);
    let tokens = vec![Token::Group(vec![Token::Group(vec![Token::Group(inner)])])];
    let docs = Documentation::from_tokens("d.rs", &tokens);
    let entries = docs.into_iter();
    assert_eq!(entries.len(), 1);
    assert_eq!(contents(&entries[0].1[0]), vec!["deep"]);
}

#[test]
fn no_doc_is_empty() {
    let docs = parse("e.rs", "// plain comment\nstruct X { a: u8 }\nfn f() {}\n");
    assert!(docs.is_empty());
    assert!(Documentation::new().is_empty());
}

#[test]
fn joint_spacing_is_not_doc() {
    let tokens = vec![
        Token::Ident("doc".to_string()),
        Token::Punct('=', Spacing::Joint),
        Token::Literal(LiteralToken { text: "\"x\"".to_string(), span: span(1) }),
    ];
    assert!(Documentation::from_tokens("j.rs", &tokens).is_empty());
}

#[test]
fn wrong_ident_or_punct_is_not_doc() {
    let tokens = vec![
        Token::Ident("dok".to_string()),
        Token::Punct('=', Spacing::Alone),
        Token::Literal(LiteralToken { text: "\"x\"".to_string(), span: span(1) }),
        Token::Ident("doc".to_string()),
        Token::Punct(':', Spacing::Alone),
        Token::Literal(LiteralToken { text: "\"y\"".to_string(), span: span(2) }),
        Token::Other,
    ];
    assert!(Documentation::from_tokens("w.rs", &tokens).is_empty());
}

#[test]
fn inspected_tokens_are_consumed() {
    // The second `doc` is read as the first one's `=` and consumed.
    let tokens = vec![
        Token::Ident("doc".to_string()),
        Token::Ident("doc".to_string()),
        Token::Punct('=', Spacing::Alone),
        Token::Literal(LiteralToken { text: "\"x\"".to_string(), span: span(1) }),
        Token::Ident("doc".to_string()),
        Token::Punct('=', Spacing::Alone),
        Token::Literal(LiteralToken { text: "\"y\"".to_string(), span: span(2) }),
    ];
    let entries = Documentation::from_tokens("c.rs", &tokens).into_iter();
    assert_eq!(entries.len(), 1);
    assert_eq!(entries[0].1.len(), 1);
    assert_eq!(contents(&entries[0].1[0]), vec!["y"]);
}

#[test]
fn append_literal_extends_or_starts_block() {
    let mut docs = Documentation::new();
    let lit = |text: &str, line: usize| LiteralToken { text: format!("\"{}\"", text), span: span(line) };
    docs.append_literal("p.rs", lit("a", 4));
    docs.append_literal("p.rs", lit("b", 5));
    docs.append_literal("p.rs", lit("c", 7));
    docs.append_literal("q.rs", lit("d", 8));
    let entries = docs.into_iter();
    assert_eq!(entries.len(), 2);
    assert_eq!(entries[0].0, "p.rs");
    assert_eq!(entries[0].1.len(), 2);
    assert_eq!(contents(&entries[0].1[0]), vec!["a", "b"]);
    assert_eq!(contents(&entries[0].1[1]), vec!["c"]);
    assert_eq!(entries[1].0, "q.rs");
    assert_eq!(contents(&entries[1].1[0]), vec!["d"]);
}

#[test]
fn join_does_not_merge_across_seam() {
    let a = Documentation::from_tokens("s.rs", &doc_attr("first", 1));
    let b = Documentation::from_tokens("s.rs", &doc_attr("second", 2));
    let joined = Documentation::combine(vec![a, b]);
    let entries = joined.into_iter();
    assert_eq!(entries.len(), 1);
    assert_eq!(entries[0].1.len(), 2);
    assert_eq!(contents(&entries[0].1[0]), vec!["first"]);
    assert_eq!(contents(&entries[0].1[1]), vec!["second"]);
}

#[test]
fn join_appends_in_place() {
    let mut a = Documentation::from_tokens("x.rs", &doc_attr("x1", 1));
    let mut c = Documentation::from_tokens("y.rs", &doc_attr("y1", 1));
    c.join(Documentation::from_tokens("x.rs", &doc_attr("x2", 9)));
    a.join(c);
    let entries = a.into_iter();
    assert_eq!(entries.len(), 2);
    assert_eq!(entries[0].0, "x.rs");
    assert_eq!(entries[0].1.len(), 2);
    assert_eq!(contents(&entries[0].1[1]), vec!["x2"]);
    assert_eq!(entries[1].0, "y.rs");
}

#[test]
fn combine_disjoint_is_union_in_order() {
    let a = Documentation::from_tokens("a.rs", &doc_attr("a", 1));
    let b = Documentation::from_tokens("b.rs", &doc_attr("b", 1));
    let c = Documentation::from_tokens("c.rs", &doc_attr("c", 1));
    let entries = Documentation::combine(vec![a, b, c]).into_iter();
    let paths: Vec<&str> = entries.iter().map(|e| e.0.as_str()).collect();
    assert_eq!(paths, vec!["a.rs", "b.rs", "c.rs"]);
    for e in &entries {
        assert_eq!(e.1.len(), 1);
    }
}

#[test]
fn combine_nothing_is_empty() {
    assert!(Documentation::combine(Vec::new()).is_empty());
}

#[test]
fn trimming_strips_quotes() {
    let plain = TrimmedLiteral::new("\" text\"", span(1));
    assert_eq!(plain.as_str(), " text");
    let raw = TrimmedLiteral::new("r#\"raw \"quoted\"\"#", span(1));
    assert_eq!(raw.as_str(), "raw \"quoted\"");
    let bare_raw = TrimmedLiteral::new("r\"x\"", span(1));
    assert_eq!(bare_raw.as_str(), "x");
    let unquoted = TrimmedLiteral::new("abc", span(1));
    assert_eq!(unquoted.as_str(), "abc");
    let empty = TrimmedLiteral::new("\"\"", span(1));
    assert_eq!(empty.as_str(), "");
    assert_eq!(raw.span(), span(1));
}

#[test]
fn add_adjacent_by_line() {
    let mut set = LiteralSet::from_literal(TrimmedLiteral::new("\"a\"", span(3)));
    assert!(set.add_adjacent(TrimmedLiteral::new("\"b\"", span(4))).is_ok());
    let rejected = set.add_adjacent(TrimmedLiteral::new("\"c\"", span(4)));
    assert_eq!(rejected.unwrap_err().as_str(), "c");
    assert!(set.add_adjacent(TrimmedLiteral::new("\"d\"", span(6))).is_err());
    assert_eq!(set.to_string(), "a\nb");
}

#[test]
fn join_grouping_gives_same_blocks() {
    let make = |path: &str, text: &str, line: usize| Documentation::from_tokens(path, &doc_attr(text, line));
    let mut left = make("p.rs", "a", 1);
    left.join(make("p.rs", "b", 2)).join(make("q.rs", "c", 3));
    let mut inner = make("p.rs", "b", 2);
    inner.join(make("q.rs", "c", 3));
    let mut right = make("p.rs", "a", 1);
    right.join(inner);
    let (l, r) = (left.into_iter(), right.into_iter());
    assert_eq!(l.len(), 2);
    assert_eq!(r.len(), 2);
    for (x, y) in l.iter().zip(r.iter()) {
        assert_eq!(x.0, y.0);
        let xs: Vec<Vec<String>> = x.1.iter().map(contents).collect();
        let ys: Vec<Vec<String>> = y.1.iter().map(contents).collect();
        assert_eq!(xs, ys);
    }
    assert_eq!(l[0].1.len(), 2);
}

fn per_path(docs: Documentation) -> Vec<(String, Vec<Vec<String>>)> {
    let mut out: Vec<(String, Vec<Vec<String>>)> = docs
        .into_iter()
        .into_iter()
        .map(|(p, blocks)| (p, blocks.iter().map(contents).collect()))
        .collect();
    out.sort();
    out
}

fn three() -> (Documentation, Documentation, Documentation) {
    let a = Documentation::from_tokens("a.rs", &doc_attr("a1", 1).into_iter().chain(doc_attr("a2", 5)).collect::<Vec<Token>>());
    let b = Documentation::from_tokens("b.rs", &doc_attr("b", 2));
    let c = Documentation::from_tokens("c.rs", &doc_attr("c1", 1).into_iter().chain(doc_attr("c2", 2)).collect::<Vec<Token>>());
    (a, b, c)
}

#[test]
fn combine_disjoint_any_order_same_per_path() {
    let (a, b, c) = three();
    let first = per_path(Documentation::combine(vec![a, b, c]));
    let (a, b, c) = three();
    let second = per_path(Documentation::combine(vec![c, a, b]));
    let (a, b, c) = three();
    let third = per_path(Documentation::combine(vec![b, c, a]));
    assert_eq!(first, second);
    assert_eq!(first, third);
    assert_eq!(first[0].1, vec![vec!["a1".to_string()], vec!["a2".to_string()]]);
    assert_eq!(first[2].1, vec![vec!["c1".to_string(), "c2".to_string()]]);
}

#[test]
fn combine_regrouped_same_per_path() {
    let (a, b, c) = three();
    let flat = per_path(Documentation::combine(vec![a, b, c]));
    let (a, b, c) = three();
    let left = per_path(Documentation::combine(vec![Documentation::combine(vec![a, b]), c]));
    let (a, b, c) = three();
    let right = per_path(Documentation::combine(vec![a, Documentation::combine(vec![b, c])]));
    assert_eq!(flat, left);
    assert_eq!(flat, right);
}
