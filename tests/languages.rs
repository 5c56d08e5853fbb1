use highlight::{highlight, language_of, select_language, slice_of, HighlightError, Node, SourceLanguage};

fn flatten(nodes: &[Node], out: &mut String) {
    for n in nodes {
        match n {
            Node::Text(s) => out.push_str(s),
            Node::Span { children, .. } => flatten(children, out),
            Node::LineBreak => out.push('\n'),
        }
    }
}

fn holds_break(nodes: &[Node]) -> bool {
    nodes.iter().any(|n| match n {
        Node::LineBreak => true,
        Node::Span { children, .. } => holds_break(children),
        Node::Text(_) => false,
    })
}

#[test]
fn unsupported_language_fails() {
    assert_eq!(highlight("x", "cobol"), Err(HighlightError::UnsupportedLanguage));
}

#[test]
fn keys_match_whatever_their_case() {
    assert_eq!(select_language("RUST"), Some(SourceLanguage::Rust));
    assert_eq!(select_language("Ts"), Some(SourceLanguage::TypeScript));
    assert_eq!(select_language("TypeScript"), Some(SourceLanguage::TypeScript));
    assert_eq!(select_language("TSX"), Some(SourceLanguage::Tsx));
    assert_eq!(select_language("rs"), Some(SourceLanguage::Rust));
    assert_eq!(select_language("C"), Some(SourceLanguage::C));
    // No x86 grammar crate is published in the registry, so the key is unsupported.
    assert_eq!(select_language("x86"), None);
    assert_eq!(select_language(""), None);
}

#[test]
fn lower_case_keys_only() {
    assert_eq!(language_of("c"), Some(SourceLanguage::C));
    assert_eq!(language_of("C"), None);
    assert_eq!(language_of("tsx "), None);
}

#[test]
fn slices_whole_characters() {
    assert_eq!(slice_of("aéb", 1, 3), Some("é"));
    assert_eq!(slice_of("aéb", 1, 2), None);
    assert_eq!(slice_of("ab", 1, 1), Some(""));
}

fn check_round_trip(source: &str, key: &str) -> Vec<Node> {
    let forest = highlight(source, key).unwrap();
    let mut flat = String::new();
    flatten(&forest, &mut flat);
    assert_eq!(flat, source);
    for n in &forest {
        if let Node::Span { children, .. } = n {
            assert!(!holds_break(children));
        }
    }
    forest
}

#[test]
fn rust_source_round_trips() {
    let forest = check_round_trip("fn main() {\n    let x = 1;\n}\n", "Rust");
    assert!(forest.iter().any(|n| matches!(n, Node::Span { .. })));
    assert_eq!(forest.iter().filter(|n| matches!(n, Node::LineBreak)).count(), 3);
}

#[test]
fn c_comment_is_reopened_on_each_line() {
    let forest = check_round_trip("/* one\ntwo */\n", "c");
    assert!(matches!(&forest[0], Node::Span { name, .. } if name == "comment"));
    assert_eq!(forest[1], Node::LineBreak);
    assert!(matches!(&forest[2], Node::Span { name, .. } if name == "comment"));
}

#[test]
fn typescript_and_tsx_highlight() {
    check_round_trip("const a: number = 1;\nlet s = \"x\";\n", "ts");
    check_round_trip("const e = <div>hi</div>;\n", "tsx");
}
