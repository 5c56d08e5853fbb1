use highlight::{build_forest, Event, ForestBuilder, Node, StreamError};

fn text(s: &str) -> Node {
    Node::Text(s.to_string())
}

fn span(name: &str, children: Vec<Node>) -> Node {
    Node::Span { name: name.to_string(), children }
}

fn names(list: &[&str]) -> Vec<String> {
    list.iter().map(|s| s.to_string()).collect()
}

fn flatten(nodes: &[Node], out: &mut String) {
    for n in nodes {
        match n {
            Node::Text(s) => out.push_str(s),
            Node::Span { children, .. } => flatten(children, out),
            Node::LineBreak => out.push('\n'),
        }
    }
}

fn holds_break(nodes: &[Node]) -> bool {
    nodes.iter().any(|n| match n {
        Node::LineBreak => true,
        Node::Span { children, .. } => holds_break(children),
        Node::Text(_) => false,
    })
}

#[test]
fn plain_text_stays_one_node() {
    let r = build_forest("ab", &vec![Event::Source { start: 0, end: 2 }], &vec![]);
    assert_eq!(r, Ok(vec![text("ab")]));
}

#[test]
fn newline_splits_text() {
    let r = build_forest("a\nb", &vec![Event::Source { start: 0, end: 3 }], &vec![]);
    assert_eq!(r, Ok(vec![text("a"), Node::LineBreak, text("b")]));
}

#[test]
fn keyword_region_wraps_text() {
    let events = vec![Event::Start(0), Event::Source { start: 0, end: 3 }, Event::End];
    let r = build_forest("abc", &events, &names(&["kw"]));
    assert_eq!(r, Ok(vec![span("kw", vec![text("abc")])]));
}

#[test]
fn region_across_lines_is_reopened() {
    let events = vec![Event::Start(0), Event::Source { start: 0, end: 3 }, Event::End];
    let r = build_forest("a\nb", &events, &names(&["str"]));
    assert_eq!(
        r,
        Ok(vec![span("str", vec![text("a")]), Node::LineBreak, span("str", vec![text("b")])])
    );
}

#[test]
fn nested_regions_reopen_in_order() {
    let events = vec![
        Event::Start(0),
        Event::Start(1),
        Event::Source { start: 0, end: 3 },
        Event::End,
        Event::End,
    ];
    let r = build_forest("x\ny", &events, &names(&["outer", "inner"]));
    assert_eq!(
        r,
        Ok(vec![
            span("outer", vec![span("inner", vec![text("x")])]),
            Node::LineBreak,
            span("outer", vec![span("inner", vec![text("y")])]),
        ])
    );
}

#[test]
fn region_closed_after_cut_is_empty_on_next_line() {
    let events = vec![Event::Start(0), Event::Source { start: 0, end: 2 }, Event::End];
    let r = build_forest("a\n", &events, &names(&["c"]));
    assert_eq!(r, Ok(vec![span("c", vec![text("a")]), Node::LineBreak, span("c", vec![])]));
}

#[test]
fn empty_source_gives_empty_forest() {
    assert_eq!(build_forest("", &vec![], &vec![]), Ok(vec![]));
    let r = build_forest("", &vec![Event::Source { start: 0, end: 0 }], &vec![]);
    assert_eq!(r, Ok(vec![]));
}

#[test]
fn lone_newline_gives_one_break() {
    let r = build_forest("\n", &vec![Event::Source { start: 0, end: 1 }], &vec![]);
    assert_eq!(r, Ok(vec![Node::LineBreak]));
}

#[test]
fn blank_lines_add_no_text() {
    let r = build_forest("a\n\nb", &vec![Event::Source { start: 0, end: 4 }], &vec![]);
    assert_eq!(r, Ok(vec![text("a"), Node::LineBreak, Node::LineBreak, text("b")]));
}

#[test]
fn carriage_return_is_part_of_the_terminator() {
    let r = build_forest("a\r\nb\r", &vec![Event::Source { start: 0, end: 5 }], &vec![]);
    assert_eq!(r, Ok(vec![text("a"), Node::LineBreak, text("b\r")]));
}

#[test]
fn text_split_over_events_keeps_order() {
    let events = vec![
        Event::Source { start: 0, end: 2 },
        Event::Start(0),
        Event::Source { start: 2, end: 5 },
        Event::End,
        Event::Source { start: 5, end: 6 },
    ];
    let source = "ab\ncde";
    let r = build_forest(source, &events, &names(&["k"])).unwrap();
    assert_eq!(
        r,
        vec![
            text("ab"),
            span("k", vec![]),
            Node::LineBreak,
            span("k", vec![text("cd")]),
            text("e"),
        ]
    );
    let mut flat = String::new();
    flatten(&r, &mut flat);
    assert_eq!(flat, source);
    for n in &r {
        if let Node::Span { children, .. } = n {
            assert!(!holds_break(children));
        }
    }
}

#[test]
fn multibyte_text_is_sliced_by_bytes() {
    let source = "é\nü";
    let events = vec![Event::Source { start: 0, end: 2 }, Event::Source { start: 2, end: 5 }];
    let r = build_forest(source, &events, &vec![]);
    assert_eq!(r, Ok(vec![text("é"), Node::LineBreak, text("ü")]));
}

#[test]
fn end_without_open_region_fails() {
    let r = build_forest("a", &vec![Event::End], &vec![]);
    assert_eq!(r, Err(StreamError::UnbalancedEnd));
}

#[test]
fn unknown_category_fails() {
    let r = build_forest("a", &vec![Event::Start(1)], &names(&["kw"]));
    assert_eq!(r, Err(StreamError::UnknownCategory));
}

#[test]
fn range_past_the_end_fails() {
    let r = build_forest("ab", &vec![Event::Source { start: 0, end: 3 }], &vec![]);
    assert_eq!(r, Err(StreamError::BadRange));
}

#[test]
fn range_inside_a_character_fails() {
    let r = build_forest("é", &vec![Event::Source { start: 0, end: 1 }], &vec![]);
    assert_eq!(r, Err(StreamError::BadRange));
}

#[test]
fn reversed_range_fails() {
    let r = build_forest("ab", &vec![Event::Source { start: 2, end: 1 }], &vec![]);
    assert_eq!(r, Err(StreamError::BadRange));
}

#[test]
fn region_left_open_fails() {
    let events = vec![Event::Start(0), Event::Source { start: 0, end: 1 }];
    let r = build_forest("a", &events, &names(&["kw"]));
    assert_eq!(r, Err(StreamError::Unclosed));
}

#[test]
fn builder_starts_and_ends_balanced() {
    let mut b = ForestBuilder::new();
    assert!(b.stack.is_empty());
    b.open("s".to_string());
    b.feed("x\ny");
    assert_eq!(b.stack.len(), 1);
    assert_eq!(b.stack[0].name, "s");
    assert_eq!(b.close(), Ok(()));
    assert!(b.stack.is_empty());
    assert_eq!(b.close(), Err(StreamError::UnbalancedEnd));
    assert_eq!(
        b.finish(),
        Ok(vec![span("s", vec![text("x")]), Node::LineBreak, span("s", vec![text("y")])])
    );
}

#[test]
fn line_cut_reopens_every_region_empty() {
    let mut b = ForestBuilder::new();
    b.open("a".to_string());
    b.feed("p");
    b.open("b".to_string());
    b.feed("q");
    b.line_cut();
    let names: Vec<&str> = b.stack.iter().map(|f| f.name.as_str()).collect();
    assert_eq!(names, vec!["a", "b"]);
    assert!(b.stack.iter().all(|f| f.children.is_empty()));
    assert_eq!(
        b.root,
        vec![span("a", vec![text("p"), span("b", vec![text("q")])]), Node::LineBreak]
    );
}

#[test]
fn each_line_reads_as_one_source_line() {
    let source = "let a\n  = \"x\ny\";\n";
    let events = vec![
        Event::Start(0),
        Event::Source { start: 0, end: 3 },
        Event::End,
        Event::Source { start: 3, end: 10 },
        Event::Start(1),
        Event::Source { start: 10, end: 15 },
        Event::End,
        Event::Source { start: 15, end: 17 },
    ];
    let forest = build_forest(source, &events, &names(&["keyword", "string"])).unwrap();
    let mut lines = vec![String::new()];
    for n in &forest {
        match n {
            Node::LineBreak => lines.push(String::new()),
            other => flatten(std::slice::from_ref(other), lines.last_mut().unwrap()),
        }
    }
    assert_eq!(lines, vec!["let a", "  = \"x", "y\";", ""]);
    assert_eq!(forest[5], Node::LineBreak);
    assert_eq!(forest[6], span("string", vec![text("y\"")]));
}
