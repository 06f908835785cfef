use decondenser::LanguageConfig;
use decondenser::GroupConfig;
use decondenser::QuoteConfig;
use decondenser::EscapeConfig;
use decondenser::Str;
use decondenser::parse::l2;

fn quoted_piece_text(piece: &l2::QuotedContent) -> &str {
    match piece {
        l2::QuotedContent::Raw(t) => t.as_str(),
        l2::QuotedContent::Escape(t) => t.as_str(),
    }
}

fn concat_spans(nodes: &[l2::AstNode], out: &mut String) {
    for node in nodes {
        match node {
            l2::AstNode::Whitespace(t) => out.push_str(t),
            l2::AstNode::Raw(t) => out.push_str(t),
            l2::AstNode::Punct(t) => out.push_str(t),
            l2::AstNode::Group(g) => {
                out.push_str(&g.opening);
                concat_spans(&g.content, out);
                if let Some(c) = &g.closing {
                    out.push_str(c);
                }
            }
            l2::AstNode::Quoted(q) => {
                out.push_str(&q.opening);
                for piece in &q.content {
                    out.push_str(quoted_piece_text(piece));
                }
                if let Some(c) = &q.closing {
                    out.push_str(c);
                }
            }
        }
    }
}

fn retiles(input: &str) {
    let lang = LanguageConfig::generic();
    let spans = l2::parse(input, &lang).unwrap();
    let mut rebuilt = String::new();
    concat_spans(&spans, &mut rebuilt);
    assert_eq!(rebuilt, input);
}

#[test]
fn lossless_retiling_round_trips() {
    retiles("");
    retiles("Test {key1:\"value1\",\"key2\": \"value2\"}");
    retiles("a(b[c]{d}<e>)f");
    retiles("(");
    retiles("\"abc");
    retiles("x \t  y\nz");
    retiles(")]}");
    retiles("'quoted (not a group)'");
    retiles("mixed \"one\" and 'two' ; done =");
    retiles("(((((");
    retiles("deep((inner[more{text}]))tail");
}

#[test]
fn unterminated_group_has_no_closing() {
    let lang = LanguageConfig::generic();
    let spans = l2::parse("(", &lang).unwrap();
    assert_eq!(spans.len(), 1);
    match &spans[0] {
        l2::AstNode::Group(g) => {
            assert_eq!(g.opening, "(");
            assert!(g.content.is_empty());
            assert!(g.closing.is_none());
        }
        _ => panic!("expected a group"),
    }
}

#[test]
fn unterminated_quote_has_single_raw_run() {
    let lang = LanguageConfig::generic();
    let spans = l2::parse("\"abc", &lang).unwrap();
    assert_eq!(spans.len(), 1);
    match &spans[0] {
        l2::AstNode::Quoted(q) => {
            assert_eq!(q.opening, "\"");
            assert_eq!(q.content.len(), 1);
            match &q.content[0] {
                l2::QuotedContent::Raw(t) => assert_eq!(t, "abc"),
                _ => panic!("expected a raw run"),
            }
            assert!(q.closing.is_none());
        }
        _ => panic!("expected a quoted region"),
    }
}

#[test]
fn escapes_are_consumed_atomically() {
    let lang = LanguageConfig::generic();
    let spans = l2::parse("\"a\\nb\"", &lang).unwrap();
    assert_eq!(spans.len(), 1);
    match &spans[0] {
        l2::AstNode::Quoted(q) => {
            assert_eq!(q.content.len(), 3);
            let texts: Vec<&str> = q.content.iter().map(quoted_piece_text).collect();
            assert_eq!(texts, ["a", "\\n", "b"]);
            assert!(matches!(q.content[0], l2::QuotedContent::Raw(_)));
            assert!(matches!(q.content[1], l2::QuotedContent::Escape(_)));
            assert!(matches!(q.content[2], l2::QuotedContent::Raw(_)));
            assert_eq!(q.closing.as_deref(), Some("\""));
        }
        _ => panic!("expected a quoted region"),
    }
}

#[test]
fn declaration_order_beats_length() {
    let lang = LanguageConfig {
        groups: vec![
            GroupConfig { opening: Str::borrowed("<"), closing: Str::borrowed(">") },
            GroupConfig { opening: Str::borrowed("<<"), closing: Str::borrowed(">>") },
        ],
        quotes: Vec::new(),
        puncts: Vec::new(),
    };
    let spans = l2::parse("<<x>>", &lang).unwrap();
    assert_eq!(spans.len(), 1);
    match &spans[0] {
        l2::AstNode::Group(outer) => {
            assert_eq!(outer.opening, "<");
            match &outer.content[0] {
                l2::AstNode::Group(inner) => {
                    assert_eq!(inner.opening, "<");
                    assert_eq!(inner.closing.as_deref(), Some(">"));
                }
                _ => panic!("expected a nested group"),
            }
            assert_eq!(outer.closing.as_deref(), Some(">"));
        }
        _ => panic!("expected a group"),
    }
}

#[test]
fn empty_literals_never_match() {
    let lang = LanguageConfig {
        groups: vec![
            GroupConfig { opening: Str::borrowed(""), closing: Str::borrowed(")") },
        ],
        quotes: vec![
            QuoteConfig {
                opening: Str::borrowed("|"),
                closing: Str::borrowed("|"),
                escapes: vec![
                    EscapeConfig {
                        escaped: Str::borrowed(""),
                        unescaped: Str::borrowed(""),
                    },
                ],
            },
        ],
        puncts: vec![Str::borrowed("")],
    };
    let spans = l2::parse("ab|cd|", &lang).unwrap();
    assert_eq!(spans.len(), 2);
    match &spans[0] {
        l2::AstNode::Raw(t) => assert_eq!(t, "ab"),
        _ => panic!("expected a raw run"),
    }
    match &spans[1] {
        l2::AstNode::Quoted(q) => {
            assert_eq!(q.content.len(), 1);
            assert_eq!(quoted_piece_text(&q.content[0]), "cd");
        }
        _ => panic!("expected a quoted region"),
    }
}

#[test]
fn whitespace_runs_coalesce() {
    let lang = LanguageConfig::generic();
    let spans = l2::parse("a \t\n b", &lang).unwrap();
    assert_eq!(spans.len(), 3);
    match &spans[1] {
        l2::AstNode::Whitespace(t) => assert_eq!(t, " \t\n "),
        _ => panic!("expected one whitespace run"),
    }
}

#[test]
fn quotes_suspend_group_matching() {
    let lang = LanguageConfig::generic();
    let spans = l2::parse("'( not a group )'", &lang).unwrap();
    assert_eq!(spans.len(), 1);
    assert!(matches!(&spans[0], l2::AstNode::Quoted(_)));
}
