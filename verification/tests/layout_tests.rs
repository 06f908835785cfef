use decondenser::Decondenser;
use decondenser::LanguageConfig;
use decondenser::Str;
use decondenser::configure_formatter;
use decondenser::parse::l2;
use decondenser::layout::DocNode;
use decondenser::layout::measure;
use decondenser::layout::render;

fn text(t: &str) -> DocNode {
    DocNode::Text(Str::borrowed(t))
}

fn two_space() -> Str {
    Str::borrowed("  ")
}

#[test]
fn literal_text_renders_verbatim() {
    let docs = vec![text("hello"), DocNode::Space, text("world")];
    assert_eq!(render(&docs, &two_space(), 80), "hello world");
}

#[test]
fn a_group_that_fits_stays_flat() {
    let docs = vec![
        DocNode::Group(vec![
            text("("),
            DocNode::Break,
            DocNode::Indent(vec![text("abc")]),
            DocNode::Break,
            text(")"),
        ]),
    ];
    assert_eq!(render(&docs, &two_space(), 80), "(abc)");
}

#[test]
fn a_group_that_overflows_breaks_and_indents() {
    let docs = vec![
        DocNode::Group(vec![
            text("("),
            DocNode::Break,
            DocNode::Indent(vec![text("abc")]),
            DocNode::Break,
            text(")"),
        ]),
    ];
    assert_eq!(render(&docs, &two_space(), 2), "(\n  abc\n)");
}

#[test]
fn the_fit_decision_counts_the_remaining_line_budget() {
    let group = DocNode::Group(vec![
        text("("),
        DocNode::Break,
        DocNode::Indent(vec![text("abc")]),
        DocNode::Break,
        text(")"),
    ]);
    let docs = vec![text("xxxx"), group];
    assert_eq!(render(&docs, &two_space(), 9), "xxxx(abc)");
    let group_again = DocNode::Group(vec![
        text("("),
        DocNode::Break,
        DocNode::Indent(vec![text("abc")]),
        DocNode::Break,
        text(")"),
    ]);
    let docs_tight = vec![text("xxxxx"), group_again];
    assert_eq!(render(&docs_tight, &two_space(), 9), "xxxxx(\n  abc\n)");
}

#[test]
fn soft_spaces_break_only_inside_a_broken_group() {
    let docs = vec![
        DocNode::Group(vec![text("a"), DocNode::Space, text("b")]),
    ];
    assert_eq!(render(&docs, &two_space(), 80), "a b");
    let docs_narrow = vec![
        DocNode::Group(vec![text("a"), DocNode::Space, text("b")]),
    ];
    assert_eq!(render(&docs_narrow, &two_space(), 1), "a\nb");
}

#[test]
fn flat_width_sums_texts_and_spaces() {
    let docs = vec![
        text("ab"),
        DocNode::Space,
        DocNode::Break,
        DocNode::Indent(vec![text("cde")]),
    ];
    assert_eq!(measure(&docs), 6);
}

#[test]
fn indentation_is_lazy_so_blank_lines_carry_no_spaces() {
    let docs = vec![
        DocNode::Group(vec![
            text("("),
            DocNode::Break,
            DocNode::Indent(vec![DocNode::Space, text("a")]),
            DocNode::Break,
            text(")"),
        ]),
    ];
    assert_eq!(render(&docs, &two_space(), 0), "(\n\n  a\n)");
}

#[test]
fn bridging_spans_matches_the_whole_pipeline() {
    let input = "wrap {a: \"b c\", d}";
    let lang = LanguageConfig::generic();
    let spans = l2::parse(input, &lang).unwrap();
    let mut docs = Vec::new();
    configure_formatter(&mut docs, &spans);
    let direct = render(&docs, &two_space(), 80);
    let piped = Decondenser::generic().decondense(input).unwrap();
    assert_eq!(direct, piped);
}
