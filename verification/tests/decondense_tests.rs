use decondenser::Decondenser;
use decondenser::decondense;

#[test]
fn fitting_input_renders_flat() {
    let input = "Test {key1:\"value1\",\"key2\": \"value2\"}";
    let out = Decondenser::generic().decondense(input).unwrap();
    assert_eq!(out, input);
}

#[test]
fn narrow_width_breaks_groups() {
    let mut decondenser = Decondenser::generic();
    decondenser.max_width = 10;
    let out = decondenser.decondense("Test {key1:\"value1\",\"key2\": \"value2\"}").unwrap();
    assert_eq!(out, "Test\n{\n  key1:\"value1\",\"key2\":\n  \"value2\"\n}");
}

#[test]
fn nested_groups_indent_stepwise() {
    let mut decondenser = Decondenser::generic();
    decondenser.max_width = 1;
    let out = decondenser.decondense("(a(b))").unwrap();
    assert_eq!(out, "(\n  a(\n    b\n  )\n)");
}

#[test]
fn unmatched_opener_never_fabricates_a_closer() {
    let out = Decondenser::generic().decondense("(").unwrap();
    assert_eq!(out, "(");
    let mut narrow = Decondenser::generic();
    narrow.max_width = 0;
    let broken = narrow.decondense("(a").unwrap();
    assert_eq!(broken, "(\n  a\n");
}

#[test]
fn unterminated_quote_stays_unchanged() {
    let out = Decondenser::generic().decondense("\"abc").unwrap();
    assert_eq!(out, "\"abc");
}

#[test]
fn quoted_text_survives_breaking_verbatim() {
    let mut decondenser = Decondenser::generic();
    decondenser.max_width = 5;
    let out = decondenser.decondense("{pad \"a b\\t c\" pad}").unwrap();
    assert!(out.contains("\"a b\\t c\""));
}

#[test]
fn whitespace_collapses_to_one_space_when_flat() {
    let out = Decondenser::generic().decondense("a   \t b").unwrap();
    assert_eq!(out, "a b");
}

#[test]
fn identical_inputs_yield_identical_output() {
    let input = "{x: [1, 2, {y: \"z\"}]}";
    let first = Decondenser::generic().decondense(input).unwrap();
    let second = Decondenser::generic().decondense(input).unwrap();
    assert_eq!(first, second);
    let third = decondense(input, "    ");
    let fourth = decondense(input, "    ");
    assert_eq!(third, fourth);
}

#[test]
fn free_function_uses_the_given_indent() {
    let out = decondense("(a b)", "");
    assert_eq!(out, "(a b)");
    let mut narrow = Decondenser::generic();
    narrow.max_width = 2;
    assert_eq!(narrow.decondense("(a b)").unwrap(), "(\n  a\n  b\n)");
}

#[test]
fn empty_input_renders_empty() {
    let out = Decondenser::generic().decondense("").unwrap();
    assert_eq!(out, "");
}

#[test]
fn punctuation_renders_verbatim() {
    let out = Decondenser::generic().decondense("a,b;c:d=e").unwrap();
    assert_eq!(out, "a,b;c:d=e");
}
