use decondenser::EscapingConfig;
use decondenser::UnescapeParams;
use decondenser::unescape;

fn run_default(input: &str) -> String {
    unescape(UnescapeParams { input: input.to_string(), config: None }).output
}

#[test]
fn default_mapping_replaces_the_usual_escapes() {
    assert_eq!(run_default("a\\nb"), "a\nb");
    assert_eq!(run_default("a\\rb"), "a\rb");
    assert_eq!(run_default("a\\tb"), "a\tb");
    assert_eq!(run_default("a\\\\b"), "a\\b");
}

#[test]
fn unmapped_sequences_stay_as_written() {
    assert_eq!(run_default("a\\qb"), "a\\qb");
    assert_eq!(run_default("\\ "), "\\ ");
}

#[test]
fn trailing_escape_character_is_kept() {
    assert_eq!(run_default("abc\\"), "abc\\");
    assert_eq!(run_default("\\"), "\\");
}

#[test]
fn plain_text_passes_through() {
    assert_eq!(run_default(""), "");
    assert_eq!(run_default("nothing to do"), "nothing to do");
}

#[test]
fn custom_configuration_is_honoured() {
    let config = EscapingConfig { escape_char: '%', mapping: vec![('x', 'y'), ('x', 'z')] };
    let out = unescape(UnescapeParams {
        input: "%x %w \\n %".to_string(),
        config: Some(config),
    });
    assert_eq!(out.output, "y %w \\n %");
}

#[test]
fn escaped_escape_consumes_both_characters() {
    assert_eq!(run_default("\\\\n"), "\\n");
}
