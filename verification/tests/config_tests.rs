use decondenser::Decondenser;
use decondenser::LanguageConfig;
use decondenser::Str;
use decondenser::cursor::Cursor;

#[test]
fn str_keeps_its_characters() {
    let owned = Str::owned(String::from("abc"));
    assert_eq!(owned.len(), 3);
    assert_eq!(owned.char_at(0), 'a');
    assert_eq!(owned.char_at(2), 'c');
    let borrowed = Str::borrowed("Ünïcode");
    assert_eq!(borrowed.len(), 7);
    assert_eq!(borrowed.char_at(1), 'n');
}

#[test]
fn generic_language_lists_the_documented_delimiters() {
    let lang = LanguageConfig::generic();
    assert_eq!(lang.groups.len(), 4);
    assert_eq!(lang.groups[0].opening.char_at(0), '(');
    assert_eq!(lang.groups[3].closing.char_at(0), '>');
    assert_eq!(lang.quotes.len(), 2);
    assert_eq!(lang.quotes[0].escapes.len(), 5);
    assert_eq!(lang.quotes[1].escapes[4].escaped.char_at(1), '\'');
    assert_eq!(lang.puncts.len(), 4);
    assert_eq!(lang.puncts[2].char_at(0), ':');
}

#[test]
fn generic_decondenser_uses_two_spaces_and_eighty_columns() {
    let decondenser = Decondenser::generic();
    assert_eq!(decondenser.max_width, 80);
    assert_eq!(decondenser.indent.len(), 2);
    assert_eq!(decondenser.indent.char_at(0), ' ');
    assert_eq!(decondenser.groups.len(), 4);
}

#[test]
fn cursor_tracks_positions_and_prefixes() {
    let mut cursor = Cursor::new("abcd").unwrap();
    assert_eq!(cursor.offset(), 0);
    assert_eq!(cursor.peek(), Some('a'));
    assert_eq!(cursor.next(), Some('a'));
    assert_eq!(cursor.offset(), 1);
    assert_eq!(cursor.strip_prefix(&Str::borrowed("xy")), None);
    assert_eq!(cursor.offset(), 1);
    assert_eq!(cursor.strip_prefix(&Str::borrowed("bc")), Some(1));
    assert_eq!(cursor.offset(), 3);
    assert_eq!(cursor.next(), Some('d'));
    assert_eq!(cursor.next(), None);
    assert_eq!(cursor.peek(), None);
}

#[test]
fn cursor_positions_count_characters_not_bytes() {
    let mut cursor = Cursor::new("é(").unwrap();
    assert_eq!(cursor.next(), Some('é'));
    assert_eq!(cursor.offset(), 1);
    assert_eq!(cursor.peek(), Some('('));
}
