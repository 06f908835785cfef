//! A small independent pass that replaces escape sequences with the
//! characters they stand for.

use vstd::prelude::*;
use crate::str::chars_of;
use crate::str::string_from_chars;

verus! {

/// How escapes are written: a prefix character and a mapping from the
/// character that follows it to its unescaped counterpart.
pub struct EscapingConfig {
    /// The prefix character that begins an escape sequence.
    pub escape_char: char,
    /// The mapping of characters that follow the prefix character to their
    /// unescaped counterparts.
    pub mapping: Vec<(char, char)>,
}

/// The mapping the default configuration carries: `n`, `r`, `t` and the
/// backslash itself.
pub open spec fn default_mapping() -> Seq<(char, char)> {
    seq![('n', '\n'), ('r', '\r'), ('t', '\t'), ('\\', '\\')]
}

impl Default for EscapingConfig {
    /// The most common configuration: backslash escapes for `\n`, `\r`,
    /// `\t` and `\\`.
    fn default() -> (r: Self)
        ensures
            r.escape_char == '\\',
            r.mapping@ == default_mapping(),
    {
        let mut mapping: Vec<(char, char)> = Vec::new();
        mapping.push(('n', '\n'));
        mapping.push(('r', '\r'));
        mapping.push(('t', '\t'));
        mapping.push(('\\', '\\'));
        proof {
            assert(mapping@ =~= default_mapping());
        }
        EscapingConfig { escape_char: '\\', mapping }
    }
}

/// The input and, optionally, a configuration; without one the default
/// configuration is used.
pub struct UnescapeParams {
    pub input: String,
    pub config: Option<EscapingConfig>,
}

/// The unescaped text.
pub struct UnescapeOutput {
    pub output: String,
}

/// The replacement for the character `c` after the escape prefix: the first
/// mapping entry wins.
pub open spec fn lookup(mapping: Seq<(char, char)>, c: char, i: int) -> Option<char>
    decreases mapping.len() - i,
{
    if i < 0 || i >= mapping.len() {
        None
    } else if mapping[i].0 == c {
        Some(mapping[i].1)
    } else {
        lookup(mapping, c, i + 1)
    }
}

/// What unescaping yields: each `escape_char` consumes the character after
/// it; a mapped character is replaced, an unmapped pair is kept as written,
/// and a trailing escape character stays as it is.
pub open spec fn spec_unescape(input: Seq<char>, esc: char, mapping: Seq<(char, char)>) -> Seq<
    char,
>
    decreases input.len(),
{
    if input.len() == 0 {
        Seq::empty()
    } else if input[0] != esc {
        seq![input[0]] + spec_unescape(input.drop_first(), esc, mapping)
    } else if input.len() == 1 {
        seq![esc]
    } else {
        let next = input[1];
        let rest = input.subrange(2, input.len() as int);
        match lookup(mapping, next, 0) {
            Some(d) => seq![d] + spec_unescape(rest, esc, mapping),
            None => seq![esc, next] + spec_unescape(rest, esc, mapping),
        }
    }
}

/// Looks a character up in the mapping, first entry first.
fn find_mapping(mapping: &Vec<(char, char)>, c: char) -> (r: Option<char>)
    ensures
        r == lookup(mapping@, c, 0),
{
    let mut i: usize = 0;
    while i < mapping.len()
        invariant
            i <= mapping@.len(),
            lookup(mapping@, c, 0) == lookup(mapping@, c, i as int),
        decreases mapping@.len() - i,
    {
        if mapping[i].0 == c {
            return Some(mapping[i].1);
        }
        i += 1;
    }
    None
}

/// Unescapes the input by replacing its escape sequences with their actual
/// characters; whatever the configuration does not cover is left as it is.
pub fn unescape(params: UnescapeParams) -> (r: UnescapeOutput)
    ensures
        ({
            let esc = match params.config {
                Some(c) => c.escape_char,
                None => '\\',
            };
            let mapping = match params.config {
                Some(c) => c.mapping@,
                None => default_mapping(),
            };
            r.output@ == spec_unescape(params.input@, esc, mapping)
        }),
{
    let UnescapeParams { input, config } = params;
    let config = match config {
        Some(c) => c,
        None => EscapingConfig::default(),
    };
    let esc = config.escape_char;
    let chars = chars_of(input.as_str());
    let ghost full = chars@;
    let n = chars.len();
    let mut out: Vec<char> = Vec::new();
    let mut i: usize = 0;
    proof {
        assert(full.subrange(0, n as int) =~= full);
        assert(out@ =~= Seq::<char>::empty());
    }
    while i < n
        invariant
            i <= n,
            n == full.len(),
            full == chars@,
            out@ + spec_unescape(full.subrange(i as int, n as int), esc, config.mapping@)
                == spec_unescape(full, esc, config.mapping@),
        decreases n - i,
    {
        let ghost suf = full.subrange(i as int, n as int);
        let c = chars[i];
        if c != esc {
            out.push(c);
            proof {
                assert(suf.drop_first() =~= full.subrange(i as int + 1, n as int));
                assert(out@ + spec_unescape(full.subrange(i as int + 1, n as int), esc, config.mapping@)
                    =~= spec_unescape(full, esc, config.mapping@));
            }
            i += 1;
        } else if i + 1 == n {
            out.push(esc);
            proof {
                assert(out@ + spec_unescape(full.subrange(n as int, n as int), esc, config.mapping@)
                    =~= spec_unescape(full, esc, config.mapping@));
            }
            i += 1;
        } else {
            let next = chars[i + 1];
            match find_mapping(&config.mapping, next) {
                Some(d) => {
                    out.push(d);
                },
                None => {
                    out.push(esc);
                    out.push(next);
                },
            }
            proof {
                assert(suf.subrange(2, suf.len() as int) =~= full.subrange(i as int + 2, n as int));
                assert(out@ + spec_unescape(full.subrange(i as int + 2, n as int), esc, config.mapping@)
                    =~= spec_unescape(full, esc, config.mapping@));
            }
            i += 2;
        }
    }
    proof {
        assert(full.subrange(n as int, n as int) =~= Seq::<char>::empty());
        assert(out@ =~= spec_unescape(full, esc, config.mapping@));
    }
    UnescapeOutput { output: string_from_chars(&out) }
}

} // verus!
