//! The caller-supplied language configuration: ordered lists of group
//! delimiter pairs, quote delimiter pairs (each with its own ordered escape
//! list) and punctuation tokens.
//!
//! Configuration lists are scanned in declaration order and the first match
//! wins; overlapping prefixes are disambiguated by list order alone.

use vstd::prelude::*;
use crate::str::Str;

verus! {

/// One escape sequence recognized inside a quote. `escaped` is the literal
/// substring consumed as a unit; `unescaped` names its meaning but is never
/// substituted: escape spans are preserved verbatim.
pub struct EscapeConfig {
    pub escaped: Str,
    pub unescaped: Str,
}

/// One group delimiter pair defining a level of nesting.
pub struct GroupConfig {
    /// The sequence that opens the group.
    pub opening: Str,
    /// The sequence that closes the group.
    pub closing: Str,
}

/// One quote delimiter pair whose interior is scanned for escapes only.
pub struct QuoteConfig {
    /// The sequence that opens the quoted content.
    pub opening: Str,
    /// The sequence that closes the quoted content.
    pub closing: Str,
    /// The escape sequences recognized inside the quoted content.
    pub escapes: Vec<EscapeConfig>,
}

/// The whole grammar the tokenizer works with.
pub struct LanguageConfig {
    pub groups: Vec<GroupConfig>,
    pub quotes: Vec<QuoteConfig>,
    pub puncts: Vec<Str>,
}

/// The group list of the generic configuration: `()`, `[]`, `{}`, `<>`.
pub open spec fn generic_groups_spec(groups: Seq<GroupConfig>) -> bool {
    &&& groups.len() == 4
    &&& groups[0].opening@ == seq!['('] && groups[0].closing@ == seq![')']
    &&& groups[1].opening@ == seq!['['] && groups[1].closing@ == seq![']']
    &&& groups[2].opening@ == seq!['{'] && groups[2].closing@ == seq!['}']
    &&& groups[3].opening@ == seq!['<'] && groups[3].closing@ == seq!['>']
}

/// The escape list every generic quote carries: `\n`, `\r`, `\t`, `\\` and
/// the quote character itself, in that order.
pub open spec fn generic_escapes_spec(escapes: Seq<EscapeConfig>, quote: char, unescaped: char) -> bool {
    &&& escapes.len() == 5
    &&& escapes[0].escaped@ == seq!['\\', 'n'] && escapes[0].unescaped@ == seq!['\n']
    &&& escapes[1].escaped@ == seq!['\\', 'r'] && escapes[1].unescaped@ == seq!['\r']
    &&& escapes[2].escaped@ == seq!['\\', 't'] && escapes[2].unescaped@ == seq!['\t']
    &&& escapes[3].escaped@ == seq!['\\', '\\'] && escapes[3].unescaped@ == seq!['\\']
    &&& escapes[4].escaped@ == seq!['\\', quote] && escapes[4].unescaped@ == seq![unescaped]
}

/// The quote list of the generic configuration: `"…"` and `'…'`.
pub open spec fn generic_quotes_spec(quotes: Seq<QuoteConfig>) -> bool {
    &&& quotes.len() == 2
    &&& quotes[0].opening@ == seq!['"'] && quotes[0].closing@ == seq!['"']
    &&& generic_escapes_spec(quotes[0].escapes@, '"', '"')
    &&& quotes[1].opening@ == seq!['\''] && quotes[1].closing@ == seq!['\'']
    &&& generic_escapes_spec(quotes[1].escapes@, '\'', '\'')
}

/// The punctuation list of the generic configuration: `,`, `;`, `:`, `=`.
pub open spec fn generic_puncts_spec(puncts: Seq<Str>) -> bool {
    &&& puncts.len() == 4
    &&& puncts[0]@ == seq![',']
    &&& puncts[1]@ == seq![';']
    &&& puncts[2]@ == seq![':']
    &&& puncts[3]@ == seq!['=']
}

/// A grammar that fits most structured text.
pub open spec fn generic_spec(groups: Seq<GroupConfig>, quotes: Seq<QuoteConfig>, puncts: Seq<Str>) -> bool {
    generic_groups_spec(groups) && generic_quotes_spec(quotes) && generic_puncts_spec(puncts)
}

fn group(opening: &str, closing: &str) -> (r: GroupConfig)
    ensures
        r.opening@ == opening@,
        r.closing@ == closing@,
{
    GroupConfig { opening: Str::borrowed(opening), closing: Str::borrowed(closing) }
}

fn escape(escaped: &str, unescaped: &str) -> (r: EscapeConfig)
    ensures
        r.escaped@ == escaped@,
        r.unescaped@ == unescaped@,
{
    EscapeConfig { escaped: Str::borrowed(escaped), unescaped: Str::borrowed(unescaped) }
}

pub(crate) fn generic_groups() -> (r: Vec<GroupConfig>)
    ensures
        generic_groups_spec(r@),
{
    proof {
        reveal_strlit("(");
        reveal_strlit(")");
        reveal_strlit("[");
        reveal_strlit("]");
        reveal_strlit("{");
        reveal_strlit("}");
        reveal_strlit("<");
        reveal_strlit(">");
    }
    let mut groups: Vec<GroupConfig> = Vec::new();
    groups.push(group("(", ")"));
    groups.push(group("[", "]"));
    groups.push(group("{", "}"));
    groups.push(group("<", ">"));
    proof {
        assert(groups@[0].opening@ =~= seq!['(']);
        assert(groups@[0].closing@ =~= seq![')']);
        assert(groups@[1].opening@ =~= seq!['[']);
        assert(groups@[1].closing@ =~= seq![']']);
        assert(groups@[2].opening@ =~= seq!['{']);
        assert(groups@[2].closing@ =~= seq!['}']);
        assert(groups@[3].opening@ =~= seq!['<']);
        assert(groups@[3].closing@ =~= seq!['>']);
    }
    groups
}

fn generic_escapes(quote: &str) -> (r: Vec<EscapeConfig>)
    requires
        quote@.len() == 1,
    ensures
        generic_escapes_spec(r@, quote@[0], quote@[0]),
{
    proof {
        reveal_strlit("\\n");
        reveal_strlit("\n");
        reveal_strlit("\\r");
        reveal_strlit("\r");
        reveal_strlit("\\t");
        reveal_strlit("\t");
        reveal_strlit("\\\\");
        reveal_strlit("\\");
    }
    let mut escapes: Vec<EscapeConfig> = Vec::new();
    escapes.push(escape("\\n", "\n"));
    escapes.push(escape("\\r", "\r"));
    escapes.push(escape("\\t", "\t"));
    escapes.push(escape("\\\\", "\\"));
    let backslash = Str::borrowed("\\");
    let quoted = Str::borrowed(quote);
    let mut escaped_quote_chars: Vec<char> = Vec::new();
    escaped_quote_chars.push(backslash.char_at(0));
    escaped_quote_chars.push(quoted.char_at(0));
    let escaped_quote = Str::from_chars(escaped_quote_chars);
    escapes.push(EscapeConfig { escaped: escaped_quote, unescaped: Str::borrowed(quote) });
    proof {
        assert(escapes@[0].escaped@ =~= seq!['\\', 'n']);
        assert(escapes@[0].unescaped@ =~= seq!['\n']);
        assert(escapes@[1].escaped@ =~= seq!['\\', 'r']);
        assert(escapes@[1].unescaped@ =~= seq!['\r']);
        assert(escapes@[2].escaped@ =~= seq!['\\', 't']);
        assert(escapes@[2].unescaped@ =~= seq!['\t']);
        assert(escapes@[3].escaped@ =~= seq!['\\', '\\']);
        assert(escapes@[3].unescaped@ =~= seq!['\\']);
        assert(escapes@[4].escaped@ =~= seq!['\\', quote@[0]]);
        assert(escapes@[4].unescaped@ =~= seq![quote@[0]]);
    }
    escapes
}

pub(crate) fn generic_quotes() -> (r: Vec<QuoteConfig>)
    ensures
        generic_quotes_spec(r@),
{
    proof {
        reveal_strlit("\"");
        reveal_strlit("'");
    }
    let mut quotes: Vec<QuoteConfig> = Vec::new();
    quotes.push(
        QuoteConfig {
            opening: Str::borrowed("\""),
            closing: Str::borrowed("\""),
            escapes: generic_escapes("\""),
        },
    );
    quotes.push(
        QuoteConfig {
            opening: Str::borrowed("'"),
            closing: Str::borrowed("'"),
            escapes: generic_escapes("'"),
        },
    );
    proof {
        assert(quotes@[0].opening@ =~= seq!['"']);
        assert(quotes@[0].closing@ =~= seq!['"']);
        assert(quotes@[1].opening@ =~= seq!['\'']);
        assert(quotes@[1].closing@ =~= seq!['\'']);
    }
    quotes
}

pub(crate) fn generic_puncts() -> (r: Vec<Str>)
    ensures
        generic_puncts_spec(r@),
{
    proof {
        reveal_strlit(",");
        reveal_strlit(";");
        reveal_strlit(":");
        reveal_strlit("=");
    }
    let mut puncts: Vec<Str> = Vec::new();
    puncts.push(Str::borrowed(","));
    puncts.push(Str::borrowed(";"));
    puncts.push(Str::borrowed(":"));
    puncts.push(Str::borrowed("="));
    proof {
        assert(puncts@[0]@ =~= seq![',']);
        assert(puncts@[1]@ =~= seq![';']);
        assert(puncts@[2]@ =~= seq![':']);
        assert(puncts@[3]@ =~= seq!['=']);
    }
    puncts
}

impl LanguageConfig {
    /// A configuration that fits most structured text: groups `()`, `[]`,
    /// `{}`, `<>`; quotes `"…"` and `'…'` with the usual backslash escapes;
    /// punctuation `,`, `;`, `:`, `=`.
    pub fn generic() -> (r: LanguageConfig)
        ensures
            generic_spec(r.groups@, r.quotes@, r.puncts@),
    {
        LanguageConfig {
            groups: generic_groups(),
            quotes: generic_quotes(),
            puncts: generic_puncts(),
        }
    }
}

} // verus!
