//! The formatter's configuration: a language plus an indent unit and a
//! column limit.

use vstd::prelude::*;
use crate::config::GroupConfig;
use crate::config::QuoteConfig;
use crate::config::generic_groups;
use crate::config::generic_puncts;
use crate::config::generic_quotes;
use crate::config::generic_spec;
use crate::str::Str;

verus! {

/// Everything one reformatting call needs.
pub struct Decondenser {
    /// A string used to indent a single level of nesting.
    pub indent: Str,
    /// Max number of characters per line.
    pub max_width: usize,
    /// Groups of sequences used to nest content.
    pub groups: Vec<GroupConfig>,
    /// Quote notations that enclose unbreakable string-literal content.
    pub quotes: Vec<QuoteConfig>,
    /// Punctuation sequences used to separate content.
    pub puncts: Vec<Str>,
}

impl Decondenser {
    /// The generic configuration: two-space indent, 80 columns, and the
    /// grammar of [`crate::config::LanguageConfig::generic`].
    pub fn generic() -> (r: Decondenser)
        ensures
            r.indent@ == seq![' ', ' '],
            r.max_width == 80,
            generic_spec(r.groups@, r.quotes@, r.puncts@),
    {
        let indent = Str::borrowed("  ");
        proof {
            reveal_strlit("  ");
            assert(indent@ =~= seq![' ', ' ']);
        }
        Decondenser {
            indent,
            max_width: 80,
            groups: generic_groups(),
            quotes: generic_quotes(),
            puncts: generic_puncts(),
        }
    }
}

} // verus!
