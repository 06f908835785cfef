//! The tokenizer: a single left-to-right scan that produces a tree of nodes
//! addressed by offsets into the input, recovering from unterminated
//! constructs instead of failing.
//!
//! The executable scanner keeps an explicit stack of open groups so that
//! arbitrarily deep nesting cannot exhaust the native call stack. Its whole
//! behaviour is pinned by the specification function [`spec_parse`], a
//! small-step mirror of the same scan.

use vstd::prelude::*;
use crate::config::EscapeConfig;
use crate::config::LanguageConfig;
use crate::cursor::Cursor;
use crate::config::GroupConfig;
use crate::config::QuoteConfig;
use crate::str::Str;
use crate::error::Error;
use crate::cursor::INPUT_LIMIT;
use crate::cursor::spec_byte_len;

verus! {

// ---------------------------------------------------------------------------
// The offset tree
// ---------------------------------------------------------------------------
/// A node of the offset tree. Nodes carry only the start offset of their
/// span; a node's end is implicit: the start of the next sibling, or an
/// enclosing boundary, or the end of the input.
pub enum AstNode {
    Whitespace { start: usize },
    Raw { start: usize },
    Punct { start: usize },
    Group(Group),
    Quoted(Quoted),
}

/// A bracketed region. `closing` is `None` when the matching delimiter was
/// never found; no closing text is invented.
pub struct Group {
    /// The start offset of the opening delimiter.
    pub opening: usize,
    /// The first node carries the start offset of the content of the group,
    /// unless the group is empty.
    pub content: Vec<AstNode>,
    /// Offset of the closing delimiter, absent when the group is not closed.
    pub closing: Option<usize>,
}

/// A quoted region. Group and punctuation matching are suspended entirely
/// inside it; only escapes and the closing delimiter are recognized.
pub struct Quoted {
    /// The start offset of the opening quote.
    pub opening: usize,
    /// The runs and escapes between the delimiters.
    pub content: Vec<QuotedContent>,
    /// Offset of the closing quote, absent when the quote is not closed.
    pub closing: Option<usize>,
}

/// One piece of quoted content: a plain run or one atomic escape sequence.
pub enum QuotedContent {
    Raw { start: usize },
    Escape { start: usize },
}

impl AstNode {
    /// The start offset of the node's span.
    pub open spec fn spec_start(&self) -> int {
        match self {
            AstNode::Whitespace { start } => *start as int,
            AstNode::Raw { start } => *start as int,
            AstNode::Punct { start } => *start as int,
            AstNode::Group(g) => g.opening as int,
            AstNode::Quoted(q) => q.opening as int,
        }
    }

    /// The start offset of the node's span.
    pub fn start(&self) -> (s: usize)
        ensures
            s as int == self.spec_start(),
    {
        match self {
            AstNode::Whitespace { start } => *start,
            AstNode::Raw { start } => *start,
            AstNode::Punct { start } => *start,
            AstNode::Group(g) => g.opening,
            AstNode::Quoted(q) => q.opening,
        }
    }
}

impl QuotedContent {
    /// The start offset of the piece.
    pub open spec fn spec_start(&self) -> int {
        match self {
            QuotedContent::Raw { start } => *start as int,
            QuotedContent::Escape { start } => *start as int,
        }
    }

    /// The start offset of the piece.
    pub fn start(&self) -> (s: usize)
        ensures
            s as int == self.spec_start(),
    {
        match self {
            QuotedContent::Raw { start } => *start,
            QuotedContent::Escape { start } => *start,
        }
    }
}

// ---------------------------------------------------------------------------
// The mathematical mirror of the tree
// ---------------------------------------------------------------------------
/// The mathematical image of an [`AstNode`].
pub enum NodeV {
    Whitespace { start: int },
    Raw { start: int },
    Punct { start: int },
    Group { opening: int, content: Seq<NodeV>, closing: Option<int> },
    Quoted { opening: int, content: Seq<QContentV>, closing: Option<int> },
}

/// The mathematical image of a [`QuotedContent`].
pub enum QContentV {
    Raw { start: int },
    Escape { start: int },
}

/// The start offset of a mirrored node.
pub open spec fn nv_start(n: NodeV) -> int {
    match n {
        NodeV::Whitespace { start } => start,
        NodeV::Raw { start } => start,
        NodeV::Punct { start } => start,
        NodeV::Group { opening, .. } => opening,
        NodeV::Quoted { opening, .. } => opening,
    }
}

/// The start offset of a mirrored quoted piece.
pub open spec fn qv_start(c: QContentV) -> int {
    match c {
        QContentV::Raw { start } => start,
        QContentV::Escape { start } => start,
    }
}

/// The image of one quoted piece.
pub open spec fn view_qcontent(c: QuotedContent) -> QContentV {
    match c {
        QuotedContent::Raw { start } => QContentV::Raw { start: start as int },
        QuotedContent::Escape { start } => QContentV::Escape { start: start as int },
    }
}

/// The image of a list of quoted pieces.
pub open spec fn view_qcontents(s: Seq<QuotedContent>) -> Seq<QContentV> {
    s.map_values(|c: QuotedContent| view_qcontent(c))
}

/// The image of one node.
pub open spec fn view_node(n: AstNode) -> NodeV
    decreases n,
{
    match n {
        AstNode::Whitespace { start } => NodeV::Whitespace { start: start as int },
        AstNode::Raw { start } => NodeV::Raw { start: start as int },
        AstNode::Punct { start } => NodeV::Punct { start: start as int },
        AstNode::Group(g) => NodeV::Group {
            opening: g.opening as int,
            content: view_nodes(g.content@),
            closing: match g.closing {
                Some(c) => Some(c as int),
                None => None,
            },
        },
        AstNode::Quoted(q) => NodeV::Quoted {
            opening: q.opening as int,
            content: view_qcontents(q.content@),
            closing: match q.closing {
                Some(c) => Some(c as int),
                None => None,
            },
        },
    }
}

/// The image of a list of nodes.
pub open spec fn view_nodes(s: Seq<AstNode>) -> Seq<NodeV>
    decreases s,
{
    if s.len() == 0 {
        Seq::empty()
    } else {
        seq![view_node(s[0])] + view_nodes(s.drop_first())
    }
}

// ---------------------------------------------------------------------------
// The mathematical image of a configuration
// ---------------------------------------------------------------------------
/// The image of one quote configuration: its delimiters and, for each
/// escape, the pair of its written and unescaped forms.
#[verifier::ext_equal]
pub struct QuoteV {
    pub opening: Seq<char>,
    pub closing: Seq<char>,
    pub escapes: Seq<(Seq<char>, Seq<char>)>,
}

/// The image of one group configuration: its opening and closing literals.
pub open spec fn group_view(g: GroupConfig) -> (Seq<char>, Seq<char>) {
    (g.opening@, g.closing@)
}

/// The images of a group list.
pub open spec fn group_views(groups: Seq<GroupConfig>) -> Seq<(Seq<char>, Seq<char>)> {
    groups.map_values(|g: GroupConfig| group_view(g))
}

/// The image of one escape configuration.
pub open spec fn escape_view(e: EscapeConfig) -> (Seq<char>, Seq<char>) {
    (e.escaped@, e.unescaped@)
}

/// The images of an escape list.
pub open spec fn escape_views(escapes: Seq<EscapeConfig>) -> Seq<(Seq<char>, Seq<char>)> {
    escapes.map_values(|e: EscapeConfig| escape_view(e))
}

/// The image of one quote configuration.
pub open spec fn quote_view(q: QuoteConfig) -> QuoteV {
    QuoteV { opening: q.opening@, closing: q.closing@, escapes: escape_views(q.escapes@) }
}

/// The images of a quote list.
pub open spec fn quote_views(quotes: Seq<QuoteConfig>) -> Seq<QuoteV> {
    quotes.map_values(|q: QuoteConfig| quote_view(q))
}

/// The images of the punctuation list.
pub open spec fn punct_views(puncts: Seq<Str>) -> Seq<Seq<char>> {
    puncts.map_values(|s: Str| s@)
}

// ---------------------------------------------------------------------------
// Character classes and literal matching
// ---------------------------------------------------------------------------
/// The Unicode `White_Space` characters, written out as code points.
pub open spec fn is_ws_char(c: char) -> bool {
    ||| c as u32 == 0x20
    ||| (0x09 <= c as u32 && c as u32 <= 0x0D)
    ||| c as u32 == 0x85
    ||| c as u32 == 0xA0
    ||| c as u32 == 0x1680
    ||| (0x2000 <= c as u32 && c as u32 <= 0x200A)
    ||| c as u32 == 0x2028
    ||| c as u32 == 0x2029
    ||| c as u32 == 0x202F
    ||| c as u32 == 0x205F
    ||| c as u32 == 0x3000
}

/// Decides [`is_ws_char`].
pub fn is_ws(c: char) -> (b: bool)
    ensures
        b == is_ws_char(c),
{
    let u = c as u32;
    u == 0x20 || (0x09 <= u && u <= 0x0D) || u == 0x85 || u == 0xA0 || u == 0x1680 || (0x2000 <= u
        && u <= 0x200A) || u == 0x2028 || u == 0x2029 || u == 0x202F || u == 0x205F || u == 0x3000
}

/// The literal `lit` occurs in `input` at position `p`.
pub open spec fn matches_at(input: Seq<char>, p: int, lit: Seq<char>) -> bool {
    &&& 0 <= p
    &&& p + lit.len() <= input.len()
    &&& input.subrange(p, p + lit.len()) == lit
}

/// A non-empty literal occurs at `p`. Empty configuration literals never
/// match: matching one would consume nothing and the scan could not advance.
pub open spec fn lit_hit(input: Seq<char>, p: int, lit: Seq<char>) -> bool {
    lit.len() > 0 && matches_at(input, p, lit)
}

/// The index of the first literal of `lits`, at or after index `i`, that
/// matches at `p` — declaration order wins, not length.
pub open spec fn first_lit_from(lits: Seq<Seq<char>>, input: Seq<char>, p: int, i: int) -> Option<
    int,
>
    decreases lits.len() - i,
{
    if i < 0 || i >= lits.len() {
        None
    } else if lit_hit(input, p, lits[i]) {
        Some(i)
    } else {
        first_lit_from(lits, input, p, i + 1)
    }
}

/// What a [`first_lit_from`] answer means: the reported literal matches and
/// every earlier one does not.
pub proof fn lemma_first_lit_from(lits: Seq<Seq<char>>, input: Seq<char>, p: int, i: int)
    requires
        0 <= i,
    ensures
        match first_lit_from(lits, input, p, i) {
            Some(j) => i <= j < lits.len() && lit_hit(input, p, lits[j]) && (forall|k: int|
                i <= k < j ==> !lit_hit(input, p, lits[k])),
            None => forall|k: int| i <= k < lits.len() ==> !lit_hit(input, p, lits[k]),
        },
    decreases lits.len() - i,
{
    if i < lits.len() && !lit_hit(input, p, lits[i]) {
        lemma_first_lit_from(lits, input, p, i + 1);
    }
}

/// Config-order precedence: whenever any configured literal matches at a
/// position, the scanner settles on the first matching one in declaration
/// order — never a later, possibly longer, one.
pub proof fn lemma_config_order_precedence(
    lits: Seq<Seq<char>>,
    input: Seq<char>,
    p: int,
    i: int,
)
    requires
        0 <= i < lits.len(),
        lit_hit(input, p, lits[i]),
    ensures
        first_lit_from(lits, input, p, 0) is Some,
        first_lit_from(lits, input, p, 0)->0 <= i,
        lit_hit(input, p, lits[first_lit_from(lits, input, p, 0)->0]),
{
    lemma_first_lit_from(lits, input, p, 0);
}

/// The opening literals of the group list, in declaration order.
pub open spec fn group_openings(groups: Seq<(Seq<char>, Seq<char>)>) -> Seq<Seq<char>> {
    groups.map_values(|g: (Seq<char>, Seq<char>)| g.0)
}

/// The opening literals of the quote list, in declaration order.
pub open spec fn quote_openings(quotes: Seq<QuoteV>) -> Seq<Seq<char>> {
    quotes.map_values(|q: QuoteV| q.opening)
}

/// The escape literals of one quote, in declaration order.
pub open spec fn escape_lits(escapes: Seq<(Seq<char>, Seq<char>)>) -> Seq<Seq<char>> {
    escapes.map_values(|e: (Seq<char>, Seq<char>)| e.0)
}

// ---------------------------------------------------------------------------
// Quoted-content scanning
// ---------------------------------------------------------------------------
/// Scans quoted content from `p`: at each position the configured escapes
/// are tried first (first match wins, consumed as one atomic span), then the
/// closing delimiter, else the current raw run is extended by one character.
/// Returns the content pieces, the closing offset if the quote was closed,
/// and the position after the scan.
pub open spec fn scan_quote(
    input: Seq<char>,
    quote: QuoteV,
    p: int,
    acc: Seq<QContentV>,
) -> (Seq<QContentV>, Option<int>, int)
    decreases input.len() - p,
    when 0 <= p <= input.len()
    via scan_quote_decreases
{
    if p == input.len() {
        (acc, None, p)
    } else if first_lit_from(escape_lits(quote.escapes), input, p, 0) is Some {
        let ei = first_lit_from(escape_lits(quote.escapes), input, p, 0)->0;
        let next = p + quote.escapes[ei].0.len();
        scan_quote(input, quote, next, acc.push(QContentV::Escape { start: p }))
    } else if matches_at(input, p, quote.closing) {
        (acc, Some(p), p + quote.closing.len())
    } else {
        let acc2 = if acc.len() > 0 && acc.last() is Raw {
            acc
        } else {
            acc.push(QContentV::Raw { start: p })
        };
        scan_quote(input, quote, p + 1, acc2)
    }
}

#[via_fn]
proof fn scan_quote_decreases(input: Seq<char>, quote: QuoteV, p: int, acc: Seq<QContentV>) {
    lemma_first_lit_from(escape_lits(quote.escapes), input, p, 0);
}

/// The scan only moves forward and never runs past the end of the input;
/// when it reports no closing offset it consumed everything.
pub proof fn lemma_scan_quote_bounds(
    input: Seq<char>,
    quote: QuoteV,
    p: int,
    acc: Seq<QContentV>,
)
    requires
        0 <= p <= input.len(),
    ensures
        ({
            let (content, closing, after) = scan_quote(input, quote, p, acc);
            &&& p <= after <= input.len()
            &&& closing is None ==> after == input.len()
            &&& closing is Some ==> p <= closing->0 && closing->0 + quote.closing.len() == after
        }),
    decreases input.len() - p,
{
    if p == input.len() {
    } else if first_lit_from(escape_lits(quote.escapes), input, p, 0) is Some {
        let ei = first_lit_from(escape_lits(quote.escapes), input, p, 0)->0;
        lemma_first_lit_from(escape_lits(quote.escapes), input, p, 0);
        lemma_scan_quote_bounds(
            input,
            quote,
            p + quote.escapes[ei].0.len(),
            acc.push(QContentV::Escape { start: p }),
        );
    } else if matches_at(input, p, quote.closing) {
    } else {
        let acc2 = if acc.len() > 0 && acc.last() is Raw {
            acc
        } else {
            acc.push(QContentV::Raw { start: p })
        };
        lemma_scan_quote_bounds(input, quote, p + 1, acc2);
    }
}

// ---------------------------------------------------------------------------
// The scan itself
// ---------------------------------------------------------------------------
/// One still-open group: the sibling list that was in progress when its
/// opening delimiter matched, the offset of that delimiter, and the index of
/// its group configuration.
pub struct FrameV {
    pub saved: Seq<NodeV>,
    pub opening: int,
    pub gi: int,
}

/// Closes every still-open group with no closing offset, innermost first:
/// the input ended before their delimiters were found.
pub open spec fn unwind(stack: Seq<FrameV>, out: Seq<NodeV>) -> Seq<NodeV>
    decreases stack.len(),
{
    if stack.len() == 0 {
        out
    } else {
        let f = stack.last();
        unwind(
            stack.drop_last(),
            f.saved.push(NodeV::Group { opening: f.opening, content: out, closing: None }),
        )
    }
}

/// The whole scan, one character-level step at a time, from position `p`
/// with the given open groups and current sibling list. Each step consumes
/// a maximal construct in this order: whitespace, the terminator of the
/// innermost open group, a group opening, a quote opening, a punctuation
/// literal, one raw character. Within each category the first configured
/// literal wins.
pub open spec fn run(
    input: Seq<char>,
    groups: Seq<(Seq<char>, Seq<char>)>,
    quotes: Seq<QuoteV>,
    puncts: Seq<Seq<char>>,
    p: int,
    stack: Seq<FrameV>,
    out: Seq<NodeV>,
) -> Seq<NodeV>
    decreases input.len() - p, stack.len(),
    when 0 <= p <= input.len()
    via run_decreases
{
    if p == input.len() {
        unwind(stack, out)
    } else if is_ws_char(input[p]) {
        let out2 = if out.len() > 0 && out.last() is Whitespace {
            out
        } else {
            out.push(NodeV::Whitespace { start: p })
        };
        run(input, groups, quotes, puncts, p + 1, stack, out2)
    } else if stack.len() > 0 && matches_at(input, p, groups[stack.last().gi].1) {
        let f = stack.last();
        run(
            input,
            groups,
            quotes,
            puncts,
            p + groups[f.gi].1.len(),
            stack.drop_last(),
            f.saved.push(NodeV::Group { opening: f.opening, content: out, closing: Some(p) }),
        )
    } else if first_lit_from(group_openings(groups), input, p, 0) is Some {
        let gi = first_lit_from(group_openings(groups), input, p, 0)->0;
        run(
            input,
            groups,
            quotes,
            puncts,
            p + groups[gi].0.len(),
            stack.push(FrameV { saved: out, opening: p, gi }),
            Seq::empty(),
        )
    } else if first_lit_from(quote_openings(quotes), input, p, 0) is Some {
        let qi = first_lit_from(quote_openings(quotes), input, p, 0)->0;
        let scanned = scan_quote(
            input,
            quotes[qi],
            p + quotes[qi].opening.len(),
            Seq::empty(),
        );
        run(
            input,
            groups,
            quotes,
            puncts,
            scanned.2,
            stack,
            out.push(
                NodeV::Quoted { opening: p, content: scanned.0, closing: scanned.1 },
            ),
        )
    } else if first_lit_from(puncts, input, p, 0) is Some {
        let pi = first_lit_from(puncts, input, p, 0)->0;
        run(
            input,
            groups,
            quotes,
            puncts,
            p + puncts[pi].len(),
            stack,
            out.push(NodeV::Punct { start: p }),
        )
    } else {
        let out2 = if out.len() > 0 && out.last() is Raw {
            out
        } else {
            out.push(NodeV::Raw { start: p })
        };
        run(input, groups, quotes, puncts, p + 1, stack, out2)
    }
}

#[via_fn]
proof fn run_decreases(
    input: Seq<char>,
    groups: Seq<(Seq<char>, Seq<char>)>,
    quotes: Seq<QuoteV>,
    puncts: Seq<Seq<char>>,
    p: int,
    stack: Seq<FrameV>,
    out: Seq<NodeV>,
) {
    lemma_first_lit_from(group_openings(groups), input, p, 0);
    lemma_first_lit_from(quote_openings(quotes), input, p, 0);
    lemma_first_lit_from(puncts, input, p, 0);
    if 0 <= p < input.len() {
        if first_lit_from(quote_openings(quotes), input, p, 0) is Some {
            let qi = first_lit_from(quote_openings(quotes), input, p, 0)->0;
            lemma_scan_quote_bounds(
                input,
                quotes[qi],
                p + quotes[qi].opening.len(),
                Seq::empty(),
            );
        }
    }
}

// ---------------------------------------------------------------------------
// Relating the executable tree to its mirror
// ---------------------------------------------------------------------------
/// The image of a list is the list of the images.
pub proof fn lemma_view_nodes_index(s: Seq<AstNode>)
    ensures
        view_nodes(s).len() == s.len(),
        forall|i: int| 0 <= i < s.len() ==> view_nodes(s)[i] == view_node(s[i]),
    decreases s.len(),
{
    if s.len() > 0 {
        lemma_view_nodes_index(s.drop_first());
        assert forall|i: int| 0 <= i < s.len() implies view_nodes(s)[i] == view_node(s[i]) by {
            if i > 0 {
                assert(s.drop_first()[i - 1] == s[i]);
            }
        }
    }
}

/// Taking the image commutes with appending one node.
pub proof fn lemma_view_nodes_push(s: Seq<AstNode>, n: AstNode)
    ensures
        view_nodes(s.push(n)) == view_nodes(s).push(view_node(n)),
    decreases s.len(),
{
    if s.len() == 0 {
        reveal_with_fuel(view_nodes, 3);
        assert(s.push(n).drop_first() =~= Seq::<AstNode>::empty());
        assert(view_nodes(s.push(n)) =~= view_nodes(s).push(view_node(n)));
    } else {
        assert(s.push(n).drop_first() =~= s.drop_first().push(n));
        lemma_view_nodes_push(s.drop_first(), n);
        assert(s.push(n)[0] == s[0]);
        assert(view_nodes(s.push(n)) =~= view_nodes(s).push(view_node(n)));
    }
}

impl AstNode {
    /// Whether this is a whitespace run.
    pub fn is_whitespace(&self) -> (b: bool)
        ensures
            b == (view_node(*self) is Whitespace),
    {
        matches!(self, AstNode::Whitespace { .. })
    }

    /// Whether this is a raw run.
    pub fn is_raw(&self) -> (b: bool)
        ensures
            b == (view_node(*self) is Raw),
    {
        matches!(self, AstNode::Raw { .. })
    }
}

impl QuotedContent {
    /// Whether this piece is a raw run.
    pub fn is_raw(&self) -> (b: bool)
        ensures
            b == (view_qcontent(*self) is Raw),
    {
        matches!(self, QuotedContent::Raw { .. })
    }
}

fn last_is_whitespace(out: &Vec<AstNode>) -> (b: bool)
    ensures
        b == (view_nodes(out@).len() > 0 && view_nodes(out@).last() is Whitespace),
{
    proof {
        lemma_view_nodes_index(out@);
    }
    if out.len() == 0 {
        false
    } else {
        out[out.len() - 1].is_whitespace()
    }
}

fn last_is_raw(out: &Vec<AstNode>) -> (b: bool)
    ensures
        b == (view_nodes(out@).len() > 0 && view_nodes(out@).last() is Raw),
{
    proof {
        lemma_view_nodes_index(out@);
    }
    if out.len() == 0 {
        false
    } else {
        out[out.len() - 1].is_raw()
    }
}

fn last_content_is_raw(content: &Vec<QuotedContent>) -> (b: bool)
    ensures
        b == (view_qcontents(content@).len() > 0 && view_qcontents(content@).last() is Raw),
{
    if content.len() == 0 {
        false
    } else {
        content[content.len() - 1].is_raw()
    }
}

// ---------------------------------------------------------------------------
// First-match finders
// ---------------------------------------------------------------------------
fn find_group(cursor: &Cursor, groups: &Vec<GroupConfig>) -> (r: Option<usize>)
    requires
        cursor.wf(),
    ensures
        match r {
            Some(i) => i < groups@.len() && first_lit_from(
                group_openings(group_views(groups@)),
                cursor.text(),
                cursor.position(),
                0,
            ) == Some(i as int),
            None => first_lit_from(
                group_openings(group_views(groups@)),
                cursor.text(),
                cursor.position(),
                0,
            ) is None,
        },
{
    let ghost lits = group_openings(group_views(groups@));
    let mut i: usize = 0;
    while i < groups.len()
        invariant
            cursor.wf(),
            i <= groups@.len(),
            lits == group_openings(group_views(groups@)),
            forall|j: int| 0 <= j < i ==> !lit_hit(cursor.text(), cursor.position(), lits[j]),
        decreases groups@.len() - i,
    {
        proof {
            assert(group_views(groups@)[i as int] == group_view(groups@[i as int]));
            assert(lits[i as int] == groups@[i as int].opening@);
        }
        if groups[i].opening.len() > 0 && cursor.check_prefix(&groups[i].opening) {
            proof {
                lemma_first_lit_from(lits, cursor.text(), cursor.position(), 0);
            }
            return Some(i);
        }
        i += 1;
    }
    proof {
        lemma_first_lit_from(lits, cursor.text(), cursor.position(), 0);
    }
    None
}

fn find_quote(cursor: &Cursor, quotes: &Vec<QuoteConfig>) -> (r: Option<usize>)
    requires
        cursor.wf(),
    ensures
        match r {
            Some(i) => i < quotes@.len() && first_lit_from(
                quote_openings(quote_views(quotes@)),
                cursor.text(),
                cursor.position(),
                0,
            ) == Some(i as int),
            None => first_lit_from(
                quote_openings(quote_views(quotes@)),
                cursor.text(),
                cursor.position(),
                0,
            ) is None,
        },
{
    let ghost lits = quote_openings(quote_views(quotes@));
    let mut i: usize = 0;
    while i < quotes.len()
        invariant
            cursor.wf(),
            i <= quotes@.len(),
            lits == quote_openings(quote_views(quotes@)),
            forall|j: int| 0 <= j < i ==> !lit_hit(cursor.text(), cursor.position(), lits[j]),
        decreases quotes@.len() - i,
    {
        proof {
            assert(quote_views(quotes@)[i as int] == quote_view(quotes@[i as int]));
            assert(lits[i as int] == quotes@[i as int].opening@);
        }
        if quotes[i].opening.len() > 0 && cursor.check_prefix(&quotes[i].opening) {
            proof {
                lemma_first_lit_from(lits, cursor.text(), cursor.position(), 0);
            }
            return Some(i);
        }
        i += 1;
    }
    proof {
        lemma_first_lit_from(lits, cursor.text(), cursor.position(), 0);
    }
    None
}

fn find_punct(cursor: &Cursor, puncts: &Vec<Str>) -> (r: Option<usize>)
    requires
        cursor.wf(),
    ensures
        match r {
            Some(i) => i < puncts@.len() && first_lit_from(
                punct_views(puncts@),
                cursor.text(),
                cursor.position(),
                0,
            ) == Some(i as int),
            None => first_lit_from(punct_views(puncts@), cursor.text(), cursor.position(), 0)
                is None,
        },
{
    let ghost lits = punct_views(puncts@);
    let mut i: usize = 0;
    while i < puncts.len()
        invariant
            cursor.wf(),
            i <= puncts@.len(),
            lits == punct_views(puncts@),
            forall|j: int| 0 <= j < i ==> !lit_hit(cursor.text(), cursor.position(), lits[j]),
        decreases puncts@.len() - i,
    {
        proof {
            assert(lits[i as int] == puncts@[i as int]@);
        }
        if puncts[i].len() > 0 && cursor.check_prefix(&puncts[i]) {
            proof {
                lemma_first_lit_from(lits, cursor.text(), cursor.position(), 0);
            }
            return Some(i);
        }
        i += 1;
    }
    proof {
        lemma_first_lit_from(lits, cursor.text(), cursor.position(), 0);
    }
    None
}

fn find_escape(cursor: &Cursor, escapes: &Vec<EscapeConfig>) -> (r: Option<usize>)
    requires
        cursor.wf(),
    ensures
        match r {
            Some(i) => i < escapes@.len() && first_lit_from(
                escape_lits(escape_views(escapes@)),
                cursor.text(),
                cursor.position(),
                0,
            ) == Some(i as int),
            None => first_lit_from(
                escape_lits(escape_views(escapes@)),
                cursor.text(),
                cursor.position(),
                0,
            ) is None,
        },
{
    let ghost lits = escape_lits(escape_views(escapes@));
    let mut i: usize = 0;
    while i < escapes.len()
        invariant
            cursor.wf(),
            i <= escapes@.len(),
            lits == escape_lits(escape_views(escapes@)),
            forall|j: int| 0 <= j < i ==> !lit_hit(cursor.text(), cursor.position(), lits[j]),
        decreases escapes@.len() - i,
    {
        proof {
            assert(escape_views(escapes@)[i as int] == escape_view(escapes@[i as int]));
            assert(lits[i as int] == escapes@[i as int].escaped@);
        }
        if escapes[i].escaped.len() > 0 && cursor.check_prefix(&escapes[i].escaped) {
            proof {
                lemma_first_lit_from(lits, cursor.text(), cursor.position(), 0);
            }
            return Some(i);
        }
        i += 1;
    }
    proof {
        lemma_first_lit_from(lits, cursor.text(), cursor.position(), 0);
    }
    None
}

// ---------------------------------------------------------------------------
// The executable scan
// ---------------------------------------------------------------------------
/// Scans the content of one quoted region, after its opening delimiter has
/// been consumed, exactly as [`scan_quote`] describes.
pub(crate) fn scan_quoted(cursor: &mut Cursor, quote: &QuoteConfig) -> (r: (
    Vec<QuotedContent>,
    Option<usize>,
))
    requires
        old(cursor).wf(),
    ensures
        final(cursor).wf(),
        final(cursor).text() == old(cursor).text(),
        ({
            let (content, closing, after) = scan_quote(
                old(cursor).text(),
                quote_view(*quote),
                old(cursor).position(),
                Seq::empty(),
            );
            &&& view_qcontents(r.0@) == content
            &&& (match r.1 {
                Some(c) => closing == Some(c as int),
                None => closing is None,
            })
            &&& final(cursor).position() == after
        }),
{
    let ghost input = cursor.text();
    let ghost p0 = cursor.position();
    let mut content: Vec<QuotedContent> = Vec::new();
    proof {
        assert(view_qcontents(content@) =~= Seq::<QContentV>::empty());
    }
    loop
        invariant
            cursor.wf(),
            cursor.text() == input,
            input == old(cursor).text(),
            p0 == old(cursor).position(),
            0 <= p0 <= input.len(),
            scan_quote(input, quote_view(*quote), cursor.position(), view_qcontents(content@))
                == scan_quote(input, quote_view(*quote), p0, Seq::empty()),
        decreases input.len() - cursor.position(), 1int,
    {
        let ghost p = cursor.position();
        let ghost acc = view_qcontents(content@);
        if cursor.peek().is_none() {
            proof {
                assert(scan_quote(input, quote_view(*quote), p, acc) == (acc, None::<int>, p));
            }
            return (content, None);
        }
        match find_escape(cursor, &quote.escapes) {
            Some(ei) => {
                let start = cursor.offset();
                let elen = quote.escapes[ei].escaped.len();
                proof {
                    assert(escape_views(quote.escapes@)[ei as int] == escape_view(quote.escapes@[
                        ei as int
                    ]));
                    assert(escape_lits(quote_view(*quote).escapes)[ei as int] == quote.escapes@[
                        ei as int
                    ].escaped@);
                    lemma_first_lit_from(escape_lits(quote_view(*quote).escapes), input, p, 0);
                }
                cursor.skip(elen);
                content.push(QuotedContent::Escape { start });
                proof {
                    assert(view_qcontents(content@) =~= acc.push(
                        QContentV::Escape { start: p },
                    ));
                }
                continue ;
            }
            None => {}
        }
        match cursor.strip_prefix(&quote.closing) {
            Some(c) => {
                proof {
                    assert(scan_quote(input, quote_view(*quote), p, acc) == (
                        acc,
                        Some(p),
                        p + quote.closing@.len(),
                    ));
                }
                return (content, Some(c));
            }
            None => {}
        }
        let start = cursor.offset();
        let push_new = !last_content_is_raw(&content);
        if push_new {
            content.push(QuotedContent::Raw { start });
        }
        cursor.next();
        proof {
            if push_new {
                assert(view_qcontents(content@) =~= acc.push(QContentV::Raw { start: p }));
            }
        }
    }
}

/// What the tokenizer returns for this input and configuration.
pub open spec fn spec_parse(
    input: Seq<char>,
    groups: Seq<(Seq<char>, Seq<char>)>,
    quotes: Seq<QuoteV>,
    puncts: Seq<Seq<char>>,
) -> Seq<NodeV> {
    run(input, groups, quotes, puncts, 0, Seq::empty(), Seq::empty())
}


/// One open group on the scanner's explicit stack: the sibling list that
/// was in progress when the opening delimiter matched, the offset of that
/// delimiter, and the index of its group configuration.
pub(crate) struct Frame {
    pub saved: Vec<AstNode>,
    pub opening: usize,
    pub gi: usize,
}

/// The image of one frame.
pub(crate) open spec fn view_frame(f: Frame) -> FrameV {
    FrameV { saved: view_nodes(f.saved@), opening: f.opening as int, gi: f.gi as int }
}

/// The image of the whole stack.
pub(crate) open spec fn view_frames(s: Seq<Frame>) -> Seq<FrameV> {
    s.map_values(|f: Frame| view_frame(f))
}

/// The scan itself: one pass over the cursor, keeping open groups on an
/// explicit stack so nesting depth never grows the call stack.
pub(crate) fn scan(
    cursor: Cursor,
    groups: &Vec<GroupConfig>,
    quotes: &Vec<QuoteConfig>,
    puncts: &Vec<Str>,
) -> (r: Vec<AstNode>)
    requires
        cursor.wf(),
        cursor.position() == 0,
    ensures
        view_nodes(r@) == spec_parse(
            cursor.text(),
            group_views(groups@),
            quote_views(quotes@),
            punct_views(puncts@),
        ),
{
    let mut cursor = cursor;
    let ghost input = cursor.text();
    let ghost gv = group_views(groups@);
    let ghost qv = quote_views(quotes@);
    let ghost pv = punct_views(puncts@);
    let mut out: Vec<AstNode> = Vec::new();
    let mut stack: Vec<Frame> = Vec::new();
    proof {
        assert(view_nodes(out@) =~= Seq::<NodeV>::empty());
        assert(view_frames(stack@) =~= Seq::<FrameV>::empty());
    }
    loop
        invariant
            cursor.wf(),
            cursor.text() == input,
            gv == group_views(groups@),
            qv == quote_views(quotes@),
            pv == punct_views(puncts@),
            forall|j: int| 0 <= j < stack@.len() ==> (#[trigger] stack@[j]).gi < gv.len(),
            run(
                input,
                gv,
                qv,
                pv,
                cursor.position(),
                view_frames(stack@),
                view_nodes(out@),
            ) == spec_parse(input, gv, qv, pv),
        ensures
            cursor.position() == input.len(),
            unwind(view_frames(stack@), view_nodes(out@)) == spec_parse(
                input,
                gv,
                qv,
                pv,
            ),
        decreases input.len() - cursor.position(), stack@.len(),
    {
        let ghost p = cursor.position();
        let ghost sv = view_frames(stack@);
        let ghost o0 = out@;
        let ghost ov = view_nodes(out@);
        let c = match cursor.peek() {
            Some(c) => c,
            None => {
                proof {
                    assert(run(input, gv, qv, pv, p, sv, ov) == unwind(sv, ov));
                }
                break ;
            }
        };
        if is_ws(c) {
            let start = cursor.offset();
            let coalesce = last_is_whitespace(&out);
            if !coalesce {
                out.push(AstNode::Whitespace { start });
            }
            cursor.next();
            proof {
                if !coalesce {
                    lemma_view_nodes_push(o0, AstNode::Whitespace { start });
                }
                assert(run(input, gv, qv, pv, p, sv, ov) == run(
                    input,
                    gv,
                    qv,
                    pv,
                    p + 1,
                    sv,
                    view_nodes(out@),
                ));
            }
            continue ;
        }
        let mut closed = false;
        if stack.len() > 0 {
            let gi = stack[stack.len() - 1].gi;
            proof {
                assert(sv[sv.len() - 1] == view_frame(stack@[stack@.len() - 1]));
                assert(gv[gi as int] == group_view(groups@[gi as int]));
            }
            match cursor.strip_prefix(&groups[gi].closing) {
                Some(start) => {
                    let f = stack.pop().unwrap();
                    let ghost fsv = f.saved@;
                    let content = out;
                    out = f.saved;
                    let node = AstNode::Group(
                        Group { opening: f.opening, content, closing: Some(start) },
                    );
                    let ghost nodeg: AstNode = node;
                    out.push(node);
                    closed = true;
                    proof {
                        assert(view_frames(stack@) =~= sv.drop_last());
                        lemma_view_nodes_push(fsv, nodeg);
                        assert(view_node(nodeg) == NodeV::Group {
                            opening: sv.last().opening,
                            content: ov,
                            closing: Some(p),
                        });
                        assert(run(input, gv, qv, pv, p, sv, ov) == run(
                            input,
                            gv,
                            qv,
                            pv,
                            cursor.position(),
                            view_frames(stack@),
                            view_nodes(out@),
                        ));
                    }
                }
                None => {}
            }
        }
        if closed {
            continue ;
        }
        match find_group(&cursor, groups) {
            Some(gi) => {
                let start = cursor.offset();
                let olen = groups[gi].opening.len();
                proof {
                    lemma_first_lit_from(group_openings(gv), input, p, 0);
                    assert(gv[gi as int] == group_view(groups@[gi as int]));
                    assert(group_openings(gv)[gi as int] == groups@[gi as int].opening@);
                }
                cursor.skip(olen);
                let saved = out;
                out = Vec::new();
                stack.push(Frame { saved, opening: start, gi });
                proof {
                    assert(view_frames(stack@) =~= sv.push(
                        FrameV { saved: ov, opening: p, gi: gi as int },
                    ));
                    assert(view_nodes(out@) =~= Seq::<NodeV>::empty());
                    assert(run(input, gv, qv, pv, p, sv, ov) == run(
                        input,
                        gv,
                        qv,
                        pv,
                        cursor.position(),
                        view_frames(stack@),
                        view_nodes(out@),
                    ));
                }
                continue ;
            }
            None => {}
        }
        match find_quote(&cursor, quotes) {
            Some(qi) => {
                let start = cursor.offset();
                let olen = quotes[qi].opening.len();
                proof {
                    lemma_first_lit_from(quote_openings(qv), input, p, 0);
                    assert(quote_openings(qv)[qi as int] == quotes@[qi as int].opening@);
                }
                cursor.skip(olen);
                let (content, closing) = scan_quoted(&mut cursor, &quotes[qi]);
                proof {
                    assert(qv[qi as int] == quote_view(quotes@[qi as int]));
                }
                let node = AstNode::Quoted(Quoted { opening: start, content, closing });
                let ghost nodeg: AstNode = node;
                out.push(node);
                proof {
                    let scanned = scan_quote(
                        input,
                        qv[qi as int],
                        p + qv[qi as int].opening.len(),
                        Seq::empty(),
                    );
                    lemma_scan_quote_bounds(
                        input,
                        qv[qi as int],
                        p + qv[qi as int].opening.len(),
                        Seq::empty(),
                    );
                    lemma_view_nodes_push(o0, nodeg);
                    assert(view_node(nodeg) == NodeV::Quoted {
                        opening: p,
                        content: scanned.0,
                        closing: scanned.1,
                    });
                    assert(run(input, gv, qv, pv, p, sv, ov) == run(
                        input,
                        gv,
                        qv,
                        pv,
                        cursor.position(),
                        view_frames(stack@),
                        view_nodes(out@),
                    ));
                }
                continue ;
            }
            None => {}
        }
        match find_punct(&cursor, puncts) {
            Some(pi) => {
                let start = cursor.offset();
                let plen = puncts[pi].len();
                proof {
                    lemma_first_lit_from(pv, input, p, 0);
                    assert(pv[pi as int] == puncts@[pi as int]@);
                }
                cursor.skip(plen);
                out.push(AstNode::Punct { start });
                proof {
                    lemma_view_nodes_push(o0, AstNode::Punct { start });
                    assert(run(input, gv, qv, pv, p, sv, ov) == run(
                        input,
                        gv,
                        qv,
                        pv,
                        cursor.position(),
                        view_frames(stack@),
                        view_nodes(out@),
                    ));
                }
                continue ;
            }
            None => {}
        }
        let start = cursor.offset();
        let coalesce = last_is_raw(&out);
        if !coalesce {
            out.push(AstNode::Raw { start });
        }
        cursor.next();
        proof {
            if !coalesce {
                lemma_view_nodes_push(o0, AstNode::Raw { start });
            }
            assert(run(input, gv, qv, pv, p, sv, ov) == run(
                input,
                gv,
                qv,
                pv,
                p + 1,
                sv,
                view_nodes(out@),
            ));
        }
    }
    while stack.len() > 0
        invariant
            unwind(view_frames(stack@), view_nodes(out@)) == spec_parse(
                input,
                gv,
                qv,
                pv,
            ),
        decreases stack@.len(),
    {
        let ghost sv = view_frames(stack@);
        let ghost ov = view_nodes(out@);
        proof {
            assert(sv[sv.len() - 1] == view_frame(stack@[stack@.len() - 1]));
        }
        let f = stack.pop().unwrap();
        let ghost fsv = f.saved@;
        let content = out;
        out = f.saved;
        let node = AstNode::Group(Group { opening: f.opening, content, closing: None });
        let ghost nodeg: AstNode = node;
        out.push(node);
        proof {
            assert(view_frames(stack@) =~= sv.drop_last());
            lemma_view_nodes_push(fsv, nodeg);
            assert(view_node(nodeg) == NodeV::Group {
                opening: sv.last().opening,
                content: ov,
                closing: None,
            });
            assert(unwind(sv, ov) == unwind(view_frames(stack@), view_nodes(out@)));
        }
    }
    proof {
        assert(view_frames(stack@) =~= Seq::<FrameV>::empty());
        assert(unwind(Seq::<FrameV>::empty(), view_nodes(out@)) == view_nodes(out@));
    }
    out
}

/// Parses `input` with the given language. Fails only when the input is
/// longer than the cursor's addressable range.
pub fn parse(input: &str, lang: &LanguageConfig) -> (r: Result<Vec<AstNode>, Error>)
    ensures
        match r {
            Ok(nodes) => spec_byte_len(input) <= INPUT_LIMIT && view_nodes(nodes@) == spec_parse(
                input@,
                group_views(lang.groups@),
                quote_views(lang.quotes@),
                punct_views(lang.puncts@),
            ),
            Err(e) => spec_byte_len(input) > INPUT_LIMIT && e == (Error::InputTooLarge {
                limit: INPUT_LIMIT,
                actual: spec_byte_len(input),
            }),
        },
{
    let cursor = match Cursor::new(input) {
        Ok(c) => c,
        Err(e) => {
            return Err(e);
        }
    };
    Ok(scan(cursor, &lang.groups, &lang.quotes, &lang.puncts))
}

} // verus!
