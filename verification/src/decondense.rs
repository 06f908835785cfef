//! The layout bridge and the top-level formatting call: the span tree is
//! walked depth-first and turned into layout instructions, and the layout
//! engine renders them against the column limit.
//!
//! The bridge owns the policy of what may reflow: whitespace runs become
//! soft spaces, groups become fit-or-break scopes with indented content and
//! conditional breaks around it, and quoted regions are emitted as plain
//! text with no breakable point anywhere inside.

use vstd::prelude::*;
use crate::config::generic_spec;
use crate::cursor::Cursor;
use crate::cursor::INPUT_LIMIT;
use crate::cursor::spec_byte_len;
use crate::decondenser::Decondenser;
use crate::error::Error;
use crate::layout::DocNode;
use crate::layout::DocV;
use crate::layout::RState;
use crate::layout::effective_col;
use crate::layout::lemma_render_docs_appends;
use crate::layout::lemma_render_docs_concat;
use crate::layout::lemma_render_text_run;
use crate::layout::lemma_texts_concat_cat;
use crate::layout::measure_docs;
use crate::layout::render_doc;
use crate::layout::render_docs;
use crate::layout::repeat;
use crate::layout::sat_add;
use crate::layout::lemma_view_docs_push;
use crate::layout::texts_concat;
use crate::layout::render;
use crate::layout::render_spec;
use crate::layout::view_doc;
use crate::layout::view_docs;
use crate::parse::l1;
use crate::parse::l1::QuoteV;
use crate::parse::l1::group_views;
use crate::parse::l1::punct_views;
use crate::parse::l1::group_view;
use crate::parse::l1::quote_view;
use crate::parse::l1::quote_views;
use crate::parse::l2;
use crate::parse::l2::QSpanV;
use crate::parse::l2::SpanV;
use crate::parse::l2::borrow_nodes;
use crate::parse::l2::qspan_text;
use crate::parse::l2::view_qspan;
use crate::parse::l2::view_qspans;
use crate::parse::l2::view_span;
use crate::parse::l2::view_spans;
use crate::parse::l2::lemma_view_spans_index;
use crate::parse::wf::lemma_spec_parse_wf;
use crate::str::Str;

verus! {

// ---------------------------------------------------------------------------
// The bridge, mathematically
// ---------------------------------------------------------------------------
/// A quoted piece becomes plain text: never a breakable point.
pub open spec fn bridge_qcontent(q: QSpanV) -> DocV {
    DocV::Text(qspan_text(q))
}

/// All pieces of one quoted region.
pub open spec fn bridge_qcontents(s: Seq<QSpanV>) -> Seq<DocV> {
    s.map_values(|q: QSpanV| bridge_qcontent(q))
}

/// The closing delimiter's instruction, only if the delimiter was found.
pub open spec fn closing_doc(c: Option<Seq<char>>) -> Seq<DocV> {
    match c {
        Some(t) => seq![DocV::Text(t)],
        None => Seq::empty(),
    }
}

/// The instructions for one node. A group opens a fit-or-break scope:
/// opening text, a conditional break, the content one indent deeper, another
/// conditional break, and the closing text only if it exists. A quoted
/// region is emitted verbatim and contiguously.
pub open spec fn bridge_node(n: SpanV) -> Seq<DocV>
    decreases n,
{
    match n {
        SpanV::Whitespace(_) => seq![DocV::Space],
        SpanV::Raw(t) => seq![DocV::Text(t)],
        SpanV::Punct(t) => seq![DocV::Text(t)],
        SpanV::Group { opening, content, closing } => seq![
            DocV::Group(
                seq![
                    DocV::Text(opening),
                    DocV::Break,
                    DocV::Indent(bridge_nodes(content)),
                    DocV::Break,
                ] + closing_doc(closing),
            ),
        ],
        SpanV::Quoted { opening, content, closing } => seq![DocV::Text(opening)]
            + bridge_qcontents(content) + closing_doc(closing),
    }
}

/// The instructions for a whole sibling list, in document order.
pub open spec fn bridge_nodes(s: Seq<SpanV>) -> Seq<DocV>
    decreases s,
{
    if s.len() == 0 {
        Seq::empty()
    } else {
        bridge_node(s[0]) + bridge_nodes(s.drop_first())
    }
}

/// The bridge, one node at a time from the left.
proof fn lemma_bridge_nodes_suffix(s: Seq<SpanV>, i: int)
    requires
        0 <= i < s.len(),
    ensures
        bridge_nodes(s.subrange(i, s.len() as int)) == bridge_node(s[i]) + bridge_nodes(
            s.subrange(i + 1, s.len() as int),
        ),
{
    let suf = s.subrange(i, s.len() as int);
    assert(suf[0] == s[i]);
    assert(suf.drop_first() =~= s.subrange(i + 1, s.len() as int));
}

// ---------------------------------------------------------------------------
// The bridge, executably
// ---------------------------------------------------------------------------
/// Appends the instructions for `nodes` to `doc`.
pub fn configure_formatter(doc: &mut Vec<DocNode>, nodes: &Vec<l2::AstNode>)
    ensures
        view_docs(final(doc)@) == view_docs(old(doc)@) + bridge_nodes(view_spans(nodes@)),
    decreases nodes@,
{
    let ghost sv = view_spans(nodes@);
    let ghost doc0 = view_docs(doc@);
    proof {
        lemma_view_spans_index(nodes@);
        assert(sv.subrange(0, sv.len() as int) =~= sv);
        assert(doc0 + bridge_nodes(sv.subrange(0, sv.len() as int)) =~= doc0 + bridge_nodes(sv));
    }
    let mut i: usize = 0;
    while i < nodes.len()
        invariant
            i <= nodes@.len(),
            sv == view_spans(nodes@),
            sv.len() == nodes@.len(),
            forall|j: int| 0 <= j < nodes@.len() ==> sv[j] == view_span(#[trigger] nodes@[j]),
            doc0 == view_docs(old(doc)@),
            view_docs(doc@) + bridge_nodes(sv.subrange(i as int, sv.len() as int)) == doc0
                + bridge_nodes(sv),
        decreases nodes@.len() - i,
    {
        let ghost dpre = view_docs(doc@);
        match &nodes[i] {
            l2::AstNode::Whitespace(_) => {
                proof {
                    lemma_view_docs_push(doc@, DocNode::Space);
                }
                doc.push(DocNode::Space);
            },
            l2::AstNode::Raw(t) => {
                let piece = DocNode::Text(Str::borrowed(t.as_str()));
                proof {
                    lemma_view_docs_push(doc@, piece);
                }
                doc.push(piece);
            },
            l2::AstNode::Punct(t) => {
                let piece = DocNode::Text(Str::borrowed(t.as_str()));
                proof {
                    lemma_view_docs_push(doc@, piece);
                }
                doc.push(piece);
            },
            l2::AstNode::Group(g) => {
                let mut sub: Vec<DocNode> = Vec::new();
                let opening = DocNode::Text(Str::borrowed(g.opening.as_str()));
                proof {
                    lemma_view_docs_push(sub@, opening);
                }
                sub.push(opening);
                proof {
                    lemma_view_docs_push(sub@, DocNode::Break);
                }
                sub.push(DocNode::Break);
                let mut inner: Vec<DocNode> = Vec::new();
                proof {
                    assert(view_docs(inner@) =~= Seq::<DocV>::empty());
                    assert(decreases_to!(nodes@ => nodes@[i as int]));
                }
                configure_formatter(&mut inner, &g.content);
                let indented = DocNode::Indent(inner);
                proof {
                    lemma_view_docs_push(sub@, indented);
                }
                sub.push(indented);
                proof {
                    lemma_view_docs_push(sub@, DocNode::Break);
                }
                sub.push(DocNode::Break);
                match &g.closing {
                    Some(cl) => {
                        let closing = DocNode::Text(Str::borrowed(cl.as_str()));
                        proof {
                            lemma_view_docs_push(sub@, closing);
                        }
                        sub.push(closing);
                    },
                    None => {},
                }
                let group = DocNode::Group(sub);
                proof {
                    lemma_view_docs_push(doc@, group);
                    assert(view_doc(group) == bridge_node(sv[i as int])[0]) by {
                        assert(view_docs(group->Group_0@) =~= (match view_span(
                            nodes@[i as int],
                        ) {
                            SpanV::Group { opening, content, closing } => seq![
                                DocV::Text(opening),
                                DocV::Break,
                                DocV::Indent(bridge_nodes(content)),
                                DocV::Break,
                            ] + closing_doc(closing),
                            _ => Seq::empty(),
                        }));
                    }
                }
                doc.push(group);
            },
            l2::AstNode::Quoted(q) => {
                let opening = DocNode::Text(Str::borrowed(q.opening.as_str()));
                proof {
                    lemma_view_docs_push(doc@, opening);
                }
                doc.push(opening);
                let ghost qv = view_qspans(q.content@);
                let ghost dq0 = view_docs(doc@);
                let mut j: usize = 0;
                while j < q.content.len()
                    invariant
                        j <= q.content@.len(),
                        qv == view_qspans(q.content@),
                        qv.len() == q.content@.len(),
                        view_docs(doc@) == dq0 + bridge_qcontents(qv).subrange(0, j as int),
                    decreases q.content@.len() - j,
                {
                    let piece = DocNode::Text(Str::borrowed(q.content[j].text().as_str()));
                    proof {
                        lemma_view_docs_push(doc@, piece);
                        assert(view_doc(piece) == bridge_qcontent(qv[j as int]));
                        assert(bridge_qcontents(qv).subrange(0, j as int + 1) =~= bridge_qcontents(
                            qv,
                        ).subrange(0, j as int).push(bridge_qcontent(qv[j as int])));
                    }
                    doc.push(piece);
                    j += 1;
                }
                proof {
                    assert(bridge_qcontents(qv).subrange(0, qv.len() as int) =~= bridge_qcontents(
                        qv,
                    ));
                }
                match &q.closing {
                    Some(cl) => {
                        let closing = DocNode::Text(Str::borrowed(cl.as_str()));
                        proof {
                            lemma_view_docs_push(doc@, closing);
                        }
                        doc.push(closing);
                    },
                    None => {},
                }
                proof {
                    assert(view_docs(doc@) =~= dpre + bridge_node(sv[i as int]));
                }
            },
        }
        proof {
            assert(view_docs(doc@) =~= dpre + bridge_node(sv[i as int]));
            lemma_bridge_nodes_suffix(sv, i as int);
            assert(view_docs(doc@) + bridge_nodes(sv.subrange(i as int + 1, sv.len() as int))
                =~= dpre + bridge_nodes(sv.subrange(i as int, sv.len() as int)));
        }
        i += 1;
    }
    proof {
        assert(bridge_nodes(sv.subrange(sv.len() as int, sv.len() as int)) =~= Seq::<
            DocV,
        >::empty());
        assert(view_docs(doc@) =~= view_docs(doc@) + bridge_nodes(
            sv.subrange(sv.len() as int, sv.len() as int),
        ));
        assert(view_docs(doc@) =~= doc0 + bridge_nodes(sv));
    }
}

// ---------------------------------------------------------------------------
// The whole pipeline
// ---------------------------------------------------------------------------
/// What one formatting call returns, as a function of nothing but its
/// arguments: parse, re-tile, bridge, render.
pub open spec fn spec_decondense(
    input: Seq<char>,
    groups: Seq<(Seq<char>, Seq<char>)>,
    quotes: Seq<QuoteV>,
    puncts: Seq<Seq<char>>,
    indent: Seq<char>,
    max_width: nat,
) -> Seq<char> {
    render_spec(
        bridge_nodes(
            borrow_nodes(
                input,
                l1::spec_parse(input, groups, quotes, puncts),
                input.len() as int,
            ),
        ),
        indent,
        max_width,
    )
}

impl Decondenser {
    /// Formats any text according to bracket nesting and the other simple
    /// rules of the configuration. Fails only when the input is longer than
    /// the cursor's addressable range; malformed nesting never fails.
    pub fn decondense(&self, input: &str) -> (r: Result<String, Error>)
        ensures
            match r {
                Ok(s) => spec_byte_len(input) <= INPUT_LIMIT && s@ == spec_decondense(
                    input@,
                    group_views(self.groups@),
                    quote_views(self.quotes@),
                    punct_views(self.puncts@),
                    self.indent@,
                    self.max_width as nat,
                ),
                Err(e) => spec_byte_len(input) > INPUT_LIMIT && e == (Error::InputTooLarge {
                    limit: INPUT_LIMIT,
                    actual: spec_byte_len(input),
                }),
            },
    {
        let cursor = match Cursor::new(input) {
            Ok(c) => c,
            Err(e) => {
                return Err(e);
            },
        };
        let offsets = l1::scan(cursor, &self.groups, &self.quotes, &self.puncts);
        let hi = input.unicode_len();
        proof {
            lemma_spec_parse_wf(
                input@,
                group_views(self.groups@),
                quote_views(self.quotes@),
                punct_views(self.puncts@),
            );
        }
        let spans = l2::ast_from_l1(input, &offsets, hi);
        let mut doc: Vec<DocNode> = Vec::new();
        proof {
            assert(view_docs(doc@) =~= Seq::<DocV>::empty());
        }
        configure_formatter(&mut doc, &spans);
        proof {
            assert(view_docs(doc@) =~= bridge_nodes(view_spans(spans@)));
        }
        Ok(render(&doc, &self.indent, self.max_width))
    }
}


// ---------------------------------------------------------------------------
// The generic configuration, as mathematical data
// ---------------------------------------------------------------------------
/// The generic group list: `()`, `[]`, `{}`, `<>`.
pub open spec fn generic_groups_v() -> Seq<(Seq<char>, Seq<char>)> {
    seq![
        (seq!['('], seq![')']),
        (seq!['['], seq![']']),
        (seq!['{'], seq!['}']),
        (seq!['<'], seq!['>']),
    ]
}

/// The escapes every generic quote carries.
pub open spec fn generic_escapes_v(quote: char) -> Seq<(Seq<char>, Seq<char>)> {
    seq![
        (seq!['\\', 'n'], seq!['\n']),
        (seq!['\\', 'r'], seq!['\r']),
        (seq!['\\', 't'], seq!['\t']),
        (seq!['\\', '\\'], seq!['\\']),
        (seq!['\\', quote], seq![quote]),
    ]
}

/// The generic quote list: `"…"` and `'…'`.
pub open spec fn generic_quotes_v() -> Seq<QuoteV> {
    seq![
        QuoteV { opening: seq!['"'], closing: seq!['"'], escapes: generic_escapes_v('"') },
        QuoteV {
            opening: seq!['\''],
            closing: seq!['\''],
            escapes: generic_escapes_v('\''),
        },
    ]
}

/// The generic punctuation list: `,`, `;`, `:`, `=`.
pub open spec fn generic_puncts_v() -> Seq<Seq<char>> {
    seq![seq![','], seq![';'], seq![':'], seq!['=']]
}

/// A configuration that satisfies [`generic_spec`] has exactly the generic
/// images.
pub proof fn lemma_generic_views(
    groups: Seq<crate::config::GroupConfig>,
    quotes: Seq<crate::config::QuoteConfig>,
    puncts: Seq<crate::str::Str>,
)
    requires
        generic_spec(groups, quotes, puncts),
    ensures
        group_views(groups) == generic_groups_v(),
        quote_views(quotes) == generic_quotes_v(),
        punct_views(puncts) == generic_puncts_v(),
{
    assert forall|i: int| 0 <= i < 4 implies group_views(groups)[i] == generic_groups_v()[i] by {
        assert(group_views(groups)[i] == group_view(groups[i]));
    }
    assert(group_views(groups) =~= generic_groups_v());
    assert(quote_views(quotes)[0] == quote_view(quotes[0]));
    assert(quote_views(quotes)[1] == quote_view(quotes[1]));
    assert(quote_view(quotes[0]).escapes =~= generic_escapes_v('"'));
    assert(quote_view(quotes[1]).escapes =~= generic_escapes_v('\''));
    assert(quote_view(quotes[0]) =~~= generic_quotes_v()[0]);
    assert(quote_view(quotes[1]) =~~= generic_quotes_v()[1]);
    assert(quote_views(quotes) =~= generic_quotes_v());
    assert(punct_views(puncts) =~= generic_puncts_v());
}

/// Formats `input` with the generic configuration, the given indent unit
/// and the default width of 80 columns. The one input the pipeline refuses,
/// text longer than the cursor's addressable range, is returned unchanged.
pub fn decondense(input: &str, indent: &str) -> (r: String)
    ensures
        spec_byte_len(input) <= INPUT_LIMIT ==> r@ == spec_decondense(
            input@,
            generic_groups_v(),
            generic_quotes_v(),
            generic_puncts_v(),
            indent@,
            80,
        ),
        spec_byte_len(input) > INPUT_LIMIT ==> r@ == input@,
{
    let mut decondenser = Decondenser::generic();
    decondenser.indent = Str::borrowed(indent);
    proof {
        lemma_generic_views(decondenser.groups@, decondenser.quotes@, decondenser.puncts@);
    }
    match decondenser.decondense(input) {
        Ok(out) => out,
        Err(_) => input.to_owned(),
    }
}

// ---------------------------------------------------------------------------
// Laws
// ---------------------------------------------------------------------------
/// Determinism: one input, language, indent unit and width always yield one
/// output, because the whole pipeline is a function of exactly those.
pub proof fn lemma_deterministic(
    input: Seq<char>,
    groups: Seq<(Seq<char>, Seq<char>)>,
    quotes: Seq<QuoteV>,
    puncts: Seq<Seq<char>>,
    indent: Seq<char>,
    max_width: nat,
    r1: Seq<char>,
    r2: Seq<char>,
)
    requires
        r1 == spec_decondense(input, groups, quotes, puncts, indent, max_width),
        r2 == spec_decondense(input, groups, quotes, puncts, indent, max_width),
    ensures
        r1 == r2,
{
}

/// An unterminated group never fabricates a closer: its instructions end
/// with the conditional break, and no closing text exists to emit.
pub proof fn lemma_no_fabricated_closer(opening: Seq<char>, content: Seq<SpanV>)
    ensures
        bridge_node(SpanV::Group { opening, content, closing: None }) == seq![
            DocV::Group(
                seq![
                    DocV::Text(opening),
                    DocV::Break,
                    DocV::Indent(bridge_nodes(content)),
                    DocV::Break,
                ],
            ),
        ],
{
    assert(bridge_node(SpanV::Group { opening, content, closing: None }) =~= seq![
        DocV::Group(
            seq![
                DocV::Text(opening),
                DocV::Break,
                DocV::Indent(bridge_nodes(content)),
                DocV::Break,
            ] + closing_doc(None),
        ),
    ]);
    assert(seq![
        DocV::Text(opening),
        DocV::Break,
        DocV::Indent(bridge_nodes(content)),
        DocV::Break,
    ] + closing_doc(None) =~= seq![
        DocV::Text(opening),
        DocV::Break,
        DocV::Indent(bridge_nodes(content)),
        DocV::Break,
    ]);
}

/// The pieces of a quoted region bridge to texts that concatenate to
/// exactly the pieces' own text.
proof fn lemma_bridge_qcontents_concat(content: Seq<QSpanV>)
    ensures
        texts_concat(bridge_qcontents(content)) == crate::parse::l2::qspans_text(content),
    decreases content.len(),
{
    if content.len() > 0 {
        lemma_bridge_qcontents_concat(content.drop_first());
        assert(bridge_qcontents(content)[0] == bridge_qcontent(content[0]));
        assert(bridge_qcontents(content).drop_first() =~= bridge_qcontents(content.drop_first()));
    }
}

/// Quoted verbatim preservation, at the bridge: a quoted region becomes
/// nothing but literal text — no soft space, no break, no group scope is
/// ever emitted inside it — and those texts concatenate to exactly the
/// region's original spans, delimiters included.
pub proof fn lemma_quoted_verbatim_bridge(n: SpanV)
    requires
        n is Quoted,
    ensures
        forall|k: int| 0 <= k < bridge_node(n).len() ==> bridge_node(n)[k] is Text,
        texts_concat(bridge_node(n)) == crate::parse::l2::span_text(n),
{
    let opening = n->Quoted_opening;
    let content = n->Quoted_content;
    let closing = n->Quoted_closing;
    let b = bridge_node(n);
    assert(b == seq![DocV::Text(opening)] + bridge_qcontents(content) + closing_doc(closing));
    assert forall|k: int| 0 <= k < b.len() implies b[k] is Text by {
        if k > 0 && k - 1 < bridge_qcontents(content).len() {
            assert(b[k] == bridge_qcontents(content)[k - 1]);
            assert(bridge_qcontents(content)[k - 1] == bridge_qcontent(content[k - 1]));
        }
    }
    lemma_bridge_qcontents_concat(content);
    lemma_texts_concat_cat(seq![DocV::Text(opening)] + bridge_qcontents(content), closing_doc(closing));
    lemma_texts_concat_cat(seq![DocV::Text(opening)], bridge_qcontents(content));
    assert(texts_concat(Seq::<DocV>::empty()) == Seq::<char>::empty());
    assert((seq![DocV::Text(opening)]).drop_first() =~= Seq::<DocV>::empty());
    assert(texts_concat(seq![DocV::Text(opening)]) =~= opening);
    match closing {
        Some(t) => {
            assert((seq![DocV::Text(t)]).drop_first() =~= Seq::<DocV>::empty());
            assert(texts_concat(closing_doc(closing)) =~= t);
        },
        None => {
            assert(texts_concat(closing_doc(closing)) =~= Seq::<char>::empty());
        },
    }
    assert(texts_concat(b) =~= crate::parse::l2::span_text(n));
}



/// Each node's instructions appear as one contiguous run inside the
/// instructions of its sibling list: the bridge never interleaves or
/// reorders nodes.
pub proof fn lemma_bridge_nodes_contiguous(s: Seq<SpanV>, i: int) -> (r: (Seq<DocV>, Seq<DocV>))
    requires
        0 <= i < s.len(),
    ensures
        bridge_nodes(s) == r.0 + bridge_node(s[i]) + r.1,
    decreases i,
{
    if i == 0 {
        let r = (Seq::<DocV>::empty(), bridge_nodes(s.drop_first()));
        assert(bridge_nodes(s) == r.0 + bridge_node(s[0]) + r.1) by {
            assert(Seq::<DocV>::empty() + bridge_node(s[0]) + bridge_nodes(s.drop_first())
                =~= bridge_node(s[0]) + bridge_nodes(s.drop_first()));
        }
        r
    } else {
        let (a0, b0) = lemma_bridge_nodes_contiguous(s.drop_first(), i - 1);
        assert(s.drop_first()[i - 1] == s[i]);
        let r = (bridge_node(s[0]) + a0, b0);
        assert(bridge_nodes(s) == r.0 + bridge_node(s[i]) + r.1) by {
            assert(bridge_node(s[0]) + (a0 + bridge_node(s[i]) + b0) =~= (bridge_node(s[0]) + a0)
                + bridge_node(s[i]) + b0);
        }
        r
    }
}


/// A quoted node occurs somewhere below this sibling list, possibly nested
/// inside groups.
pub open spec fn contains_quoted(s: Seq<SpanV>, q: SpanV) -> bool
    decreases s,
{
    exists|i: int| 0 <= i < s.len() && node_contains_quoted(#[trigger] s[i], q)
}

/// A quoted node occurs at or below this node.
pub open spec fn node_contains_quoted(n: SpanV, q: SpanV) -> bool
    decreases n,
{
    n == q || (match n {
        SpanV::Group { content, .. } => contains_quoted(content, q),
        _ => false,
    })
}

/// Quoted verbatim preservation, end to end: wherever a quoted region sits
/// in the span tree, however deeply nested, its exact text — delimiters
/// included — appears contiguously and unmodified in the rendered output.
pub proof fn lemma_quoted_verbatim_render(
    s: Seq<SpanV>,
    q: SpanV,
    unit: Seq<char>,
    maxw: nat,
    level: nat,
    broken: bool,
    st: RState,
) -> (r: (Seq<char>, Seq<char>))
    requires
        q is Quoted,
        contains_quoted(s, q),
    ensures
        render_docs(bridge_nodes(s), unit, maxw, level, broken, st).out == r.0 + crate::parse::l2::span_text(q) + r.1,
    decreases s,
{
    let qtext = crate::parse::l2::span_text(q);
    let i = choose|i: int| 0 <= i < s.len() && node_contains_quoted(#[trigger] s[i], q);
    let (a, b) = lemma_bridge_nodes_contiguous(s, i);
    let bi = bridge_node(s[i]);
    lemma_render_docs_concat(a + bi, b, unit, maxw, level, broken, st);
    lemma_render_docs_concat(a, bi, unit, maxw, level, broken, st);
    let st1 = render_docs(a, unit, maxw, level, broken, st);
    let st2 = render_docs(bi, unit, maxw, level, broken, st1);
    lemma_render_docs_appends(b, unit, maxw, level, broken, st2);
    let rest = choose|rest: Seq<char>|
        render_docs(b, unit, maxw, level, broken, st2).out == st2.out + rest;
    let out_final = render_docs(bridge_nodes(s), unit, maxw, level, broken, st).out;
    assert(out_final == st2.out + rest);
    if s[i] == q {
        lemma_quoted_verbatim_bridge(q);
        lemma_render_text_run(bi, unit, maxw, level, broken, st1);
        if st2.out == st1.out + texts_concat(bi) {
            let pre = st1.out;
            assert(out_final =~= pre + qtext + rest);
            (pre, rest)
        } else {
            let pre = st1.out + repeat(unit, level);
            assert(st2.out == pre + texts_concat(bi));
            assert(out_final =~= pre + qtext + rest);
            (pre, rest)
        }
    } else {
        assert(node_contains_quoted(s[i], q));
        assert(s[i] is Group);
        let content = s[i]->Group_content;
        let opening = s[i]->Group_opening;
        let closing = s[i]->Group_closing;
        assert(contains_quoted(content, q));
        let children = seq![
            DocV::Text(opening),
            DocV::Break,
            DocV::Indent(bridge_nodes(content)),
            DocV::Break,
        ] + closing_doc(closing);
        assert(bi == seq![DocV::Group(children)]);
        assert(bi[0] == DocV::Group(children));
        assert(bi.drop_first() =~= Seq::<DocV>::empty());
        let fits = sat_add(effective_col(st1, unit, level), measure_docs(children)) <= maxw;
        let gb = !fits;
        let stg = render_doc(bi[0], unit, maxw, level, broken, st1);
        assert(st2 == render_docs(bi.drop_first(), unit, maxw, level, broken, stg));
        assert(render_docs(Seq::<DocV>::empty(), unit, maxw, level, broken, stg) == stg);
        assert(stg == render_docs(children, unit, maxw, level, gb, st1));
        assert(st2 == render_docs(children, unit, maxw, level, gb, st1));
        let c1 = seq![DocV::Text(opening), DocV::Break];
        let c2 = seq![DocV::Indent(bridge_nodes(content))];
        let c3 = seq![DocV::Break] + closing_doc(closing);
        assert(children =~= (c1 + c2) + c3);
        lemma_render_docs_concat(c1 + c2, c3, unit, maxw, level, gb, st1);
        lemma_render_docs_concat(c1, c2, unit, maxw, level, gb, st1);
        let sta = render_docs(c1, unit, maxw, level, gb, st1);
        assert(c2[0] == DocV::Indent(bridge_nodes(content)));
        assert(c2.drop_first() =~= Seq::<DocV>::empty());
        let stb = render_docs(bridge_nodes(content), unit, maxw, sat_add(level, 1), gb, sta);
        let sti = render_doc(c2[0], unit, maxw, level, gb, sta);
        assert(sti == stb);
        assert(render_docs(c2, unit, maxw, level, gb, sta) == render_docs(
            c2.drop_first(),
            unit,
            maxw,
            level,
            gb,
            sti,
        ));
        assert(render_docs(Seq::<DocV>::empty(), unit, maxw, level, gb, sti) == sti);
        assert(render_docs(c2, unit, maxw, level, gb, sta) == stb);
        assert(decreases_to!(s => s[i]));
        assert(decreases_to!(s[i] => content));
        let (p0, p1) = lemma_quoted_verbatim_render(
            content,
            q,
            unit,
            maxw,
            sat_add(level, 1),
            gb,
            sta,
        );
        assert(stb.out == p0 + qtext + p1);
        lemma_render_docs_appends(c3, unit, maxw, level, gb, stb);
        let rest3 = choose|r3: Seq<char>|
            render_docs(c3, unit, maxw, level, gb, stb).out == stb.out + r3;
        assert(st2.out == stb.out + rest3);
        let post = p1 + rest3 + rest;
        assert(out_final =~= p0 + qtext + post);
        (p0, post)
    }
}


/// The same, stated of the whole pipeline: a quoted region of the parsed
/// input appears verbatim and contiguously in the formatted output.
pub proof fn lemma_quoted_verbatim_output(
    input: Seq<char>,
    groups: Seq<(Seq<char>, Seq<char>)>,
    quotes: Seq<QuoteV>,
    puncts: Seq<Seq<char>>,
    indent: Seq<char>,
    max_width: nat,
    q: SpanV,
) -> (r: (Seq<char>, Seq<char>))
    requires
        q is Quoted,
        contains_quoted(
            borrow_nodes(
                input,
                l1::spec_parse(input, groups, quotes, puncts),
                input.len() as int,
            ),
            q,
        ),
    ensures
        spec_decondense(input, groups, quotes, puncts, indent, max_width) == r.0
            + crate::parse::l2::span_text(q) + r.1,
{
    let docs = bridge_nodes(
        borrow_nodes(input, l1::spec_parse(input, groups, quotes, puncts), input.len() as int),
    );
    let fits = measure_docs(docs) <= max_width;
    lemma_quoted_verbatim_render(
        borrow_nodes(input, l1::spec_parse(input, groups, quotes, puncts), input.len() as int),
        q,
        indent,
        max_width,
        0,
        !fits,
        RState { out: Seq::empty(), col: 0, fresh: true },
    )
}

} // verus!
