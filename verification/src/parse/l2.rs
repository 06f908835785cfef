//! The borrow transform: a pure post-pass converting the offset-addressed
//! tree into a tree of owned text spans, one span per node, losslessly
//! re-tiling the original input.

use vstd::prelude::*;
use crate::config::LanguageConfig;
use crate::cursor::INPUT_LIMIT;
use crate::cursor::spec_byte_len;
use crate::error::Error;
use crate::parse::l1;
use crate::parse::l1::NodeV;
use crate::parse::l1::QContentV;
use crate::parse::l1::QuoteV;
use crate::parse::l1::nv_start;
use crate::parse::l1::qv_start;
use crate::parse::l1::group_views;
use crate::parse::l1::punct_views;
use crate::parse::l1::quote_views;
use crate::parse::l1::spec_parse;
use crate::parse::l1::view_node;
use crate::parse::l1::view_nodes;
use crate::parse::l1::view_qcontent;
use crate::parse::l1::view_qcontents;
use crate::parse::l1::lemma_view_nodes_index;
use crate::parse::wf::end_at;
use crate::parse::wf::first_start;
use crate::parse::wf::lemma_list_wf_start_lt;
use crate::parse::wf::lemma_spec_parse_wf;
use crate::parse::wf::list_wf;
use crate::parse::wf::node_wf;
use crate::parse::wf::qend_at;
use crate::parse::wf::qfirst_start;
use crate::parse::wf::qlist_wf;

verus! {

// ---------------------------------------------------------------------------
// The span tree
// ---------------------------------------------------------------------------
/// A node of the span tree: structurally the offset tree, but every node
/// carries the text it denotes.
pub enum AstNode {
    Whitespace(String),
    Raw(String),
    Punct(String),
    Group(Group),
    Quoted(Quoted),
}

/// A bracketed region with its delimiter texts.
pub struct Group {
    pub opening: String,
    pub content: Vec<AstNode>,
    pub closing: Option<String>,
}

/// A quoted region with its delimiter texts.
pub struct Quoted {
    pub opening: String,
    pub content: Vec<QuotedContent>,
    pub closing: Option<String>,
}

/// One piece of quoted content.
pub enum QuotedContent {
    Raw(String),
    Escape(String),
}

impl QuotedContent {
    /// The text of the piece, whichever kind it is.
    pub fn text(&self) -> (t: &String)
        ensures
            t@ == qspan_text(view_qspan(*self)),
    {
        match self {
            QuotedContent::Raw(text) => text,
            QuotedContent::Escape(text) => text,
        }
    }
}

// ---------------------------------------------------------------------------
// The mathematical mirror of the span tree
// ---------------------------------------------------------------------------
/// The mathematical image of a span-tree node.
pub enum SpanV {
    Whitespace(Seq<char>),
    Raw(Seq<char>),
    Punct(Seq<char>),
    Group { opening: Seq<char>, content: Seq<SpanV>, closing: Option<Seq<char>> },
    Quoted { opening: Seq<char>, content: Seq<QSpanV>, closing: Option<Seq<char>> },
}

/// The mathematical image of a quoted piece.
pub enum QSpanV {
    Raw(Seq<char>),
    Escape(Seq<char>),
}

/// The image of one quoted piece.
pub open spec fn view_qspan(c: QuotedContent) -> QSpanV {
    match c {
        QuotedContent::Raw(t) => QSpanV::Raw(t@),
        QuotedContent::Escape(t) => QSpanV::Escape(t@),
    }
}

/// The image of a list of quoted pieces.
pub open spec fn view_qspans(s: Seq<QuotedContent>) -> Seq<QSpanV> {
    s.map_values(|c: QuotedContent| view_qspan(c))
}

/// The image of one node.
pub open spec fn view_span(n: AstNode) -> SpanV
    decreases n,
{
    match n {
        AstNode::Whitespace(t) => SpanV::Whitespace(t@),
        AstNode::Raw(t) => SpanV::Raw(t@),
        AstNode::Punct(t) => SpanV::Punct(t@),
        AstNode::Group(g) => SpanV::Group {
            opening: g.opening@,
            content: view_spans(g.content@),
            closing: match g.closing {
                Some(c) => Some(c@),
                None => None,
            },
        },
        AstNode::Quoted(q) => SpanV::Quoted {
            opening: q.opening@,
            content: view_qspans(q.content@),
            closing: match q.closing {
                Some(c) => Some(c@),
                None => None,
            },
        },
    }
}

/// The image of a list of nodes.
pub open spec fn view_spans(s: Seq<AstNode>) -> Seq<SpanV>
    decreases s,
{
    if s.len() == 0 {
        Seq::empty()
    } else {
        seq![view_span(s[0])] + view_spans(s.drop_first())
    }
}

/// The image of a list is the list of the images.
pub proof fn lemma_view_spans_index(s: Seq<AstNode>)
    ensures
        view_spans(s).len() == s.len(),
        forall|i: int| 0 <= i < s.len() ==> view_spans(s)[i] == view_span(s[i]),
    decreases s.len(),
{
    if s.len() > 0 {
        lemma_view_spans_index(s.drop_first());
        assert forall|i: int| 0 <= i < s.len() implies view_spans(s)[i] == view_span(s[i]) by {
            if i > 0 {
                assert(s.drop_first()[i - 1] == s[i]);
            }
        }
    }
}

// ---------------------------------------------------------------------------
// What the transform computes
// ---------------------------------------------------------------------------
/// The text of an optional closing span.
pub open spec fn closing_text(c: Option<Seq<char>>) -> Seq<char> {
    match c {
        Some(t) => t,
        None => Seq::empty(),
    }
}

/// The text of a quoted piece.
pub open spec fn qspan_text(q: QSpanV) -> Seq<char> {
    match q {
        QSpanV::Raw(t) => t,
        QSpanV::Escape(t) => t,
    }
}

/// The concatenated text of a list of quoted pieces.
pub open spec fn qspans_text(s: Seq<QSpanV>) -> Seq<char>
    decreases s.len(),
{
    if s.len() == 0 {
        Seq::empty()
    } else {
        qspan_text(s[0]) + qspans_text(s.drop_first())
    }
}

/// Every span a node carries, concatenated in document order.
pub open spec fn span_text(n: SpanV) -> Seq<char>
    decreases n,
{
    match n {
        SpanV::Whitespace(t) => t,
        SpanV::Raw(t) => t,
        SpanV::Punct(t) => t,
        SpanV::Group { opening, content, closing } => opening + spans_text(content) + closing_text(
            closing,
        ),
        SpanV::Quoted { opening, content, closing } => opening + qspans_text(content)
            + closing_text(closing),
    }
}

/// The concatenated text of a list of nodes.
pub open spec fn spans_text(s: Seq<SpanV>) -> Seq<char>
    decreases s,
{
    if s.len() == 0 {
        Seq::empty()
    } else {
        span_text(s[0]) + spans_text(s.drop_first())
    }
}

/// The span of one quoted piece, cut from the input.
pub open spec fn borrow_qcontent(input: Seq<char>, c: QContentV, end: int) -> QSpanV {
    match c {
        QContentV::Raw { start } => QSpanV::Raw(input.subrange(start, end)),
        QContentV::Escape { start } => QSpanV::Escape(input.subrange(start, end)),
    }
}

/// The spans of a list of quoted pieces, each ending where the next begins.
pub open spec fn borrow_qcontents(input: Seq<char>, content: Seq<QContentV>, hi: int) -> Seq<
    QSpanV,
>
    decreases content.len(),
{
    if content.len() == 0 {
        Seq::empty()
    } else {
        seq![borrow_qcontent(input, content[0], qend_at(content, 0, hi))] + borrow_qcontents(
            input,
            content.drop_first(),
            hi,
        )
    }
}

/// The span tree of one node: its end is the start of the next sibling or
/// the enclosing boundary, and its delimiters take the text up to the first
/// piece they enclose.
pub open spec fn borrow_node(input: Seq<char>, n: NodeV, end: int) -> SpanV
    decreases n,
{
    match n {
        NodeV::Whitespace { start } => SpanV::Whitespace(input.subrange(start, end)),
        NodeV::Raw { start } => SpanV::Raw(input.subrange(start, end)),
        NodeV::Punct { start } => SpanV::Punct(input.subrange(start, end)),
        NodeV::Group { opening, content, closing } => {
            let cend = match closing {
                Some(c) => c,
                None => end,
            };
            let oend = first_start(content, cend);
            SpanV::Group {
                opening: input.subrange(opening, oend),
                content: borrow_nodes(input, content, cend),
                closing: match closing {
                    Some(c) => Some(input.subrange(c, end)),
                    None => None,
                },
            }
        },
        NodeV::Quoted { opening, content, closing } => {
            let cend = match closing {
                Some(c) => c,
                None => end,
            };
            let oend = qfirst_start(content, cend);
            SpanV::Quoted {
                opening: input.subrange(opening, oend),
                content: borrow_qcontents(input, content, cend),
                closing: match closing {
                    Some(c) => Some(input.subrange(c, end)),
                    None => None,
                },
            }
        },
    }
}

/// The span trees of a sibling list.
pub open spec fn borrow_nodes(input: Seq<char>, nodes: Seq<NodeV>, hi: int) -> Seq<SpanV>
    decreases nodes,
{
    if nodes.len() == 0 {
        Seq::empty()
    } else {
        seq![borrow_node(input, nodes[0], end_at(nodes, 0, hi))] + borrow_nodes(
            input,
            nodes.drop_first(),
            hi,
        )
    }
}

/// The transform, element by element.
pub proof fn lemma_borrow_nodes_index(input: Seq<char>, nodes: Seq<NodeV>, hi: int)
    ensures
        borrow_nodes(input, nodes, hi).len() == nodes.len(),
        forall|i: int|
            0 <= i < nodes.len() ==> borrow_nodes(input, nodes, hi)[i] == borrow_node(
                input,
                nodes[i],
                end_at(nodes, i, hi),
            ),
    decreases nodes.len(),
{
    if nodes.len() > 0 {
        lemma_borrow_nodes_index(input, nodes.drop_first(), hi);
        assert forall|i: int| 0 <= i < nodes.len() implies borrow_nodes(input, nodes, hi)[i]
            == borrow_node(input, nodes[i], end_at(nodes, i, hi)) by {
            if i > 0 {
                assert(nodes.drop_first()[i - 1] == nodes[i]);
                assert(end_at(nodes.drop_first(), i - 1, hi) == end_at(nodes, i, hi));
            }
        }
    }
}

/// The transform of a list of quoted pieces, element by element.
pub proof fn lemma_borrow_qcontents_index(input: Seq<char>, content: Seq<QContentV>, hi: int)
    ensures
        borrow_qcontents(input, content, hi).len() == content.len(),
        forall|i: int|
            0 <= i < content.len() ==> borrow_qcontents(input, content, hi)[i] == borrow_qcontent(
                input,
                content[i],
                qend_at(content, i, hi),
            ),
    decreases content.len(),
{
    if content.len() > 0 {
        lemma_borrow_qcontents_index(input, content.drop_first(), hi);
        assert forall|i: int| 0 <= i < content.len() implies borrow_qcontents(input, content, hi)[i]
            == borrow_qcontent(input, content[i], qend_at(content, i, hi)) by {
            if i > 0 {
                assert(content.drop_first()[i - 1] == content[i]);
                assert(qend_at(content.drop_first(), i - 1, hi) == qend_at(content, i, hi));
            }
        }
    }
}

// ---------------------------------------------------------------------------
// Lossless re-tiling
// ---------------------------------------------------------------------------
/// The spans of a well-formed quoted list concatenate to exactly the text
/// between where the first piece starts and the boundary.
pub proof fn lemma_borrow_qcontents_text(input: Seq<char>, content: Seq<QContentV>, hi: int)
    requires
        qlist_wf(content, hi),
        0 <= hi <= input.len(),
    ensures
        qspans_text(borrow_qcontents(input, content, hi)) == input.subrange(
            qfirst_start(content, hi),
            hi,
        ),
    decreases content.len(),
{
    if content.len() == 0 {
        assert(input.subrange(hi, hi) =~= Seq::<char>::empty());
    } else {
        let rest = content.drop_first();
        assert forall|i: int| 0 <= i < rest.len() implies 0 <= qv_start(#[trigger] rest[i])
            < qend_at(rest, i, hi) by {
            assert(content[i + 1] == rest[i]);
            assert(0 <= qv_start(content[i + 1]) < qend_at(content, i + 1, hi));
        }
        lemma_borrow_qcontents_text(input, rest, hi);
        let e0 = qend_at(content, 0, hi);
        assert(0 <= qv_start(content[0]) < e0);
        assert(e0 <= hi) by {
            if content.len() > 1 {
                assert(0 <= qv_start(content[1]) < qend_at(content, 1, hi));
                if content.len() == 2 {
                } else {
                    assert(qend_at(content, 1, hi) <= hi) by {
                        lemma_qstart_le_hi(content, hi, 1);
                    }
                }
            }
        }
        assert(qfirst_start(rest, hi) == e0);
        let b0 = borrow_qcontent(input, content[0], e0);
        let bt = borrow_qcontents(input, rest, hi);
        assert((seq![b0] + bt)[0] == b0);
        assert((seq![b0] + bt).drop_first() =~= bt);
        assert(qspans_text(borrow_qcontents(input, content, hi)) == qspan_text(b0) + qspans_text(
            bt,
        ));
        assert(input.subrange(qv_start(content[0]), e0) + input.subrange(e0, hi) =~= input.subrange(
            qv_start(content[0]),
            hi,
        ));
    }
}

/// Every end in a well-formed quoted list lies at or below the boundary.
proof fn lemma_qstart_le_hi(content: Seq<QContentV>, hi: int, i: int)
    requires
        qlist_wf(content, hi),
        0 <= i < content.len(),
    ensures
        qend_at(content, i, hi) <= hi,
    decreases content.len() - i,
{
    assert(0 <= qv_start(content[i]) < qend_at(content, i, hi));
    if i + 1 < content.len() {
        lemma_qstart_le_hi(content, hi, i + 1);
        assert(0 <= qv_start(content[i + 1]) < qend_at(content, i + 1, hi));
    }
}

/// The spans of one well-formed node concatenate to exactly its text.
pub proof fn lemma_borrow_node_text(input: Seq<char>, n: NodeV, end: int)
    requires
        node_wf(n, end),
        0 <= end <= input.len(),
    ensures
        span_text(borrow_node(input, n, end)) == input.subrange(nv_start(n), end),
    decreases n,
{
    match n {
        NodeV::Whitespace { start } => {},
        NodeV::Raw { start } => {},
        NodeV::Punct { start } => {},
        NodeV::Group { opening, content, closing } => {
            let cend = match closing {
                Some(c) => c,
                None => end,
            };
            let oend = first_start(content, cend);
            assert(oend <= cend) by {
                if content.len() > 0 {
                    lemma_list_wf_start_lt(content, cend, 0);
                }
            }
            lemma_borrow_nodes_text(input, content, cend);
            assert(input.subrange(opening, oend) + input.subrange(oend, cend) =~= input.subrange(
                opening,
                cend,
            ));
            assert(input.subrange(opening, cend) + closing_text(
                match closing {
                    Some(c) => Some(input.subrange(c, end)),
                    None => None,
                },
            ) =~= input.subrange(opening, end));
        },
        NodeV::Quoted { opening, content, closing } => {
            let cend = match closing {
                Some(c) => c,
                None => end,
            };
            let oend = qfirst_start(content, cend);
            assert(oend <= cend) by {
                if content.len() > 0 {
                    lemma_qstart_le_hi(content, cend, 0);
                    assert(0 <= qv_start(content[0]) < qend_at(content, 0, cend));
                }
            }
            lemma_borrow_qcontents_text(input, content, cend);
            assert(input.subrange(opening, oend) + input.subrange(oend, cend) =~= input.subrange(
                opening,
                cend,
            ));
            assert(input.subrange(opening, cend) + closing_text(
                match closing {
                    Some(c) => Some(input.subrange(c, end)),
                    None => None,
                },
            ) =~= input.subrange(opening, end));
        },
    }
}

/// Lossless re-tiling: the spans of a well-formed sibling list concatenate
/// to exactly the input text from the first span to the boundary.
pub proof fn lemma_borrow_nodes_text(input: Seq<char>, nodes: Seq<NodeV>, hi: int)
    requires
        list_wf(nodes, hi),
        0 <= hi <= input.len(),
    ensures
        spans_text(borrow_nodes(input, nodes, hi)) == input.subrange(first_start(nodes, hi), hi),
    decreases nodes,
{
    if nodes.len() == 0 {
        assert(input.subrange(hi, hi) =~= Seq::<char>::empty());
    } else {
        let rest = nodes.drop_first();
        assert forall|i: int| 0 <= i < rest.len() implies node_wf(
            #[trigger] rest[i],
            end_at(rest, i, hi),
        ) by {
            assert(rest[i] == nodes[i + 1]);
            assert(node_wf(nodes[i + 1], end_at(nodes, i + 1, hi)));
            assert(end_at(rest, i, hi) == end_at(nodes, i + 1, hi));
        }
        lemma_borrow_nodes_text(input, rest, hi);
        let e0 = end_at(nodes, 0, hi);
        assert(e0 <= hi) by {
            if nodes.len() > 1 {
                lemma_list_wf_start_lt(nodes, hi, 1);
            }
        }
        assert(node_wf(nodes[0], e0));
        assert(nv_start(nodes[0]) < e0) by {
            lemma_node_start_lt(nodes[0], e0);
        }
        lemma_borrow_node_text(input, nodes[0], e0);
        assert(first_start(rest, hi) == e0);
        let b0 = borrow_node(input, nodes[0], e0);
        let bt = borrow_nodes(input, rest, hi);
        assert((seq![b0] + bt)[0] == b0);
        assert((seq![b0] + bt).drop_first() =~= bt);
        assert(spans_text(borrow_nodes(input, nodes, hi)) == span_text(b0) + spans_text(bt));
        assert(input.subrange(nv_start(nodes[0]), e0) + input.subrange(e0, hi) =~= input.subrange(
            nv_start(nodes[0]),
            hi,
        ));
    }
}

/// A well-formed node's span is never empty.
proof fn lemma_node_start_lt(n: NodeV, end: int)
    requires
        node_wf(n, end),
    ensures
        nv_start(n) < end,
{
}

// ---------------------------------------------------------------------------
// The executable transform
// ---------------------------------------------------------------------------
/// Cuts one span out of the input.
fn span_of(input: &str, start: usize, end: usize) -> (r: String)
    requires
        start <= end,
        end <= input@.len(),
    ensures
        r@ == input@.subrange(start as int, end as int),
{
    input.substring_char(start, end).to_owned()
}

/// Converts the pieces of one quoted region.
fn quoted_from_l1(input: &str, content: &Vec<l1::QuotedContent>, hi: usize) -> (r: Vec<
    QuotedContent,
>)
    requires
        qlist_wf(view_qcontents(content@), hi as int),
        hi <= input@.len(),
    ensures
        view_qspans(r@) == borrow_qcontents(input@, view_qcontents(content@), hi as int),
{
    let ghost cv = view_qcontents(content@);
    proof {
        lemma_borrow_qcontents_index(input@, cv, hi as int);
    }
    let mut r: Vec<QuotedContent> = Vec::new();
    let mut i: usize = 0;
    while i < content.len()
        invariant
            i <= content@.len(),
            cv == view_qcontents(content@),
            cv.len() == content@.len(),
            qlist_wf(cv, hi as int),
            hi <= input@.len(),
            r@.len() == i,
            forall|j: int|
                0 <= j < i ==> view_qspan(#[trigger] r@[j]) == borrow_qcontent(
                    input@,
                    cv[j],
                    qend_at(cv, j, hi as int),
                ),
        decreases content@.len() - i,
    {
        let end: usize = if i + 1 < content.len() {
            content[i + 1].start()
        } else {
            hi
        };
        proof {
            assert(0 <= qv_start(cv[i as int]) < qend_at(cv, i as int, hi as int));
            lemma_qstart_le_hi(cv, hi as int, i as int);
            assert(end as int == qend_at(cv, i as int, hi as int));
        }
        let start = content[i].start();
        let text = span_of(input, start, end);
        match content[i] {
            l1::QuotedContent::Raw { .. } => {
                r.push(QuotedContent::Raw(text));
            },
            l1::QuotedContent::Escape { .. } => {
                r.push(QuotedContent::Escape(text));
            },
        }
        i += 1;
    }
    proof {
        assert forall|j: int| 0 <= j < cv.len() implies view_qspans(r@)[j] == borrow_qcontents(
            input@,
            cv,
            hi as int,
        )[j] by {
            assert(view_qspans(r@)[j] == view_qspan(r@[j]));
        }
        assert(view_qspans(r@) =~= borrow_qcontents(input@, cv, hi as int));
    }
    r
}

/// Computes the span tree of an offset tree over the original input. The
/// boundary `hi` is where the last node's span ends: the enclosing closing
/// delimiter, or the end of the input.
pub fn ast_from_l1(input: &str, nodes: &Vec<l1::AstNode>, hi: usize) -> (r: Vec<AstNode>)
    requires
        list_wf(view_nodes(nodes@), hi as int),
        hi <= input@.len(),
    ensures
        view_spans(r@) == borrow_nodes(input@, view_nodes(nodes@), hi as int),
    decreases nodes@,
{
    let ghost nv = view_nodes(nodes@);
    proof {
        lemma_view_nodes_index(nodes@);
        lemma_borrow_nodes_index(input@, nv, hi as int);
    }
    let mut r: Vec<AstNode> = Vec::new();
    let mut i: usize = 0;
    while i < nodes.len()
        invariant
            i <= nodes@.len(),
            nv == view_nodes(nodes@),
            nv.len() == nodes@.len(),
            forall|j: int| 0 <= j < nodes@.len() ==> nv[j] == view_node(#[trigger] nodes@[j]),
            list_wf(nv, hi as int),
            hi <= input@.len(),
            r@.len() == i,
            forall|j: int|
                0 <= j < i ==> view_span(#[trigger] r@[j]) == borrow_node(
                    input@,
                    nv[j],
                    end_at(nv, j, hi as int),
                ),
        decreases nodes@.len() - i,
    {
        let end: usize = if i + 1 < nodes.len() {
            nodes[i + 1].start()
        } else {
            hi
        };
        proof {
            assert(node_wf(nv[i as int], end_at(nv, i as int, hi as int)));
            lemma_node_start_lt(nv[i as int], end_at(nv, i as int, hi as int));
            lemma_end_le_hi(nv, hi as int, i as int);
            assert(end as int == end_at(nv, i as int, hi as int));
        }
        let node = node_from_l1(input, &nodes[i], end);
        proof {
            assert(view_node(nodes@[i as int]) == nv[i as int]);
        }
        r.push(node);
        i += 1;
    }
    proof {
        assert forall|j: int| 0 <= j < nv.len() implies view_spans(r@)[j] == borrow_nodes(
            input@,
            nv,
            hi as int,
        )[j] by {
            lemma_view_spans_index(r@);
            assert(view_spans(r@)[j] == view_span(r@[j]));
        }
        lemma_view_spans_index(r@);
        assert(view_spans(r@) =~= borrow_nodes(input@, nv, hi as int));
    }
    r
}

/// Every end in a well-formed list lies at or below the boundary.
proof fn lemma_end_le_hi(nodes: Seq<NodeV>, hi: int, i: int)
    requires
        list_wf(nodes, hi),
        0 <= i < nodes.len(),
    ensures
        end_at(nodes, i, hi) <= hi,
{
    if i + 1 < nodes.len() {
        lemma_list_wf_start_lt(nodes, hi, i + 1);
    }
}

/// Converts one node, whose span ends at `end`.
fn node_from_l1(input: &str, node: &l1::AstNode, end: usize) -> (r: AstNode)
    requires
        node_wf(view_node(*node), end as int),
        end <= input@.len(),
    ensures
        view_span(r) == borrow_node(input@, view_node(*node), end as int),
    decreases *node,
{
    match node {
        l1::AstNode::Whitespace { start } => AstNode::Whitespace(span_of(input, *start, end)),
        l1::AstNode::Raw { start } => AstNode::Raw(span_of(input, *start, end)),
        l1::AstNode::Punct { start } => AstNode::Punct(span_of(input, *start, end)),
        l1::AstNode::Group(g) => {
            let ghost gv = view_node(*node);
            let cend: usize = match g.closing {
                Some(c) => c,
                None => end,
            };
            proof {
                lemma_view_nodes_index(g.content@);
            }
            let oend: usize = if g.content.len() > 0 {
                g.content[0].start()
            } else {
                cend
            };
            proof {
                assert(view_nodes(g.content@).len() == g.content@.len());
                if g.content@.len() > 0 {
                    lemma_list_wf_start_lt(view_nodes(g.content@), cend as int, 0);
                }
                assert(oend as int == first_start(view_nodes(g.content@), cend as int));
                assert(decreases_to!(*node => *g));
                assert(decreases_to!(*g => g.content));
            }
            let content = ast_from_l1(input, &g.content, cend);
            let closing = match g.closing {
                Some(c) => Some(span_of(input, c, end)),
                None => None,
            };
            AstNode::Group(
                Group { opening: span_of(input, g.opening, oend), content, closing },
            )
        },
        l1::AstNode::Quoted(q) => {
            let cend: usize = match q.closing {
                Some(c) => c,
                None => end,
            };
            let oend: usize = if q.content.len() > 0 {
                q.content[0].start()
            } else {
                cend
            };
            proof {
                let qcv = view_qcontents(q.content@);
                assert(qcv.len() == q.content@.len());
                if q.content@.len() > 0 {
                    assert(qcv[0] == view_qcontent(q.content@[0]));
                    lemma_qstart_le_hi(qcv, cend as int, 0);
                    assert(0 <= qv_start(qcv[0]) < qend_at(qcv, 0, cend as int));
                }
                assert(oend as int == qfirst_start(view_qcontents(q.content@), cend as int));
            }
            let content = quoted_from_l1(input, &q.content, cend);
            let closing = match q.closing {
                Some(c) => Some(span_of(input, c, end)),
                None => None,
            };
            AstNode::Quoted(
                Quoted { opening: span_of(input, q.opening, oend), content, closing },
            )
        },
    }
}

/// Parses `input` and re-tiles the result into text spans. On success the
/// spans, concatenated in document order, reproduce the input exactly.
pub fn parse(input: &str, lang: &LanguageConfig) -> (r: Result<Vec<AstNode>, Error>)
    ensures
        match r {
            Ok(spans) => {
                &&& spec_byte_len(input) <= INPUT_LIMIT
                &&& view_spans(spans@) == borrow_nodes(
                    input@,
                    spec_parse(
                        input@,
                        group_views(lang.groups@),
                        quote_views(lang.quotes@),
                        punct_views(lang.puncts@),
                    ),
                    input@.len() as int,
                )
                &&& spans_text(view_spans(spans@)) == input@
            },
            Err(e) => spec_byte_len(input) > INPUT_LIMIT && e == (Error::InputTooLarge {
                limit: INPUT_LIMIT,
                actual: spec_byte_len(input),
            }),
        },
{
    let offsets = match l1::parse(input, lang) {
        Ok(nodes) => nodes,
        Err(e) => {
            return Err(e);
        },
    };
    let hi = input.unicode_len();
    proof {
        lemma_spec_parse_wf(
            input@,
            group_views(lang.groups@),
            quote_views(lang.quotes@),
            punct_views(lang.puncts@),
        );
    }
    let spans = ast_from_l1(input, &offsets, hi);
    proof {
        let pv = spec_parse(
            input@,
            group_views(lang.groups@),
            quote_views(lang.quotes@),
            punct_views(lang.puncts@),
        );
        lemma_borrow_nodes_text(input@, pv, input@.len() as int);
        if input@.len() > 0 {
            assert(first_start(pv, input@.len() as int) == 0);
        }
        assert(input@.subrange(0, input@.len() as int) =~= input@);
    }
    Ok(spans)
}


/// Lossless re-tiling, end to end: for any input and any language, the
/// spans of the borrowed tree, concatenated in document order, reproduce
/// the input exactly.
pub proof fn lemma_lossless_retile(
    input: Seq<char>,
    groups: Seq<(Seq<char>, Seq<char>)>,
    quotes: Seq<QuoteV>,
    puncts: Seq<Seq<char>>,
)
    ensures
        spans_text(
            borrow_nodes(
                input,
                spec_parse(input, groups, quotes, puncts),
                input.len() as int,
            ),
        ) == input,
{
    lemma_spec_parse_wf(input, groups, quotes, puncts);
    let pv = spec_parse(input, groups, quotes, puncts);
    lemma_borrow_nodes_text(input, pv, input.len() as int);
    assert(first_start(pv, input.len() as int) == 0);
    assert(input.subrange(0, input.len() as int) =~= input);
}

} // verus!
