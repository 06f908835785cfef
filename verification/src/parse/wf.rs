//! Well-formedness of the offset tree: sibling starts strictly increase and
//! every span lies inside its enclosing boundary, so that the spans, read in
//! document order, partition the input exactly.

use vstd::prelude::*;
use crate::parse::l1::FrameV;
use crate::parse::l1::QuoteV;
use crate::parse::l1::NodeV;
use crate::parse::l1::QContentV;
use crate::parse::l1::escape_lits;
use crate::parse::l1::group_openings;
use crate::parse::l1::first_lit_from;
use crate::parse::l1::is_ws_char;
use crate::parse::l1::lemma_first_lit_from;
use crate::parse::l1::matches_at;
use crate::parse::l1::lemma_scan_quote_bounds;
use crate::parse::l1::nv_start;
use crate::parse::l1::qv_start;
use crate::parse::l1::quote_openings;
use crate::parse::l1::run;
use crate::parse::l1::scan_quote;
use crate::parse::l1::spec_parse;
use crate::parse::l1::unwind;

verus! {

/// The end of the span of `nodes[i]`: the start of the next sibling, or the
/// enclosing boundary `hi` for the last one.
pub open spec fn end_at(nodes: Seq<NodeV>, i: int, hi: int) -> int {
    if i + 1 < nodes.len() {
        nv_start(nodes[i + 1])
    } else {
        hi
    }
}

/// The end of the span of quoted piece `i`.
pub open spec fn qend_at(content: Seq<QContentV>, i: int, hi: int) -> int {
    if i + 1 < content.len() {
        qv_start(content[i + 1])
    } else {
        hi
    }
}

/// Where the first node starts, or the boundary itself for an empty list.
pub open spec fn first_start(nodes: Seq<NodeV>, hi: int) -> int {
    if nodes.len() == 0 {
        hi
    } else {
        nv_start(nodes[0])
    }
}

/// Where the first quoted piece starts, or the boundary for an empty list.
pub open spec fn qfirst_start(content: Seq<QContentV>, hi: int) -> int {
    if content.len() == 0 {
        hi
    } else {
        qv_start(content[0])
    }
}

/// Quoted pieces are non-empty and strictly ordered below the boundary.
pub open spec fn qlist_wf(content: Seq<QContentV>, hi: int) -> bool {
    forall|i: int|
        0 <= i < content.len() ==> 0 <= qv_start(#[trigger] content[i]) < qend_at(content, i, hi)
}

/// One node is internally well-formed, given the end of its own span.
pub open spec fn node_wf(n: NodeV, end: int) -> bool
    decreases n,
{
    match n {
        NodeV::Whitespace { start } => 0 <= start < end,
        NodeV::Raw { start } => 0 <= start < end,
        NodeV::Punct { start } => 0 <= start < end,
        NodeV::Group { opening, content, closing } => match closing {
            Some(c) => {
                &&& 0 <= opening < c
                &&& opening < first_start(content, c)
                &&& list_wf(content, c)
                &&& c <= end
            },
            None => {
                &&& 0 <= opening < end
                &&& opening < first_start(content, end)
                &&& list_wf(content, end)
            },
        },
        NodeV::Quoted { opening, content, closing } => match closing {
            Some(c) => {
                &&& 0 <= opening < c
                &&& opening < qfirst_start(content, c)
                &&& qlist_wf(content, c)
                &&& c <= end
            },
            None => {
                &&& 0 <= opening < end
                &&& opening < qfirst_start(content, end)
                &&& qlist_wf(content, end)
            },
        },
    }
}

/// A sibling list is well-formed below the boundary `hi`.
pub open spec fn list_wf(nodes: Seq<NodeV>, hi: int) -> bool
    decreases nodes,
{
    forall|i: int| 0 <= i < nodes.len() ==> node_wf(#[trigger] nodes[i], end_at(nodes, i, hi))
}

/// Well-formedness survives widening the boundary.
pub proof fn lemma_node_wf_mono(n: NodeV, e1: int, e2: int)
    requires
        node_wf(n, e1),
        e1 <= e2,
    ensures
        node_wf(n, e2),
    decreases n,
{
    match n {
        NodeV::Group { opening, content, closing } => {
            if closing is None {
                lemma_list_wf_mono(content, e1, e2);
            }
        },
        _ => {},
    }
}

/// Well-formedness survives widening the boundary.
pub proof fn lemma_list_wf_mono(nodes: Seq<NodeV>, h1: int, h2: int)
    requires
        list_wf(nodes, h1),
        h1 <= h2,
    ensures
        list_wf(nodes, h2),
    decreases nodes,
{
    assert forall|i: int| 0 <= i < nodes.len() implies node_wf(
        #[trigger] nodes[i],
        end_at(nodes, i, h2),
    ) by {
        assert(node_wf(nodes[i], end_at(nodes, i, h1)));
        lemma_node_wf_mono(nodes[i], end_at(nodes, i, h1), end_at(nodes, i, h2));
    }
}

/// Every start in a well-formed list lies strictly below the boundary.
pub proof fn lemma_list_wf_start_lt(nodes: Seq<NodeV>, hi: int, i: int)
    requires
        list_wf(nodes, hi),
        0 <= i < nodes.len(),
    ensures
        nv_start(nodes[i]) < hi,
    decreases nodes.len() - i,
{
    assert(node_wf(nodes[i], end_at(nodes, i, hi)));
    if i + 1 < nodes.len() {
        lemma_list_wf_start_lt(nodes, hi, i + 1);
    }
}

/// Appending a node that starts exactly at the old boundary keeps the list
/// well-formed below a new boundary the node itself respects.
pub proof fn lemma_list_wf_push(nodes: Seq<NodeV>, p: int, n: NodeV, hi: int)
    requires
        list_wf(nodes, p),
        nv_start(n) == p,
        node_wf(n, hi),
    ensures
        list_wf(nodes.push(n), hi),
{
    let nodes2 = nodes.push(n);
    assert forall|i: int| 0 <= i < nodes2.len() implies node_wf(
        #[trigger] nodes2[i],
        end_at(nodes2, i, hi),
    ) by {
        if i < nodes.len() {
            assert(node_wf(nodes[i], end_at(nodes, i, p)));
            assert(end_at(nodes2, i, hi) == end_at(nodes, i, p));
        }
    }
}

/// The same, for quoted pieces.
pub proof fn lemma_qlist_wf_push(content: Seq<QContentV>, p: int, c: QContentV, hi: int)
    requires
        qlist_wf(content, p),
        qv_start(c) == p,
        0 <= p < hi,
    ensures
        qlist_wf(content.push(c), hi),
{
    let content2 = content.push(c);
    assert forall|i: int| 0 <= i < content2.len() implies 0 <= qv_start(#[trigger] content2[i])
        < qend_at(content2, i, hi) by {
        if i < content.len() {
            assert(0 <= qv_start(content[i]) < qend_at(content, i, p));
            assert(qend_at(content2, i, hi) == qend_at(content, i, p));
        }
    }
}

/// Boundary widening for quoted pieces.
pub proof fn lemma_qlist_wf_mono(content: Seq<QContentV>, h1: int, h2: int)
    requires
        qlist_wf(content, h1),
        h1 <= h2,
    ensures
        qlist_wf(content, h2),
{
    assert forall|i: int| 0 <= i < content.len() implies 0 <= qv_start(#[trigger] content[i])
        < qend_at(content, i, h2) by {
        assert(0 <= qv_start(content[i]) < qend_at(content, i, h1));
    }
}

/// What the quoted-content scan guarantees: the pieces tile forward from the
/// scan's start, strictly ordered, and stay inside the reported boundary.
pub proof fn lemma_scan_quote_wf(input: Seq<char>, quote: QuoteV, p: int, acc: Seq<QContentV>)
    requires
        0 <= p <= input.len(),
        qlist_wf(acc, p),
    ensures
        ({
            let (content, closing, after) = scan_quote(input, quote, p, acc);
            let cend = if closing is Some {
                closing->0
            } else {
                after
            };
            &&& qlist_wf(content, cend)
            &&& qfirst_start(content, cend) >= qfirst_start(acc, p)
        }),
    decreases input.len() - p,
{
    lemma_scan_quote_bounds(input, quote, p, acc);
    if p == input.len() {
    } else if first_lit_from(escape_lits(quote.escapes), input, p, 0) is Some {
        let ei = first_lit_from(escape_lits(quote.escapes), input, p, 0)->0;
        lemma_first_lit_from(escape_lits(quote.escapes), input, p, 0);
        let elen = quote.escapes[ei].0.len() as int;
        let acc2 = acc.push(QContentV::Escape { start: p });
        lemma_qlist_wf_push(acc, p, QContentV::Escape { start: p }, p + elen);
        lemma_scan_quote_wf(input, quote, p + elen, acc2);
    } else if matches_at(input, p, quote.closing) {
    } else {
        if acc.len() > 0 && acc.last() is Raw {
            lemma_qlist_wf_mono(acc, p, p + 1);
            lemma_scan_quote_wf(input, quote, p + 1, acc);
        } else {
            let acc2 = acc.push(QContentV::Raw { start: p });
            lemma_qlist_wf_push(acc, p, QContentV::Raw { start: p }, p + 1);
            lemma_scan_quote_wf(input, quote, p + 1, acc2);
        }
    }
}

/// The chain of open groups is consistent: each saved sibling list ends at
/// its group's opening, and each opening lies before whatever its content
/// list holds so far.
pub open spec fn stack_ok(stack: Seq<FrameV>, out: Seq<NodeV>, p: int) -> bool
    decreases stack.len(),
{
    if stack.len() == 0 {
        true
    } else {
        let f = stack.last();
        &&& 0 <= f.opening
        &&& f.opening < first_start(out, p)
        &&& list_wf(f.saved, f.opening)
        &&& stack_ok(stack.drop_last(), f.saved, f.opening)
    }
}

/// Where the very first span of the whole scan starts: the bottom of the
/// stack decides.
pub open spec fn glob_first(stack: Seq<FrameV>, out: Seq<NodeV>, p: int) -> int
    decreases stack.len(),
{
    if stack.len() == 0 {
        first_start(out, p)
    } else {
        glob_first(stack.drop_last(), stack.last().saved, stack.last().opening)
    }
}

/// The chain condition looks at the current sibling list only through where
/// its first span starts.
proof fn lemma_stack_ok_retarget(
    stack: Seq<FrameV>,
    out1: Seq<NodeV>,
    p1: int,
    out2: Seq<NodeV>,
    p2: int,
)
    requires
        stack_ok(stack, out1, p1),
        first_start(out2, p2) == first_start(out1, p1),
    ensures
        stack_ok(stack, out2, p2),
{
}

/// Unwinding the still-open groups keeps the tree well-formed.
#[verifier::rlimit(100)]
proof fn lemma_unwind_wf(stack: Seq<FrameV>, out: Seq<NodeV>, hi: int)
    requires
        list_wf(out, hi),
        stack_ok(stack, out, hi),
    ensures
        list_wf(unwind(stack, out), hi),
        stack.len() == 0 && out.len() == 0 ==> unwind(stack, out).len() == 0,
        stack.len() > 0 || out.len() > 0 ==> unwind(stack, out).len() > 0 && first_start(
            unwind(stack, out),
            hi,
        ) == glob_first(stack, out, hi),
    decreases stack.len(),
{
    if stack.len() > 0 {
        let f = stack.last();
        let g = NodeV::Group { opening: f.opening, content: out, closing: None };
        assert(node_wf(g, hi)) by {
            if out.len() > 0 {
                lemma_list_wf_start_lt(out, hi, 0);
            }
        }
        lemma_list_wf_push(f.saved, f.opening, g, hi);
        let out2 = f.saved.push(g);
        assert(first_start(out2, hi) == first_start(f.saved, f.opening));
        let rest = stack.drop_last();
        lemma_stack_ok_retarget(rest, f.saved, f.opening, out2, hi);
        assert(glob_first(stack, out, hi) == glob_first(rest, f.saved, f.opening));
        assert(glob_first(rest, out2, hi) == glob_first(rest, f.saved, f.opening)) by {
            if rest.len() == 0 {
            }
        }
        lemma_unwind_wf(rest, out2, hi);
    }
}

/// The central invariant: from any consistent intermediate state, the scan
/// yields a well-formed tree whose first span starts where the state says.
#[verifier::rlimit(100)]
pub proof fn lemma_run_wf(
    input: Seq<char>,
    groups: Seq<(Seq<char>, Seq<char>)>,
    quotes: Seq<QuoteV>,
    puncts: Seq<Seq<char>>,
    p: int,
    stack: Seq<FrameV>,
    out: Seq<NodeV>,
)
    requires
        0 <= p <= input.len(),
        list_wf(out, p),
        stack_ok(stack, out, p),
    ensures
        ({
            let r = run(input, groups, quotes, puncts, p, stack, out);
            &&& list_wf(r, input.len() as int)
            &&& (p == input.len() && stack.len() == 0 && out.len() == 0 ==> r.len() == 0)
            &&& (p < input.len() || stack.len() > 0 || out.len() > 0 ==> r.len() > 0
                && first_start(r, input.len() as int) == glob_first(stack, out, p))
        }),
    decreases input.len() - p, stack.len(),
{
    let len = input.len() as int;
    if p == len {
        lemma_unwind_wf(stack, out, len);
    } else if is_ws_char(input[p]) {
        let out2 = if out.len() > 0 && out.last() is Whitespace {
            out
        } else {
            out.push(NodeV::Whitespace { start: p })
        };
        if out.len() > 0 && out.last() is Whitespace {
            lemma_list_wf_mono(out, p, p + 1);
        } else {
            lemma_list_wf_push(out, p, NodeV::Whitespace { start: p }, p + 1);
        }
        assert(first_start(out2, p + 1) == first_start(out, p));
        assert(glob_first(stack, out2, p + 1) == glob_first(stack, out, p)) by {
            if stack.len() == 0 {
            }
        }
        lemma_run_wf(input, groups, quotes, puncts, p + 1, stack, out2);
    } else if stack.len() > 0 && matches_at(input, p, groups[stack.last().gi].1) {
        let f = stack.last();
        let p2 = p + groups[f.gi].1.len();
        let g = NodeV::Group { opening: f.opening, content: out, closing: Some(p) };
        if out.len() > 0 {
            lemma_list_wf_start_lt(out, p, 0);
        }
        assert(node_wf(g, p2)) by {
            if out.len() > 0 {
                lemma_list_wf_start_lt(out, p, 0);
            }
        }
        lemma_list_wf_push(f.saved, f.opening, g, p2);
        let out2 = f.saved.push(g);
        assert(first_start(out2, p2) == first_start(f.saved, f.opening));
        let rest = stack.drop_last();
        lemma_stack_ok_retarget(rest, f.saved, f.opening, out2, p2);
        assert(glob_first(stack, out, p) == glob_first(rest, f.saved, f.opening));
        assert(glob_first(rest, out2, p2) == glob_first(rest, f.saved, f.opening)) by {
            if rest.len() == 0 {
            }
        }
        lemma_run_wf(input, groups, quotes, puncts, p2, rest, out2);
    } else if first_lit_from(group_openings(groups), input, p, 0) is Some {
        let gi = first_lit_from(group_openings(groups), input, p, 0)->0;
        lemma_first_lit_from(group_openings(groups), input, p, 0);
        let p2 = p + groups[gi].0.len();
        let stack2 = stack.push(FrameV { saved: out, opening: p, gi });
        assert(stack2.drop_last() =~= stack);
        assert(stack_ok(stack2, Seq::empty(), p2));
        lemma_run_wf(input, groups, quotes, puncts, p2, stack2, Seq::empty());
        assert(glob_first(stack2, Seq::empty(), p2) == glob_first(stack, out, p));
    } else if first_lit_from(quote_openings(quotes), input, p, 0) is Some {
        let qi = first_lit_from(quote_openings(quotes), input, p, 0)->0;
        lemma_first_lit_from(quote_openings(quotes), input, p, 0);
        let p0 = p + quotes[qi].opening.len();
        let scanned = scan_quote(input, quotes[qi], p0, Seq::empty());
        lemma_scan_quote_bounds(input, quotes[qi], p0, Seq::empty());
        lemma_scan_quote_wf(input, quotes[qi], p0, Seq::empty());
        let q = NodeV::Quoted { opening: p, content: scanned.0, closing: scanned.1 };
        assert(node_wf(q, scanned.2));
        lemma_list_wf_push(out, p, q, scanned.2);
        let out2 = out.push(q);
        assert(first_start(out2, scanned.2) == first_start(out, p));
        assert(glob_first(stack, out2, scanned.2) == glob_first(stack, out, p)) by {
            if stack.len() == 0 {
            }
        }
        lemma_run_wf(input, groups, quotes, puncts, scanned.2, stack, out2);
    } else if first_lit_from(puncts, input, p, 0) is Some {
        let pi = first_lit_from(puncts, input, p, 0)->0;
        lemma_first_lit_from(puncts, input, p, 0);
        let p2 = p + puncts[pi].len();
        lemma_list_wf_push(out, p, NodeV::Punct { start: p }, p2);
        let out2 = out.push(NodeV::Punct { start: p });
        assert(first_start(out2, p2) == first_start(out, p));
        assert(glob_first(stack, out2, p2) == glob_first(stack, out, p)) by {
            if stack.len() == 0 {
            }
        }
        lemma_run_wf(input, groups, quotes, puncts, p2, stack, out2);
    } else {
        let out2 = if out.len() > 0 && out.last() is Raw {
            out
        } else {
            out.push(NodeV::Raw { start: p })
        };
        if out.len() > 0 && out.last() is Raw {
            lemma_list_wf_mono(out, p, p + 1);
        } else {
            lemma_list_wf_push(out, p, NodeV::Raw { start: p }, p + 1);
        }
        assert(first_start(out2, p + 1) == first_start(out, p));
        assert(glob_first(stack, out2, p + 1) == glob_first(stack, out, p)) by {
            if stack.len() == 0 {
            }
        }
        lemma_run_wf(input, groups, quotes, puncts, p + 1, stack, out2);
    }
}

/// What the tokenizer's result always satisfies: a well-formed tree whose
/// spans begin at offset zero whenever there is any input at all.
pub proof fn lemma_spec_parse_wf(
    input: Seq<char>,
    groups: Seq<(Seq<char>, Seq<char>)>,
    quotes: Seq<QuoteV>,
    puncts: Seq<Seq<char>>,
)
    ensures
        list_wf(spec_parse(input, groups, quotes, puncts), input.len() as int),
        input.len() > 0 ==> spec_parse(input, groups, quotes, puncts).len() > 0 && nv_start(
            spec_parse(input, groups, quotes, puncts)[0],
        ) == 0,
        input.len() == 0 ==> spec_parse(input, groups, quotes, puncts).len() == 0,
{
    lemma_run_wf(input, groups, quotes, puncts, 0, Seq::empty(), Seq::empty());
}

} // verus!
