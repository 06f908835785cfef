//! The layout engine: a document of literal text, soft spaces, conditional
//! breaks, group scopes and indent scopes, rendered against a column limit.
//!
//! A group is rendered flat exactly when its entire flattened content fits
//! within the remaining line budget; inside a broken group every soft space
//! and conditional break becomes a line break. Indentation materializes
//! lazily, when text is put on a fresh line, so a break never leaves
//! trailing spaces. Column arithmetic saturates at `usize::MAX`, far beyond
//! any real line.

use vstd::prelude::*;
use crate::str::Str;
use crate::str::string_from_chars;

verus! {

/// One layout instruction.
pub enum DocNode {
    /// Literal text, rendered verbatim.
    Text(Str),
    /// A soft space: a single space when flat, a line break when the
    /// enclosing group is broken.
    Space,
    /// Nothing when flat, a line break when the enclosing group is broken.
    Break,
    /// One atomic fit-or-break decision over its children.
    Group(Vec<DocNode>),
    /// One more indent unit for everything inside.
    Indent(Vec<DocNode>),
}

/// The mathematical image of an instruction.
pub enum DocV {
    Text(Seq<char>),
    Space,
    Break,
    Group(Seq<DocV>),
    Indent(Seq<DocV>),
}

/// The image of one instruction.
pub open spec fn view_doc(d: DocNode) -> DocV
    decreases d,
{
    match d {
        DocNode::Text(t) => DocV::Text(t@),
        DocNode::Space => DocV::Space,
        DocNode::Break => DocV::Break,
        DocNode::Group(c) => DocV::Group(view_docs(c@)),
        DocNode::Indent(c) => DocV::Indent(view_docs(c@)),
    }
}

/// The image of an instruction list.
pub open spec fn view_docs(s: Seq<DocNode>) -> Seq<DocV>
    decreases s,
{
    if s.len() == 0 {
        Seq::empty()
    } else {
        seq![view_doc(s[0])] + view_docs(s.drop_first())
    }
}

/// The image of a list is the list of the images.
pub proof fn lemma_view_docs_index(s: Seq<DocNode>)
    ensures
        view_docs(s).len() == s.len(),
        forall|i: int| 0 <= i < s.len() ==> view_docs(s)[i] == view_doc(s[i]),
    decreases s.len(),
{
    if s.len() > 0 {
        lemma_view_docs_index(s.drop_first());
        assert forall|i: int| 0 <= i < s.len() implies view_docs(s)[i] == view_doc(s[i]) by {
            if i > 0 {
                assert(s.drop_first()[i - 1] == s[i]);
            }
        }
    }
}

/// Taking the image commutes with appending one instruction.
pub proof fn lemma_view_docs_push(s: Seq<DocNode>, d: DocNode)
    ensures
        view_docs(s.push(d)) == view_docs(s).push(view_doc(d)),
    decreases s.len(),
{
    if s.len() == 0 {
        reveal_with_fuel(view_docs, 3);
        assert(s.push(d).drop_first() =~= Seq::<DocNode>::empty());
        assert(view_docs(s.push(d)) =~= view_docs(s).push(view_doc(d)));
    } else {
        assert(s.push(d).drop_first() =~= s.drop_first().push(d));
        lemma_view_docs_push(s.drop_first(), d);
        assert(s.push(d)[0] == s[0]);
        assert(view_docs(s.push(d)) =~= view_docs(s).push(view_doc(d)));
    }
}

// ---------------------------------------------------------------------------
// Saturating column arithmetic
// ---------------------------------------------------------------------------
/// Addition that stops at the largest representable column.
pub open spec fn sat_add(a: nat, b: nat) -> nat {
    if a + b > usize::MAX {
        usize::MAX as nat
    } else {
        a + b
    }
}

/// Executes [`sat_add`].
pub fn sat_add_usize(a: usize, b: usize) -> (r: usize)
    ensures
        r == sat_add(a as nat, b as nat),
{
    if a > usize::MAX - b {
        usize::MAX
    } else {
        a + b
    }
}

/// The columns taken by `level` copies of an indent unit of width `ul`.
pub open spec fn indent_cols_spec(ul: nat, level: nat) -> nat
    decreases level,
{
    if level == 0 {
        0
    } else {
        sat_add(indent_cols_spec(ul, (level - 1) as nat), ul)
    }
}

// ---------------------------------------------------------------------------
// Flat width
// ---------------------------------------------------------------------------
/// The width of one instruction when everything is rendered flat.
pub open spec fn measure_doc(d: DocV) -> nat
    decreases d,
{
    match d {
        DocV::Text(t) => if t.len() > usize::MAX {
            usize::MAX as nat
        } else {
            t.len()
        },
        DocV::Space => 1,
        DocV::Break => 0,
        DocV::Group(c) => measure_docs(c),
        DocV::Indent(c) => measure_docs(c),
    }
}

/// The flat width of an instruction list.
pub open spec fn measure_docs(s: Seq<DocV>) -> nat
    decreases s,
{
    if s.len() == 0 {
        0
    } else {
        sat_add(measure_doc(s[0]), measure_docs(s.drop_first()))
    }
}

/// The flat width, instruction by instruction from the left.
proof fn lemma_measure_docs_suffix(s: Seq<DocV>, i: int)
    requires
        0 <= i < s.len(),
    ensures
        measure_docs(s.subrange(i, s.len() as int)) == sat_add(
            measure_doc(s[i]),
            measure_docs(s.subrange(i + 1, s.len() as int)),
        ),
{
    let suf = s.subrange(i, s.len() as int);
    assert(suf[0] == s[i]);
    assert(suf.drop_first() =~= s.subrange(i + 1, s.len() as int));
}

/// Saturating addition folds in any order.
proof fn lemma_sat_add_assoc(a: nat, b: nat, c: nat)
    ensures
        sat_add(sat_add(a, b), c) == sat_add(a, sat_add(b, c)),
{
}

/// Computes the flat width of an instruction list.
pub fn measure(docs: &Vec<DocNode>) -> (w: usize)
    ensures
        w as nat == measure_docs(view_docs(docs@)),
    decreases docs@,
{
    let ghost dv = view_docs(docs@);
    proof {
        lemma_view_docs_index(docs@);
    }
    proof {
        assert(dv.subrange(0, dv.len() as int) =~= dv);
    }
    let mut w: usize = 0;
    let mut i: usize = 0;
    while i < docs.len()
        invariant
            i <= docs@.len(),
            dv == view_docs(docs@),
            dv.len() == docs@.len(),
            forall|j: int| 0 <= j < docs@.len() ==> dv[j] == view_doc(#[trigger] docs@[j]),
            measure_docs(dv) == sat_add(w as nat, measure_docs(dv.subrange(i as int, dv.len() as int))),
        decreases docs@.len() - i,
    {
        let ghost wpre = w as nat;
        let dw: usize = match &docs[i] {
            DocNode::Text(t) => t.len(),
            DocNode::Space => 1,
            DocNode::Break => 0,
            DocNode::Group(c) => {
                proof {
                    assert(decreases_to!(docs@ => docs@[i as int]));
                }
                measure(c)
            },
            DocNode::Indent(c) => {
                proof {
                    assert(decreases_to!(docs@ => docs@[i as int]));
                }
                measure(c)
            },
        };
        proof {
            assert(dw as nat == measure_doc(dv[i as int]));
            lemma_measure_docs_suffix(dv, i as int);
            lemma_sat_add_assoc(wpre, dw as nat, measure_docs(dv.subrange(i as int + 1, dv.len() as int)));
        }
        w = sat_add_usize(w, dw);
        i += 1;
    }
    proof {
        assert(dv.subrange(dv.len() as int, dv.len() as int) =~= Seq::<DocV>::empty());
    }
    w
}

// ---------------------------------------------------------------------------
// Rendering
// ---------------------------------------------------------------------------
/// The renderer's running state: everything emitted so far, the current
/// column, and whether the line is still fresh (no text since the last
/// break, so the indent has not been written yet).
pub struct RState {
    pub out: Seq<char>,
    pub col: nat,
    pub fresh: bool,
}

/// `unit` repeated `n` times.
pub open spec fn repeat(unit: Seq<char>, n: nat) -> Seq<char>
    decreases n,
{
    if n == 0 {
        Seq::empty()
    } else {
        repeat(unit, (n - 1) as nat) + unit
    }
}

/// Puts literal text: on a fresh line the indent goes first; empty text
/// changes nothing.
pub open spec fn put_text(st: RState, unit: Seq<char>, level: nat, t: Seq<char>) -> RState {
    if t.len() == 0 {
        st
    } else {
        let pad = if st.fresh {
            repeat(unit, level)
        } else {
            Seq::empty()
        };
        let padcols = if st.fresh {
            indent_cols_spec(unit.len(), level)
        } else {
            0
        };
        let tlen = if t.len() > usize::MAX {
            usize::MAX as nat
        } else {
            t.len()
        };
        RState {
            out: st.out + pad + t,
            col: sat_add(sat_add(st.col, padcols), tlen),
            fresh: false,
        }
    }
}

/// Emits one line break; the next text will write the indent.
pub open spec fn put_break(st: RState) -> RState {
    RState { out: st.out.push('\n'), col: 0, fresh: true }
}

/// The column the next character would land on.
pub open spec fn effective_col(st: RState, unit: Seq<char>, level: nat) -> nat {
    if st.fresh {
        indent_cols_spec(unit.len(), level)
    } else {
        st.col
    }
}

/// Renders one instruction.
pub open spec fn render_doc(
    d: DocV,
    unit: Seq<char>,
    maxw: nat,
    level: nat,
    broken: bool,
    st: RState,
) -> RState
    decreases d,
{
    match d {
        DocV::Text(t) => put_text(st, unit, level, t),
        DocV::Space => if broken {
            put_break(st)
        } else {
            put_text(st, unit, level, seq![' '])
        },
        DocV::Break => if broken {
            put_break(st)
        } else {
            st
        },
        DocV::Group(c) => {
            let fits = sat_add(effective_col(st, unit, level), measure_docs(c)) <= maxw;
            render_docs(c, unit, maxw, level, !fits, st)
        },
        DocV::Indent(c) => render_docs(c, unit, maxw, sat_add(level, 1), broken, st),
    }
}

/// Renders an instruction list, left to right.
pub open spec fn render_docs(
    s: Seq<DocV>,
    unit: Seq<char>,
    maxw: nat,
    level: nat,
    broken: bool,
    st: RState,
) -> RState
    decreases s,
{
    if s.len() == 0 {
        st
    } else {
        render_docs(
            s.drop_first(),
            unit,
            maxw,
            level,
            broken,
            render_doc(s[0], unit, maxw, level, broken, st),
        )
    }
}

/// What rendering a whole document yields: the document behaves as one
/// implicit group at the left margin.
pub open spec fn render_spec(docs: Seq<DocV>, unit: Seq<char>, maxw: nat) -> Seq<char> {
    let fits = measure_docs(docs) <= maxw;
    render_docs(
        docs,
        unit,
        maxw,
        0,
        !fits,
        RState { out: Seq::empty(), col: 0, fresh: true },
    ).out
}

/// Rendering a list one instruction at a time from the left.
proof fn lemma_render_docs_suffix(
    s: Seq<DocV>,
    unit: Seq<char>,
    maxw: nat,
    level: nat,
    broken: bool,
    st: RState,
    i: int,
)
    requires
        0 <= i < s.len(),
    ensures
        render_docs(s.subrange(i, s.len() as int), unit, maxw, level, broken, st) == render_docs(
            s.subrange(i + 1, s.len() as int),
            unit,
            maxw,
            level,
            broken,
            render_doc(s[i], unit, maxw, level, broken, st),
        ),
{
    let suf = s.subrange(i, s.len() as int);
    assert(suf[0] == s[i]);
    assert(suf.drop_first() =~= s.subrange(i + 1, s.len() as int));
}

/// The executable state.
struct RBuf {
    out: Vec<char>,
    col: usize,
    fresh: bool,
}

impl RBuf {
    spec fn view_st(&self) -> RState {
        RState { out: self.out@, col: self.col as nat, fresh: self.fresh }
    }
}

/// Appends the characters of `s`.
fn push_chars(out: &mut Vec<char>, s: &Str)
    ensures
        final(out)@ == old(out)@ + s@,
{
    let n = s.len();
    let mut i: usize = 0;
    while i < n
        invariant
            i <= n,
            n == s@.len(),
            out@ == old(out)@ + s@.subrange(0, i as int),
        decreases n - i,
    {
        out.push(s.char_at(i));
        proof {
            assert(out@ =~= old(out)@ + s@.subrange(0, i as int + 1));
        }
        i += 1;
    }
    proof {
        assert(s@.subrange(0, s@.len() as int) =~= s@);
    }
}

/// Writes the indent for `level` and counts its columns.
fn put_pad(st: RBuf, unit: &Str, level: usize) -> (r: RBuf)
    ensures
        r.out@ == st.out@ + repeat(unit@, level as nat),
        r.col as nat == sat_add(st.col as nat, indent_cols_spec(unit@.len(), level as nat)),
        r.fresh == st.fresh,
{
    let mut st = st;
    let ghost out0 = st.out@;
    let ghost col0 = st.col as nat;
    let ghost fresh0 = st.fresh;
    let mut j: usize = 0;
    while j < level
        invariant
            j <= level,
            st.out@ == out0 + repeat(unit@, j as nat),
            st.col as nat == sat_add(col0, indent_cols_spec(unit@.len(), j as nat)),
            st.fresh == fresh0,
        decreases level - j,
    {
        push_chars(&mut st.out, unit);
        st.col = sat_add_usize(st.col, unit.len());
        proof {
            lemma_sat_add_assoc(col0, indent_cols_spec(unit@.len(), j as nat), unit@.len());
            assert(st.out@ =~= out0 + repeat(unit@, j as nat + 1));
        }
        j += 1;
    }
    st
}

/// Computes [`indent_cols_spec`].
fn indent_cols(unit_len: usize, level: usize) -> (r: usize)
    ensures
        r as nat == indent_cols_spec(unit_len as nat, level as nat),
{
    let mut r: usize = 0;
    let mut j: usize = 0;
    while j < level
        invariant
            j <= level,
            r as nat == indent_cols_spec(unit_len as nat, j as nat),
        decreases level - j,
    {
        r = sat_add_usize(r, unit_len);
        j += 1;
    }
    r
}

/// Puts literal text, writing the indent first on a fresh line.
fn put_text_exec(st: RBuf, unit: &Str, level: usize, t: &Str) -> (r: RBuf)
    ensures
        r.view_st() == put_text(st.view_st(), unit@, level as nat, t@),
{
    if t.len() == 0 {
        return st;
    }
    let mut st = if st.fresh {
        put_pad(st, unit, level)
    } else {
        st
    };
    push_chars(&mut st.out, t);
    st.col = sat_add_usize(st.col, t.len());
    st.fresh = false;
    st
}

/// Emits one line break.
fn put_break_exec(st: RBuf) -> (r: RBuf)
    ensures
        r.view_st() == put_break(st.view_st()),
{
    let mut st = st;
    st.out.push('\n');
    st.col = 0;
    st.fresh = true;
    st
}

/// Renders an instruction list into the running state.
fn render_into(
    docs: &Vec<DocNode>,
    unit: &Str,
    maxw: usize,
    level: usize,
    broken: bool,
    st: RBuf,
) -> (r: RBuf)
    ensures
        r.view_st() == render_docs(
            view_docs(docs@),
            unit@,
            maxw as nat,
            level as nat,
            broken,
            st.view_st(),
        ),
    decreases docs@,
{
    let ghost dv = view_docs(docs@);
    let ghost st0 = st.view_st();
    proof {
        lemma_view_docs_index(docs@);
    }
    proof {
        assert(dv.subrange(0, dv.len() as int) =~= dv);
    }
    let mut st = st;
    let mut i: usize = 0;
    while i < docs.len()
        invariant
            i <= docs@.len(),
            dv == view_docs(docs@),
            dv.len() == docs@.len(),
            forall|j: int| 0 <= j < docs@.len() ==> dv[j] == view_doc(#[trigger] docs@[j]),
            render_docs(dv, unit@, maxw as nat, level as nat, broken, st0) == render_docs(
                dv.subrange(i as int, dv.len() as int),
                unit@,
                maxw as nat,
                level as nat,
                broken,
                st.view_st(),
            ),
        decreases docs@.len() - i,
    {
        let ghost stpre = st.view_st();
        match &docs[i] {
            DocNode::Text(t) => {
                st = put_text_exec(st, unit, level, t);
            },
            DocNode::Space => {
                if broken {
                    st = put_break_exec(st);
                } else {
                    let space = Str::borrowed(" ");
                    proof {
                        reveal_strlit(" ");
                        assert(space@ =~= seq![' ']);
                    }
                    st = put_text_exec(st, unit, level, &space);
                }
            },
            DocNode::Break => {
                if broken {
                    st = put_break_exec(st);
                }
            },
            DocNode::Group(c) => {
                let eff: usize = if st.fresh {
                    indent_cols(unit.len(), level)
                } else {
                    st.col
                };
                let m = measure(c);
                let total = sat_add_usize(eff, m);
                let fits = total <= maxw;
                proof {
                    assert(decreases_to!(docs@ => docs@[i as int]));
                }
                st = render_into(c, unit, maxw, level, !fits, st);
            },
            DocNode::Indent(c) => {
                proof {
                    assert(decreases_to!(docs@ => docs@[i as int]));
                }
                st = render_into(c, unit, maxw, sat_add_usize(level, 1), broken, st);
            },
        }
        proof {
            assert(st.view_st() == render_doc(
                dv[i as int],
                unit@,
                maxw as nat,
                level as nat,
                broken,
                stpre,
            ));
            lemma_render_docs_suffix(dv, unit@, maxw as nat, level as nat, broken, stpre, i as int);
        }
        i += 1;
    }
    proof {
        assert(dv.subrange(dv.len() as int, dv.len() as int) =~= Seq::<DocV>::empty());
    }
    st
}

/// Renders a document against a column limit.
pub fn render(docs: &Vec<DocNode>, indent: &Str, max_width: usize) -> (r: String)
    ensures
        r@ == render_spec(view_docs(docs@), indent@, max_width as nat),
{
    let m = measure(docs);
    let fits = m <= max_width;
    let st = RBuf { out: Vec::new(), col: 0, fresh: true };
    proof {
        assert(st.view_st().out =~= Seq::<char>::empty());
    }
    let st = render_into(docs, indent, max_width, 0, !fits, st);
    string_from_chars(&st.out)
}


// ---------------------------------------------------------------------------
// What rendering preserves
// ---------------------------------------------------------------------------
/// The concatenation of the literal texts of a run of instructions.
pub open spec fn texts_concat(docs: Seq<DocV>) -> Seq<char>
    decreases docs.len(),
{
    if docs.len() == 0 {
        Seq::empty()
    } else {
        (match docs[0] {
            DocV::Text(t) => t,
            _ => Seq::empty(),
        }) + texts_concat(docs.drop_first())
    }
}

/// Text concatenation distributes over instruction concatenation.
pub proof fn lemma_texts_concat_cat(a: Seq<DocV>, b: Seq<DocV>)
    ensures
        texts_concat(a + b) == texts_concat(a) + texts_concat(b),
    decreases a.len(),
{
    if a.len() == 0 {
        assert(a + b =~= b);
        assert(texts_concat(a + b) =~= texts_concat(a) + texts_concat(b));
    } else {
        lemma_texts_concat_cat(a.drop_first(), b);
        assert((a + b)[0] == a[0]);
        assert((a + b).drop_first() =~= a.drop_first() + b);
        assert(texts_concat(a + b) =~= texts_concat(a) + texts_concat(b));
    }
}

/// Rendering one instruction only ever appends to the output.
pub proof fn lemma_render_doc_appends(
    d: DocV,
    unit: Seq<char>,
    maxw: nat,
    level: nat,
    broken: bool,
    st: RState,
)
    ensures
        exists|rest: Seq<char>|
            render_doc(d, unit, maxw, level, broken, st).out == st.out + rest,
    decreases d,
{
    match d {
        DocV::Text(t) => {
            if t.len() == 0 {
                assert(st.out =~= st.out + Seq::<char>::empty());
            } else {
                let pad = if st.fresh {
                    repeat(unit, level)
                } else {
                    Seq::empty()
                };
                assert(put_text(st, unit, level, t).out == st.out + (pad + t)) by {
                    assert(st.out + pad + t =~= st.out + (pad + t));
                }
            }
        },
        DocV::Space => {
            if broken {
                assert(st.out.push('\n') =~= st.out + seq!['\n']);
            } else {
                let pad = if st.fresh {
                    repeat(unit, level)
                } else {
                    Seq::empty()
                };
                assert(put_text(st, unit, level, seq![' ']).out == st.out + (pad + seq![' '])) by {
                    assert(st.out + pad + seq![' '] =~= st.out + (pad + seq![' ']));
                }
            }
        },
        DocV::Break => {
            if broken {
                assert(st.out.push('\n') =~= st.out + seq!['\n']);
            } else {
                assert(st.out =~= st.out + Seq::<char>::empty());
            }
        },
        DocV::Group(c) => {
            let fits = sat_add(effective_col(st, unit, level), measure_docs(c)) <= maxw;
            lemma_render_docs_appends(c, unit, maxw, level, !fits, st);
        },
        DocV::Indent(c) => {
            lemma_render_docs_appends(c, unit, maxw, sat_add(level, 1), broken, st);
        },
    }
}

/// Rendering a list only ever appends to the output: text already emitted
/// is never reordered, edited or dropped.
pub proof fn lemma_render_docs_appends(
    s: Seq<DocV>,
    unit: Seq<char>,
    maxw: nat,
    level: nat,
    broken: bool,
    st: RState,
)
    ensures
        exists|rest: Seq<char>|
            render_docs(s, unit, maxw, level, broken, st).out == st.out + rest,
    decreases s,
{
    if s.len() == 0 {
        assert(st.out =~= st.out + Seq::<char>::empty());
    } else {
        let st1 = render_doc(s[0], unit, maxw, level, broken, st);
        lemma_render_doc_appends(s[0], unit, maxw, level, broken, st);
        lemma_render_docs_appends(s.drop_first(), unit, maxw, level, broken, st1);
        let r1 = choose|rest: Seq<char>| st1.out == st.out + rest;
        let r2 = choose|rest: Seq<char>|
            render_docs(s.drop_first(), unit, maxw, level, broken, st1).out == st1.out + rest;
        assert(render_docs(s, unit, maxw, level, broken, st).out == st.out + (r1 + r2)) by {
            assert(st.out + r1 + r2 =~= st.out + (r1 + r2));
        }
    }
}

/// Quoted verbatim preservation, at the engine: a run of nothing but
/// literal text renders as exactly its concatenation, contiguously — after
/// at most one indent when the line is fresh — with no break and no space
/// inserted anywhere inside it.
pub proof fn lemma_render_text_run(
    s: Seq<DocV>,
    unit: Seq<char>,
    maxw: nat,
    level: nat,
    broken: bool,
    st: RState,
)
    requires
        forall|k: int| 0 <= k < s.len() ==> s[k] is Text,
    ensures
        ({
            let out2 = render_docs(s, unit, maxw, level, broken, st).out;
            &&& !st.fresh ==> out2 == st.out + texts_concat(s)
            &&& st.fresh ==> out2 == st.out + texts_concat(s) || out2 == st.out + repeat(
                unit,
                level,
            ) + texts_concat(s)
        }),
    decreases s.len(),
{
    if s.len() == 0 {
        assert(st.out =~= st.out + texts_concat(s));
    } else {
        assert(s[0] is Text);
        let t = s[0]->Text_0;
        let st1 = put_text(st, unit, level, t);
        assert forall|k: int| 0 <= k < s.drop_first().len() implies s.drop_first()[k]
            is Text by {
            assert(s.drop_first()[k] == s[k + 1]);
        }
        lemma_render_text_run(s.drop_first(), unit, maxw, level, broken, st1);
        let rest = texts_concat(s.drop_first());
        assert(render_doc(s[0], unit, maxw, level, broken, st) == st1);
        let out2 = render_docs(s, unit, maxw, level, broken, st).out;
        assert(out2 == render_docs(s.drop_first(), unit, maxw, level, broken, st1).out);
        assert(texts_concat(s) == t + rest);
        if t.len() == 0 {
            assert(st1 == st);
            assert(texts_concat(s) =~= t + rest);
            assert(texts_concat(s) =~= rest);
            if !st.fresh {
                assert(out2 =~= st.out + texts_concat(s));
            }
        } else {
            assert(!st1.fresh);
            if st.fresh {
                assert(st1.out == st.out + repeat(unit, level) + t);
                assert(out2 == st1.out + rest);
                assert(out2 =~= st.out + repeat(unit, level) + texts_concat(s));
            } else {
                assert(st1.out == st.out + Seq::<char>::empty() + t);
                assert(out2 == st1.out + rest);
                assert(out2 =~= st.out + texts_concat(s));
            }
        }
    }
}


/// Rendering a concatenation is rendering the parts in order.
pub proof fn lemma_render_docs_concat(
    x: Seq<DocV>,
    y: Seq<DocV>,
    unit: Seq<char>,
    maxw: nat,
    level: nat,
    broken: bool,
    st: RState,
)
    ensures
        render_docs(x + y, unit, maxw, level, broken, st) == render_docs(
            y,
            unit,
            maxw,
            level,
            broken,
            render_docs(x, unit, maxw, level, broken, st),
        ),
    decreases x.len(),
{
    if x.len() == 0 {
        assert(x + y =~= y);
    } else {
        let st1 = render_doc(x[0], unit, maxw, level, broken, st);
        assert((x + y)[0] == x[0]);
        assert((x + y).drop_first() =~= x.drop_first() + y);
        lemma_render_docs_concat(x.drop_first(), y, unit, maxw, level, broken, st1);
    }
}

} // verus!
