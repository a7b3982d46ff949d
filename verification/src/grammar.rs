//! The grammar as mathematics: a functional parser over token sequences.
//! The executable parser is verified to return exactly what these
//! functions say, message text and spans included.

use vstd::prelude::*;
use crate::error::ErrV;
use crate::error::errv;
use crate::nodes::AttrV;
use crate::nodes::NodeV;
use crate::span_range::SpanV;
use crate::span_range::spanv;
use crate::strutil::byte_len;
use crate::strutil::is_ascii_ws;
use crate::strutil::is_name_char;
use crate::strutil::is_special;
use crate::strutil::is_ws;
use crate::tok::TokSpan;
use crate::tok::TokV;

verus! {

/// Outcome of a grammar function: a value, a parse error, or recursion
/// budget exhausted (which a sufficient budget never reaches).
pub ghost enum Parsed<T> {
    Good(T),
    Bad(ErrV),
    Spent,
}

pub type Toks = Seq<TokSpan>;

/// Debug name of a structural token, as it appears in error messages.
pub open spec fn tok_dbg(t: TokV) -> Seq<char> {
    match t {
        TokV::LAngle => "LAngle"@,
        TokV::RAngle => "RAngle"@,
        TokV::Slash => "Slash"@,
        TokV::LBrace => "LBrace"@,
        TokV::RBrace => "RBrace"@,
        TokV::Text(_) => Seq::empty(),
    }
}

pub open spec fn msg_expected(t: TokV) -> Seq<char> {
    "expected "@ + tok_dbg(t)
}

pub open spec fn msg_unexpected(t: TokV) -> Seq<char> {
    "unexpected token: "@ + tok_dbg(t)
}

pub open spec fn msg_unexpected_head(t: TokV) -> Seq<char> {
    "unexpected token in tag head: "@ + tok_dbg(t)
}

pub open spec fn msg_unexpected_body(t: TokV) -> Seq<char> {
    "unexpected token in element body: "@ + tok_dbg(t)
}

pub open spec fn msg_unmatched(name: Seq<char>) -> Seq<char> {
    "unmatched closing tag: expected </"@ + name + ">"@
}

pub open spec fn msg_attr_eq(name: Seq<char>) -> Seq<char> {
    "expected '=' after attribute '"@ + name + "'"@
}

pub open spec fn msg_attr_quote(name: Seq<char>) -> Seq<char> {
    "expected quote after '=' in attribute '"@ + name + "'"@
}

pub open spec fn msg_attr_unterminated(name: Seq<char>) -> Seq<char> {
    "unterminated quoted value for attribute '"@ + name + "'"@
}

/// Where an error at the front of `ts` points: the first token's span,
/// or a zero-width span at the end of the document.
pub open spec fn err_span(ts: Toks, be: int) -> SpanV {
    if ts.len() > 0 {
        ts[0].span
    } else {
        spanv(be, be)
    }
}

/// End of the document in bytes: where the last token ends.
pub open spec fn sp_byte_end(ts: Toks) -> int {
    if ts.len() == 0 {
        0
    } else {
        ts.last().span.end
    }
}

/// Consume one expected structural token.
pub open spec fn sp_expect(ts: Toks, want: TokV, be: int) -> Parsed<(SpanV, Toks)> {
    if ts.len() > 0 && ts[0].tok == want {
        Parsed::Good((ts[0].span, ts.drop_first()))
    } else {
        Parsed::Bad(errv(msg_expected(want), err_span(ts, be)))
    }
}

/// First index at or after `j` where a tag name ends: whitespace or a
/// structural character.
pub open spec fn sp_name_break(s: Seq<char>, j: int) -> int
    decreases s.len() - j,
    when 0 <= j <= s.len()
{
    if j >= s.len() {
        j
    } else if is_ws(s[j]) || is_special(s[j]) {
        j
    } else {
        sp_name_break(s, j + 1)
    }
}

/// Read a tag name from the front of a text token. The part of the token
/// after the name is put back in front of the remaining tokens, with a
/// span offset by the name's byte length.
pub open spec fn sp_name(ts: Toks, be: int) -> Parsed<(Seq<char>, SpanV, Toks)> {
    if ts.len() == 0 {
        Parsed::Bad(errv("unexpected EOF when reading tag name"@, spanv(be, be)))
    } else {
        match ts[0].tok {
            TokV::Text(s) => {
                let ne = sp_name_break(s, 0);
                if ne == 0 {
                    Parsed::Bad(errv("invalid tag name"@, ts[0].span))
                } else {
                    let name = s.take(ne);
                    let rem = s.skip(ne);
                    let cut = ts[0].span.start + byte_len(name);
                    let rest = if rem.len() > 0 {
                        seq![
                            TokSpan { tok: TokV::Text(rem), span: spanv(cut, ts[0].span.end) },
                        ] + ts.drop_first()
                    } else {
                        ts.drop_first()
                    };
                    Parsed::Good((name, spanv(ts[0].span.start, cut), rest))
                }
            },
            _ => Parsed::Bad(errv("expected tag name"@, ts[0].span)),
        }
    }
}

/// Greedily merge the text tokens at the front: their concatenated value,
/// the end position of the last one, and what follows them.
pub open spec fn sp_texts(ts: Toks) -> (Seq<char>, int, Toks)
    decreases ts.len(),
{
    if ts.len() > 0 {
        match ts[0].tok {
            TokV::Text(s) => {
                let tail = sp_texts(ts.drop_first());
                let more = ts.drop_first().len() > 0 && (ts.drop_first()[0].tok matches TokV::Text(_));
                (s + tail.0, if more { tail.1 } else { ts[0].span.end }, tail.2)
            },
            _ => (Seq::empty(), 0, ts),
        }
    } else {
        (Seq::empty(), 0, ts)
    }
}

/// One `Text` node from the maximal run of text tokens at the front.
pub open spec fn sp_text(ts: Toks, be: int) -> Parsed<(NodeV, Toks)> {
    if ts.len() > 0 && (ts[0].tok matches TokV::Text(_)) {
        let merged = sp_texts(ts);
        Parsed::Good(
            (NodeV::Text { value: merged.0, span: spanv(ts[0].span.start, merged.1) }, merged.2),
        )
    } else {
        Parsed::Bad(errv("expected text"@, err_span(ts, be)))
    }
}

/// Everything between `{` and the matching `}`: the expression source and
/// the end position of the closing brace. A nested `{` is rejected.
pub open spec fn sp_i11n_body(ts: Toks, be: int) -> Parsed<(Seq<char>, int, Toks)>
    decreases ts.len(),
{
    if ts.len() == 0 {
        Parsed::Bad(errv("unexpected EOF in { }"@, spanv(be, be)))
    } else {
        match ts[0].tok {
            TokV::RBrace => Parsed::Good((Seq::empty(), ts[0].span.end, ts.drop_first())),
            TokV::Text(s) => match sp_i11n_body(ts.drop_first(), be) {
                Parsed::Good((v, e, rest)) => Parsed::Good((s + v, e, rest)),
                Parsed::Bad(e) => Parsed::Bad(e),
                Parsed::Spent => Parsed::Spent,
            },
            TokV::LBrace => Parsed::Bad(errv("nested '{' in interpolation"@, ts[0].span)),
            _ => Parsed::Bad(errv("unexpected token inside { }"@, ts[0].span)),
        }
    }
}

/// One interpolation node: `{ expr }`.
pub open spec fn sp_i11n(ts: Toks, be: int) -> Parsed<(NodeV, Toks)> {
    match sp_expect(ts, TokV::LBrace, be) {
        Parsed::Good((lsp, ts1)) => match sp_i11n_body(ts1, be) {
            Parsed::Good((v, e, rest)) => Parsed::Good(
                (NodeV::Interp { expr: v, span: spanv(lsp.start, e) }, rest),
            ),
            Parsed::Bad(er) => Parsed::Bad(er),
            Parsed::Spent => Parsed::Spent,
        },
        Parsed::Bad(er) => Parsed::Bad(er),
        Parsed::Spent => Parsed::Spent,
    }
}

/// Outcome of scanning a tag head after the name: the collected attribute
/// buffer, its span (when any text was collected), how the head closed and
/// what follows it.
pub ghost enum HeadV {
    SelfClose { src: Seq<char>, aspan: Option<(int, int)>, end: int, rest: Toks },
    Open { src: Seq<char>, aspan: Option<(int, int)>, gt_end: int, rest: Toks },
}

/// Extend an attribute-buffer span to the left with one more text token.
pub open spec fn aspan_put(first: SpanV, sub: Option<(int, int)>) -> Option<(int, int)> {
    match sub {
        None => Some((first.start, first.end)),
        Some((_a, b)) => Some((first.start, b)),
    }
}

/// Scan a tag head after the name, up to `>` or `/>`.
pub open spec fn sp_tag_head(ts: Toks, be: int) -> Parsed<HeadV>
    decreases ts.len(),
{
    if ts.len() == 0 {
        Parsed::Bad(errv("unexpected EOF in tag head"@, spanv(be, be)))
    } else {
        match ts[0].tok {
            TokV::Slash => if ts.len() >= 2 && ts[1].tok == TokV::RAngle {
                Parsed::Good(
                    HeadV::SelfClose {
                        src: Seq::empty(),
                        aspan: None,
                        end: ts[1].span.end,
                        rest: ts.skip(2),
                    },
                )
            } else {
                Parsed::Bad(errv("unexpected '/' in tag head"@, ts[0].span))
            },
            TokV::RAngle => Parsed::Good(
                HeadV::Open {
                    src: Seq::empty(),
                    aspan: None,
                    gt_end: ts[0].span.end,
                    rest: ts.drop_first(),
                },
            ),
            TokV::Text(s) => match sp_tag_head(ts.drop_first(), be) {
                Parsed::Good(HeadV::SelfClose { src, aspan, end, rest }) => Parsed::Good(
                    HeadV::SelfClose {
                        src: s + src,
                        aspan: aspan_put(ts[0].span, aspan),
                        end,
                        rest,
                    },
                ),
                Parsed::Good(HeadV::Open { src, aspan, gt_end, rest }) => Parsed::Good(
                    HeadV::Open {
                        src: s + src,
                        aspan: aspan_put(ts[0].span, aspan),
                        gt_end,
                        rest,
                    },
                ),
                Parsed::Bad(e) => Parsed::Bad(e),
                Parsed::Spent => Parsed::Spent,
            },
            _ => Parsed::Bad(errv(msg_unexpected_head(ts[0].tok), ts[0].span)),
        }
    }
}

/// First index at or after `j` that is not ASCII whitespace.
pub open spec fn sp_skip_ws(s: Seq<char>, j: int) -> int
    decreases s.len() - j,
    when 0 <= j <= s.len()
{
    if j >= s.len() {
        j
    } else if is_ascii_ws(s[j]) {
        sp_skip_ws(s, j + 1)
    } else {
        j
    }
}

pub proof fn lemma_skip_ws_bounds(s: Seq<char>, j: int)
    requires
        0 <= j <= s.len(),
    ensures
        j <= sp_skip_ws(s, j) <= s.len(),
    decreases s.len() - j,
{
    if j < s.len() && is_ascii_ws(s[j]) {
        lemma_skip_ws_bounds(s, j + 1);
    }
}

/// First index at or after `j` that is not an attribute-name character.
pub open spec fn sp_name_run(s: Seq<char>, j: int) -> int
    decreases s.len() - j,
    when 0 <= j <= s.len()
{
    if j >= s.len() {
        j
    } else if is_name_char(s[j]) {
        sp_name_run(s, j + 1)
    } else {
        j
    }
}

pub proof fn lemma_name_run_bounds(s: Seq<char>, j: int)
    requires
        0 <= j <= s.len(),
    ensures
        j <= sp_name_run(s, j) <= s.len(),
    decreases s.len() - j,
{
    if j < s.len() && is_name_char(s[j]) {
        lemma_name_run_bounds(s, j + 1);
    }
}

/// First index at or after `j` holding the character `q`, or the length.
pub open spec fn sp_find(s: Seq<char>, j: int, q: char) -> int
    decreases s.len() - j,
    when 0 <= j <= s.len()
{
    if j >= s.len() {
        j
    } else if s[j] == q {
        j
    } else {
        sp_find(s, j + 1, q)
    }
}

pub proof fn lemma_find_bounds(s: Seq<char>, j: int, q: char)
    requires
        0 <= j <= s.len(),
    ensures
        j <= sp_find(s, j, q) <= s.len(),
    decreases s.len() - j,
{
    if j < s.len() && s[j] != q {
        lemma_find_bounds(s, j + 1, q);
    }
}

/// Attributes from index `j` of the buffer on, `j` already past any
/// whitespace. All attributes carry the buffer's span.
pub open spec fn sp_attrs_from(s: Seq<char>, j: int, span: SpanV) -> Parsed<Seq<AttrV>>
    decreases s.len() - j,
    when 0 <= j <= s.len()
    via sp_attrs_from_dec
{
    if j >= s.len() {
        Parsed::Good(Seq::empty())
    } else {
        let ne = sp_name_run(s, j);
        if ne == j {
            Parsed::Bad(errv("invalid attribute name"@, span))
        } else {
            let name = s.subrange(j, ne);
            let k = sp_skip_ws(s, ne);
            if k >= s.len() || s[k] != '=' {
                Parsed::Bad(errv(msg_attr_eq(name), span))
            } else {
                let q = sp_skip_ws(s, k + 1);
                if q >= s.len() || (s[q] != '"' && s[q] != '\'') {
                    Parsed::Bad(errv(msg_attr_quote(name), span))
                } else {
                    let ve = sp_find(s, q + 1, s[q]);
                    if ve >= s.len() {
                        Parsed::Bad(errv(msg_attr_unterminated(name), span))
                    } else {
                        let value = s.subrange(q + 1, ve);
                        match sp_attrs_from(s, sp_skip_ws(s, ve + 1), span) {
                            Parsed::Good(rest) => Parsed::Good(
                                seq![AttrV { name, value, span }] + rest,
                            ),
                            Parsed::Bad(e) => Parsed::Bad(e),
                            Parsed::Spent => Parsed::Spent,
                        }
                    }
                }
            }
        }
    }
}

#[via_fn]
proof fn sp_attrs_from_dec(s: Seq<char>, j: int, span: SpanV) {
    if 0 <= j < s.len() {
        let ne = sp_name_run(s, j);
        lemma_name_run_bounds(s, j);
        if ne != j {
            let k = sp_skip_ws(s, ne);
            lemma_skip_ws_bounds(s, ne);
            if !(k >= s.len() || s[k] != '=') {
                let q = sp_skip_ws(s, k + 1);
                lemma_skip_ws_bounds(s, k + 1);
                if !(q >= s.len() || (s[q] != '"' && s[q] != '\'')) {
                    let ve = sp_find(s, q + 1, s[q]);
                    lemma_find_bounds(s, q + 1, s[q]);
                    if ve < s.len() {
                        lemma_skip_ws_bounds(s, ve + 1);
                    }
                }
            }
        }
    }
}

/// The attribute sub-parser: the ordered `name="value"` pairs of a
/// tag-head buffer.
pub open spec fn sp_attrs(s: Seq<char>, span: SpanV) -> Parsed<Seq<AttrV>> {
    sp_attrs_from(s, sp_skip_ws(s, 0), span)
}

/// The span every attribute of this element carries: the buffer's span
/// when text was collected, else the given defaults.
pub open spec fn aspan_or(a: Option<(int, int)>, ds: int, de: int) -> SpanV {
    match a {
        Some((x, y)) => spanv(x, y),
        None => spanv(ds, de),
    }
}

/// One element: `<name ...>children</name>` or `<name .../>`.
pub open spec fn sp_element(ts: Toks, be: int, fuel: nat) -> Parsed<(NodeV, Toks)>
    decreases fuel, 1int,
{
    match sp_expect(ts, TokV::LAngle, be) {
        Parsed::Bad(e) => Parsed::Bad(e),
        Parsed::Spent => Parsed::Spent,
        Parsed::Good((lsp, ts1)) => match sp_name(ts1, be) {
            Parsed::Bad(e) => Parsed::Bad(e),
            Parsed::Spent => Parsed::Spent,
            Parsed::Good((name, _nsp, ts2)) => match sp_tag_head(ts2, be) {
                Parsed::Bad(e) => Parsed::Bad(e),
                Parsed::Spent => Parsed::Spent,
                Parsed::Good(HeadV::SelfClose { src, aspan, end, rest }) => match sp_attrs(
                    src,
                    aspan_or(aspan, lsp.start, lsp.start),
                ) {
                    Parsed::Bad(e) => Parsed::Bad(e),
                    Parsed::Spent => Parsed::Spent,
                    Parsed::Good(attrs) => Parsed::Good(
                        (
                            NodeV::Element {
                                name,
                                attrs,
                                children: Seq::empty(),
                                span: spanv(lsp.start, end),
                            },
                            rest,
                        ),
                    ),
                },
                Parsed::Good(HeadV::Open { src, aspan, gt_end, rest }) => match sp_attrs(
                    src,
                    aspan_or(aspan, lsp.start, gt_end),
                ) {
                    Parsed::Bad(e) => Parsed::Bad(e),
                    Parsed::Spent => Parsed::Spent,
                    Parsed::Good(attrs) => if fuel == 0 {
                        Parsed::Spent
                    } else {
                        match sp_children(name, rest, be, (fuel - 1) as nat) {
                            Parsed::Bad(e) => Parsed::Bad(e),
                            Parsed::Spent => Parsed::Spent,
                            Parsed::Good((children, end, ts3)) => Parsed::Good(
                                (
                                    NodeV::Element {
                                        name,
                                        attrs,
                                        children,
                                        span: spanv(lsp.start, end),
                                    },
                                    ts3,
                                ),
                            ),
                        }
                    },
                },
            },
        },
    }
}

/// The children of an open element, up to the matching `</name>`: the
/// child nodes, the byte position after the closing `>`, and the rest.
pub open spec fn sp_children(name: Seq<char>, ts: Toks, be: int, fuel: nat) -> Parsed<
    (Seq<NodeV>, int, Toks),
>
    decreases fuel, 2int,
{
    if ts.len() == 0 {
        Parsed::Bad(errv("unexpected EOF in element body"@, spanv(be, be)))
    } else {
        match ts[0].tok {
            TokV::LAngle => if ts.len() >= 2 && ts[1].tok == TokV::Slash {
                match sp_name(ts.skip(2), be) {
                    Parsed::Bad(e) => Parsed::Bad(e),
                    Parsed::Spent => Parsed::Spent,
                    Parsed::Good((cname, csp, ts2)) => if cname != name {
                        Parsed::Bad(errv(msg_unmatched(name), csp))
                    } else {
                        match sp_expect(ts2, TokV::RAngle, be) {
                            Parsed::Bad(e) => Parsed::Bad(e),
                            Parsed::Spent => Parsed::Spent,
                            Parsed::Good((rsp, ts3)) => Parsed::Good((Seq::empty(), rsp.end, ts3)),
                        }
                    },
                }
            } else {
                match sp_element(ts, be, fuel) {
                    Parsed::Bad(e) => Parsed::Bad(e),
                    Parsed::Spent => Parsed::Spent,
                    Parsed::Good((child, ts2)) => if fuel == 0 {
                        Parsed::Spent
                    } else {
                        match sp_children(name, ts2, be, (fuel - 1) as nat) {
                            Parsed::Bad(e) => Parsed::Bad(e),
                            Parsed::Spent => Parsed::Spent,
                            Parsed::Good((ch, end, ts3)) => Parsed::Good(
                                (seq![child] + ch, end, ts3),
                            ),
                        }
                    },
                }
            },
            TokV::LBrace => match sp_i11n(ts, be) {
                Parsed::Bad(e) => Parsed::Bad(e),
                Parsed::Spent => Parsed::Spent,
                Parsed::Good((child, ts2)) => if fuel == 0 {
                    Parsed::Spent
                } else {
                    match sp_children(name, ts2, be, (fuel - 1) as nat) {
                        Parsed::Bad(e) => Parsed::Bad(e),
                        Parsed::Spent => Parsed::Spent,
                        Parsed::Good((ch, end, ts3)) => Parsed::Good((seq![child] + ch, end, ts3)),
                    }
                },
            },
            TokV::Text(_) => match sp_text(ts, be) {
                Parsed::Bad(e) => Parsed::Bad(e),
                Parsed::Spent => Parsed::Spent,
                Parsed::Good((child, ts2)) => if fuel == 0 {
                    Parsed::Spent
                } else {
                    match sp_children(name, ts2, be, (fuel - 1) as nat) {
                        Parsed::Bad(e) => Parsed::Bad(e),
                        Parsed::Spent => Parsed::Spent,
                        Parsed::Good((ch, end, ts3)) => Parsed::Good((seq![child] + ch, end, ts3)),
                    }
                },
            },
            _ => Parsed::Bad(errv(msg_unexpected_body(ts[0].tok), ts[0].span)),
        }
    }
}

/// A sequence of sibling nodes running to the end of the input.
pub open spec fn sp_nodes(ts: Toks, be: int, fuel: nat) -> Parsed<Seq<NodeV>>
    decreases fuel, 3int,
{
    if ts.len() == 0 {
        Parsed::Good(Seq::empty())
    } else {
        match ts[0].tok {
            TokV::LAngle => match sp_element(ts, be, fuel) {
                Parsed::Bad(e) => Parsed::Bad(e),
                Parsed::Spent => Parsed::Spent,
                Parsed::Good((n, ts2)) => if fuel == 0 {
                    Parsed::Spent
                } else {
                    match sp_nodes(ts2, be, (fuel - 1) as nat) {
                        Parsed::Bad(e) => Parsed::Bad(e),
                        Parsed::Spent => Parsed::Spent,
                        Parsed::Good(ns) => Parsed::Good(seq![n] + ns),
                    }
                },
            },
            TokV::LBrace => match sp_i11n(ts, be) {
                Parsed::Bad(e) => Parsed::Bad(e),
                Parsed::Spent => Parsed::Spent,
                Parsed::Good((n, ts2)) => if fuel == 0 {
                    Parsed::Spent
                } else {
                    match sp_nodes(ts2, be, (fuel - 1) as nat) {
                        Parsed::Bad(e) => Parsed::Bad(e),
                        Parsed::Spent => Parsed::Spent,
                        Parsed::Good(ns) => Parsed::Good(seq![n] + ns),
                    }
                },
            },
            TokV::Text(_) => match sp_text(ts, be) {
                Parsed::Bad(e) => Parsed::Bad(e),
                Parsed::Spent => Parsed::Spent,
                Parsed::Good((n, ts2)) => if fuel == 0 {
                    Parsed::Spent
                } else {
                    match sp_nodes(ts2, be, (fuel - 1) as nat) {
                        Parsed::Bad(e) => Parsed::Bad(e),
                        Parsed::Spent => Parsed::Spent,
                        Parsed::Good(ns) => Parsed::Good(seq![n] + ns),
                    }
                },
            },
            _ => Parsed::Bad(errv(msg_unexpected(ts[0].tok), ts[0].span)),
        }
    }
}

/// A recursion budget that is always sufficient: one unit per token,
/// plus one.
pub open spec fn doc_fuel(ts: Toks) -> nat {
    ts.len() + 1
}

/// The parse of a token sequence at the canonical budget.
pub open spec fn run_nodes(ts: Toks, be: int) -> Parsed<Seq<NodeV>> {
    sp_nodes(ts, be, doc_fuel(ts))
}

/// What parsing a source string returns: the mathematical meaning of the
/// whole pipeline, lexer and parser together.
pub open spec fn spec_parse(s: Seq<char>) -> Parsed<Seq<NodeV>> {
    let ts = crate::lexer::spec_tokens(s);
    run_nodes(ts, sp_byte_end(ts))
}

/// The element parse at the canonical budget.
pub open spec fn run_element(ts: Toks, be: int) -> Parsed<(NodeV, Toks)> {
    sp_element(ts, be, doc_fuel(ts))
}

/// The children parse at the canonical budget.
pub open spec fn run_children(name: Seq<char>, ts: Toks, be: int) -> Parsed<(Seq<NodeV>, int, Toks)> {
    sp_children(name, ts, be, doc_fuel(ts))
}

pub proof fn lemma_name_shrink(ts: Toks, be: int)
    ensures
        match sp_name(ts, be) {
            Parsed::Good((name, nsp, r)) => ts.len() >= 1 && r.len() <= ts.len(),
            _ => true,
        },
{
}

pub proof fn lemma_texts_shrink(ts: Toks)
    ensures
        sp_texts(ts).2.len() <= ts.len(),
        ts.len() > 0 && (ts[0].tok matches TokV::Text(_)) ==> sp_texts(ts).2.len() < ts.len(),
    decreases ts.len(),
{
    if ts.len() > 0 {
        match ts[0].tok {
            TokV::Text(_) => {
                lemma_texts_shrink(ts.drop_first());
            },
            _ => {},
        }
    }
}

pub proof fn lemma_text_shrink(ts: Toks, be: int)
    ensures
        match sp_text(ts, be) {
            Parsed::Good((n, r)) => r.len() < ts.len(),
            _ => true,
        },
{
    lemma_texts_shrink(ts);
}

pub proof fn lemma_i11n_body_shrink(ts: Toks, be: int)
    ensures
        match sp_i11n_body(ts, be) {
            Parsed::Good((v, e, r)) => r.len() < ts.len(),
            _ => true,
        },
    decreases ts.len(),
{
    if ts.len() > 0 {
        match ts[0].tok {
            TokV::Text(_) => {
                lemma_i11n_body_shrink(ts.drop_first(), be);
            },
            _ => {},
        }
    }
}

pub proof fn lemma_i11n_shrink(ts: Toks, be: int)
    ensures
        match sp_i11n(ts, be) {
            Parsed::Good((n, r)) => r.len() < ts.len(),
            _ => true,
        },
{
    match sp_expect(ts, TokV::LBrace, be) {
        Parsed::Good((lsp, ts1)) => {
            lemma_i11n_body_shrink(ts1, be);
        },
        _ => {},
    }
}

pub proof fn lemma_head_shrink(ts: Toks, be: int)
    ensures
        match sp_tag_head(ts, be) {
            Parsed::Good(HeadV::SelfClose { src, aspan, end, rest }) => rest.len() < ts.len(),
            Parsed::Good(HeadV::Open { src, aspan, gt_end, rest }) => rest.len() < ts.len(),
            _ => true,
        },
    decreases ts.len(),
{
    if ts.len() > 0 {
        match ts[0].tok {
            TokV::Text(_) => {
                lemma_head_shrink(ts.drop_first(), be);
            },
            _ => {},
        }
    }
}

pub proof fn lemma_element_shrink(ts: Toks, be: int, fuel: nat)
    ensures
        match sp_element(ts, be, fuel) {
            Parsed::Good((n, r)) => r.len() < ts.len(),
            _ => true,
        },
    decreases fuel, 1int,
{
    match sp_expect(ts, TokV::LAngle, be) {
        Parsed::Good((lsp, ts1)) => match sp_name(ts1, be) {
            Parsed::Good((name, _nsp, ts2)) => {
                lemma_name_shrink(ts1, be);
                lemma_head_shrink(ts2, be);
                match sp_tag_head(ts2, be) {
                    Parsed::Good(HeadV::Open { src, aspan, gt_end, rest }) => {
                        if fuel > 0 {
                            lemma_children_shrink(name, rest, be, (fuel - 1) as nat);
                        }
                    },
                    _ => {},
                }
            },
            _ => {},
        },
        _ => {},
    }
}

pub proof fn lemma_children_shrink(name: Seq<char>, ts: Toks, be: int, fuel: nat)
    ensures
        match sp_children(name, ts, be, fuel) {
            Parsed::Good((ch, end, r)) => r.len() < ts.len(),
            _ => true,
        },
    decreases fuel, 2int,
{
    if ts.len() > 0 {
        match ts[0].tok {
            TokV::LAngle => {
                if ts.len() >= 2 && ts[1].tok == TokV::Slash {
                    lemma_name_shrink(ts.skip(2), be);
                } else {
                    lemma_element_shrink(ts, be, fuel);
                    match sp_element(ts, be, fuel) {
                        Parsed::Good((child, ts2)) => {
                            if fuel > 0 {
                                lemma_children_shrink(name, ts2, be, (fuel - 1) as nat);
                            }
                        },
                        _ => {},
                    }
                }
            },
            TokV::LBrace => {
                lemma_i11n_shrink(ts, be);
                match sp_i11n(ts, be) {
                    Parsed::Good((child, ts2)) => {
                        if fuel > 0 {
                            lemma_children_shrink(name, ts2, be, (fuel - 1) as nat);
                        }
                    },
                    _ => {},
                }
            },
            TokV::Text(_) => {
                lemma_text_shrink(ts, be);
                match sp_text(ts, be) {
                    Parsed::Good((child, ts2)) => {
                        if fuel > 0 {
                            lemma_children_shrink(name, ts2, be, (fuel - 1) as nat);
                        }
                    },
                    _ => {},
                }
            },
            _ => {},
        }
    }
}

/// Any budget of at least one unit per token, plus one, gives the same
/// element parse.
pub proof fn lemma_element_fuel(ts: Toks, be: int, f1: nat, f2: nat)
    requires
        f1 >= ts.len() + 1,
        f2 >= ts.len() + 1,
    ensures
        sp_element(ts, be, f1) == sp_element(ts, be, f2),
    decreases f1, 1int,
{
    match sp_expect(ts, TokV::LAngle, be) {
        Parsed::Good((lsp, ts1)) => match sp_name(ts1, be) {
            Parsed::Good((name, _nsp, ts2)) => {
                lemma_name_shrink(ts1, be);
                lemma_head_shrink(ts2, be);
                match sp_tag_head(ts2, be) {
                    Parsed::Good(HeadV::Open { src, aspan, gt_end, rest }) => {
                        lemma_children_fuel(name, rest, be, (f1 - 1) as nat, (f2 - 1) as nat);
                    },
                    _ => {},
                }
            },
            _ => {},
        },
        _ => {},
    }
}

pub proof fn lemma_children_fuel(name: Seq<char>, ts: Toks, be: int, f1: nat, f2: nat)
    requires
        f1 >= ts.len() + 1,
        f2 >= ts.len() + 1,
    ensures
        sp_children(name, ts, be, f1) == sp_children(name, ts, be, f2),
    decreases f1, 2int,
{
    if ts.len() > 0 {
        match ts[0].tok {
            TokV::LAngle => {
                if !(ts.len() >= 2 && ts[1].tok == TokV::Slash) {
                    lemma_element_fuel(ts, be, f1, f2);
                    lemma_element_shrink(ts, be, f1);
                    match sp_element(ts, be, f1) {
                        Parsed::Good((child, ts2)) => {
                            lemma_children_fuel(name, ts2, be, (f1 - 1) as nat, (f2 - 1) as nat);
                        },
                        _ => {},
                    }
                }
            },
            TokV::LBrace => {
                lemma_i11n_shrink(ts, be);
                match sp_i11n(ts, be) {
                    Parsed::Good((child, ts2)) => {
                        lemma_children_fuel(name, ts2, be, (f1 - 1) as nat, (f2 - 1) as nat);
                    },
                    _ => {},
                }
            },
            TokV::Text(_) => {
                lemma_text_shrink(ts, be);
                match sp_text(ts, be) {
                    Parsed::Good((child, ts2)) => {
                        lemma_children_fuel(name, ts2, be, (f1 - 1) as nat, (f2 - 1) as nat);
                    },
                    _ => {},
                }
            },
            _ => {},
        }
    }
}

pub proof fn lemma_i11n_body_defined(ts: Toks, be: int)
    ensures
        !(sp_i11n_body(ts, be) is Spent),
    decreases ts.len(),
{
    if ts.len() > 0 {
        match ts[0].tok {
            TokV::Text(_) => {
                lemma_i11n_body_defined(ts.drop_first(), be);
            },
            _ => {},
        }
    }
}

pub proof fn lemma_tag_head_defined(ts: Toks, be: int)
    ensures
        !(sp_tag_head(ts, be) is Spent),
    decreases ts.len(),
{
    if ts.len() > 0 {
        match ts[0].tok {
            TokV::Text(_) => {
                lemma_tag_head_defined(ts.drop_first(), be);
            },
            _ => {},
        }
    }
}

pub proof fn lemma_attrs_defined(s: Seq<char>, j: int, span: SpanV)
    requires
        0 <= j <= s.len(),
    ensures
        !(sp_attrs_from(s, j, span) is Spent),
    decreases s.len() - j,
{
    if j < s.len() {
        let ne = sp_name_run(s, j);
        lemma_name_run_bounds(s, j);
        if ne != j {
            let k = sp_skip_ws(s, ne);
            lemma_skip_ws_bounds(s, ne);
            if !(k >= s.len() || s[k] != '=') {
                let q = sp_skip_ws(s, k + 1);
                lemma_skip_ws_bounds(s, k + 1);
                if !(q >= s.len() || (s[q] != '"' && s[q] != '\'')) {
                    let ve = sp_find(s, q + 1, s[q]);
                    lemma_find_bounds(s, q + 1, s[q]);
                    if ve < s.len() {
                        lemma_skip_ws_bounds(s, ve + 1);
                        lemma_attrs_defined(s, sp_skip_ws(s, ve + 1), span);
                    }
                }
            }
        }
    }
}

/// With the canonical budget, the element parse always comes to a value
/// or an error, never to exhaustion.
pub proof fn lemma_element_defined(ts: Toks, be: int, fuel: nat)
    requires
        fuel >= ts.len() + 1,
    ensures
        !(sp_element(ts, be, fuel) is Spent),
    decreases fuel, 1int,
{
    match sp_expect(ts, TokV::LAngle, be) {
        Parsed::Good((lsp, ts1)) => match sp_name(ts1, be) {
            Parsed::Good((name, _nsp, ts2)) => {
                lemma_name_shrink(ts1, be);
                lemma_head_shrink(ts2, be);
                lemma_tag_head_defined(ts2, be);
                match sp_tag_head(ts2, be) {
                    Parsed::Good(HeadV::SelfClose { src, aspan, end, rest }) => {
                        lemma_skip_ws_bounds(src, 0);
                        lemma_attrs_defined(src, sp_skip_ws(src, 0), aspan_or(aspan, lsp.start, lsp.start));
                    },
                    Parsed::Good(HeadV::Open { src, aspan, gt_end, rest }) => {
                        lemma_skip_ws_bounds(src, 0);
                        lemma_attrs_defined(src, sp_skip_ws(src, 0), aspan_or(aspan, lsp.start, gt_end));
                        match sp_attrs(src, aspan_or(aspan, lsp.start, gt_end)) {
                            Parsed::Good(attrs) => {
                                lemma_children_defined(name, rest, be, (fuel - 1) as nat);
                            },
                            _ => {},
                        }
                    },
                    _ => {},
                }
            },
            _ => {},
        },
        _ => {},
    }
}

pub proof fn lemma_children_defined(name: Seq<char>, ts: Toks, be: int, fuel: nat)
    requires
        fuel >= ts.len() + 1,
    ensures
        !(sp_children(name, ts, be, fuel) is Spent),
    decreases fuel, 2int,
{
    if ts.len() > 0 {
        match ts[0].tok {
            TokV::LAngle => {
                if ts.len() >= 2 && ts[1].tok == TokV::Slash {
                    lemma_name_shrink(ts.skip(2), be);
                } else {
                    lemma_element_defined(ts, be, fuel);
                    lemma_element_shrink(ts, be, fuel);
                    match sp_element(ts, be, fuel) {
                        Parsed::Good((child, ts2)) => {
                            lemma_children_defined(name, ts2, be, (fuel - 1) as nat);
                        },
                        _ => {},
                    }
                }
            },
            TokV::LBrace => {
                lemma_i11n_body_defined(ts.drop_first(), be);
                lemma_i11n_shrink(ts, be);
                match sp_i11n(ts, be) {
                    Parsed::Good((child, ts2)) => {
                        lemma_children_defined(name, ts2, be, (fuel - 1) as nat);
                    },
                    _ => {},
                }
            },
            TokV::Text(_) => {
                lemma_text_shrink(ts, be);
                match sp_text(ts, be) {
                    Parsed::Good((child, ts2)) => {
                        lemma_children_defined(name, ts2, be, (fuel - 1) as nat);
                    },
                    _ => {},
                }
            },
            _ => {},
        }
    }
}

pub proof fn lemma_nodes_defined(ts: Toks, be: int, fuel: nat)
    requires
        fuel >= ts.len() + 1,
    ensures
        !(sp_nodes(ts, be, fuel) is Spent),
    decreases fuel, 3int,
{
    if ts.len() > 0 {
        match ts[0].tok {
            TokV::LAngle => {
                lemma_element_defined(ts, be, fuel);
                lemma_element_shrink(ts, be, fuel);
                match sp_element(ts, be, fuel) {
                    Parsed::Good((n, ts2)) => {
                        lemma_nodes_defined(ts2, be, (fuel - 1) as nat);
                    },
                    _ => {},
                }
            },
            TokV::LBrace => {
                lemma_i11n_body_defined(ts.drop_first(), be);
                lemma_i11n_shrink(ts, be);
                match sp_i11n(ts, be) {
                    Parsed::Good((n, ts2)) => {
                        lemma_nodes_defined(ts2, be, (fuel - 1) as nat);
                    },
                    _ => {},
                }
            },
            TokV::Text(_) => {
                lemma_text_shrink(ts, be);
                match sp_text(ts, be) {
                    Parsed::Good((n, ts2)) => {
                        lemma_nodes_defined(ts2, be, (fuel - 1) as nat);
                    },
                    _ => {},
                }
            },
            _ => {},
        }
    }
}

pub proof fn lemma_nodes_fuel(ts: Toks, be: int, f1: nat, f2: nat)
    requires
        f1 >= ts.len() + 1,
        f2 >= ts.len() + 1,
    ensures
        sp_nodes(ts, be, f1) == sp_nodes(ts, be, f2),
    decreases f1, 3int,
{
    if ts.len() > 0 {
        match ts[0].tok {
            TokV::LAngle => {
                lemma_element_fuel(ts, be, f1, f2);
                lemma_element_shrink(ts, be, f1);
                match sp_element(ts, be, f1) {
                    Parsed::Good((n, ts2)) => {
                        lemma_nodes_fuel(ts2, be, (f1 - 1) as nat, (f2 - 1) as nat);
                    },
                    _ => {},
                }
            },
            TokV::LBrace => {
                lemma_i11n_shrink(ts, be);
                match sp_i11n(ts, be) {
                    Parsed::Good((n, ts2)) => {
                        lemma_nodes_fuel(ts2, be, (f1 - 1) as nat, (f2 - 1) as nat);
                    },
                    _ => {},
                }
            },
            TokV::Text(_) => {
                lemma_text_shrink(ts, be);
                match sp_text(ts, be) {
                    Parsed::Good((n, ts2)) => {
                        lemma_nodes_fuel(ts2, be, (f1 - 1) as nat, (f2 - 1) as nat);
                    },
                    _ => {},
                }
            },
            _ => {},
        }
    }
}

} // verus!
