//! Global laws of the lexer and parser, stated over the spec-level
//! model and proved once and for all.

use vstd::prelude::*;
use crate::grammar::Parsed;
use crate::grammar::doc_fuel;
use crate::grammar::sp_byte_end;
use crate::grammar::sp_i11n;
use crate::grammar::sp_i11n_body;
use crate::grammar::sp_nodes;
use crate::grammar::sp_text;
use crate::grammar::sp_texts;
use crate::grammar::spec_parse;
use crate::lexer::lemma_lex_spans_cover;
use crate::lexer::lemma_run_end_bounds;
use crate::lexer::run_stop;
use crate::lexer::sp_lex_from;
use crate::lexer::sp_next;
use crate::lexer::sp_run_end;
use crate::lexer::spans_cover;
use crate::lexer::spec_tokens;
use crate::nodes::NodeV;
use crate::span_range::spanv;
use crate::strutil::bpos;
use crate::strutil::byte_len;
use crate::strutil::is_special;
use crate::strutil::lemma_byte_len_prefix;
use crate::tok::TokSpan;
use crate::tok::TokV;

verus! {

/// Law: the spans of the tokens the lexer produces exactly tile the
/// byte range `[0, byte_len(s))` of the source — no gaps, no overlaps.
pub proof fn lemma_token_spans_cover(s: Seq<char>)
    ensures
        spans_cover(spec_tokens(s), 0, byte_len(s)),
{
    assert(bpos(s, 0) == 0) by {
        assert(s.take(0) =~= Seq::<char>::empty());
        assert(vstd::utf8::encode_utf8(Seq::<char>::empty()) =~= Seq::<u8>::empty());
    }
    lemma_lex_spans_cover(s, 0);
}

proof fn lemma_cover_last(ts: Seq<TokSpan>, lo: int, hi: int)
    requires
        spans_cover(ts, lo, hi),
    ensures
        ts.len() == 0 ==> lo == hi,
        ts.len() > 0 ==> ts.last().span.end == hi,
    decreases ts.len(),
{
    if ts.len() > 0 {
        lemma_cover_last(ts.drop_first(), ts[0].span.end, hi);
        if ts.len() == 1 {
            assert(ts.drop_first() =~= Seq::<TokSpan>::empty());
        } else {
            assert(ts.drop_first().last() == ts.last());
        }
    }
}

/// The document's end position — the end of its last token — is exactly
/// the byte length of the source.
pub proof fn lemma_doc_byte_end(s: Seq<char>)
    ensures
        sp_byte_end(spec_tokens(s)) == byte_len(s),
{
    lemma_token_spans_cover(s);
    lemma_cover_last(spec_tokens(s), 0, byte_len(s));
    if spec_tokens(s).len() == 0 {
        assert(byte_len(s) == 0);
    }
}

/// Law: parsing is total — on every source the parse is a definite
/// value or a definite error; the recursion budget of the model never
/// runs out.
pub proof fn lemma_parse_total(s: Seq<char>)
    ensures
        !(spec_parse(s) is Spent),
{
    let ts = spec_tokens(s);
    crate::grammar::lemma_nodes_defined(ts, sp_byte_end(ts), doc_fuel(ts));
}

/// Literal text: no `<`, `>` or `/`, and every brace part of a `{{` or
/// `}}` escape pair.
pub open spec fn plain_escaped(s: Seq<char>) -> bool
    decreases s.len(),
{
    if s.len() == 0 {
        true
    } else if s[0] == '<' || s[0] == '>' || s[0] == '/' {
        false
    } else if s[0] == '{' {
        s.len() >= 2 && s[1] == '{' && plain_escaped(s.skip(2))
    } else if s[0] == '}' {
        s.len() >= 2 && s[1] == '}' && plain_escaped(s.skip(2))
    } else {
        plain_escaped(s.skip(1))
    }
}

/// The text with every `{{` replaced by `{` and every `}}` by `}`.
pub open spec fn unescape(s: Seq<char>) -> Seq<char>
    decreases s.len(),
{
    if s.len() == 0 {
        Seq::empty()
    } else if s.len() >= 2 && ((s[0] == '{' && s[1] == '{') || (s[0] == '}' && s[1] == '}')) {
        seq![s[0]] + unescape(s.skip(2))
    } else {
        seq![s[0]] + unescape(s.skip(1))
    }
}

/// Walking over a stretch of ordinary characters changes neither the
/// escape structure nor the unescaped text, beyond copying them.
proof fn lemma_unescape_plain_run(s: Seq<char>, ci: int, e: int)
    requires
        0 <= ci <= e <= s.len(),
        forall|k: int| ci <= k < e ==> !is_special(#[trigger] s[k]),
        plain_escaped(s.skip(ci)),
    ensures
        plain_escaped(s.skip(e)),
        unescape(s.skip(ci)) == s.subrange(ci, e) + unescape(s.skip(e)),
    decreases e - ci,
{
    if ci == e {
        assert(s.subrange(ci, e) =~= Seq::<char>::empty());
        assert(s.subrange(ci, e) + unescape(s.skip(e)) =~= unescape(s.skip(e)));
    } else {
        assert(s.skip(ci)[0] == s[ci]);
        assert(!is_special(s[ci]));
        assert(s.skip(ci).skip(1) =~= s.skip(ci + 1));
        assert(plain_escaped(s.skip(ci + 1)));
        if s.skip(ci).len() >= 2 {
            assert(s.skip(ci)[1] == s[ci + 1]);
        }
        assert(unescape(s.skip(ci)) == seq![s[ci]] + unescape(s.skip(ci + 1)));
        lemma_unescape_plain_run(s, ci + 1, e);
        assert(s.subrange(ci, e) =~= seq![s[ci]] + s.subrange(ci + 1, e));
        assert(seq![s[ci]] + (s.subrange(ci + 1, e) + unescape(s.skip(e))) =~= (seq![s[ci]]
            + s.subrange(ci + 1, e)) + unescape(s.skip(e)));
    }
}

/// No character of a text run taken from literal text is structural: a
/// `/` in particular cannot occur there at all.
proof fn lemma_plain_run_chars(s: Seq<char>, ci: int, e: int)
    requires
        0 <= ci <= e <= s.len(),
        plain_escaped(s.skip(ci)),
        forall|k: int| ci <= k < e ==> !run_stop(s, k),
    ensures
        forall|k: int| ci <= k < e ==> !is_special(#[trigger] s[k]),
        plain_escaped(s.skip(e)),
    decreases e - ci,
{
    if ci < e {
        assert(s.skip(ci)[0] == s[ci]);
        assert(!run_stop(s, ci));
        assert(!is_special(s[ci]));
        assert(s.skip(ci).skip(1) =~= s.skip(ci + 1));
        lemma_plain_run_chars(s, ci + 1, e);
    }
}

/// Under `plain_escaped`, the lexer produces text tokens only, whose
/// merged value is the unescaped text and whose run ends at the end of
/// the input.
proof fn lemma_lex_escaped(s: Seq<char>, ci: int)
    requires
        0 <= ci < s.len(),
        plain_escaped(s.skip(ci)),
    ensures
        ({
            let ts = sp_lex_from(s, ci);
            let m = sp_texts(ts);
            &&& ts.len() > 0
            &&& (ts[0].tok matches TokV::Text(_))
            &&& ts[0].span.start == bpos(s, ci)
            &&& m.0 == unescape(s.skip(ci))
            &&& m.1 == byte_len(s)
            &&& m.2 =~= Seq::<TokSpan>::empty()
        }),
    decreases s.len() - ci,
{
    let ts = sp_lex_from(s, ci);
    let sk = s.skip(ci);
    assert(sk[0] == s[ci]);
    if s[ci] == '{' || s[ci] == '}' {
        assert(sk.len() >= 2 && sk[1] == s[ci + 1]);
        assert(s[ci + 1] == s[ci]);
        assert(sk.skip(2) =~= s.skip(ci + 2));
        let step = sp_next(s, ci).unwrap();
        assert(step.1 == ci + 2);
        assert(unescape(sk) == seq![s[ci]] + unescape(s.skip(ci + 2)));
        if ci + 2 == s.len() {
            assert(s.skip(ci + 2).len() == 0);
            assert(unescape(s.skip(ci + 2)) =~= Seq::<char>::empty());
            assert(sp_lex_from(s, ci + 2) =~= Seq::<TokSpan>::empty());
            assert(ts =~= seq![step.0]);
            assert(sp_texts(ts.drop_first()) == (Seq::<char>::empty(), 0int, ts.drop_first()));
            assert(sp_texts(ts).0 =~= unescape(sk));
            lemma_byte_len_prefix(s, ci + 2);
            assert(sp_texts(ts).1 == byte_len(s));
        } else {
            lemma_lex_escaped(s, ci + 2);
            let ts2 = sp_lex_from(s, ci + 2);
            assert(ts =~= seq![step.0] + ts2);
            assert(ts.drop_first() =~= ts2);
            assert(sp_texts(ts).0 =~= unescape(sk));
        }
    } else {
        assert(s[ci] != '<' && s[ci] != '>' && s[ci] != '/');
        assert(!is_special(s[ci]));
        lemma_run_end_bounds(s, ci);
        assert(!run_stop(s, ci));
        let e = sp_run_end(s, ci);
        assert(ci < e <= s.len());
        lemma_plain_run_chars(s, ci, e);
        lemma_unescape_plain_run(s, ci, e);
        let step = sp_next(s, ci).unwrap();
        assert(step.1 == e);
        if e == s.len() {
            assert(s.skip(e).len() == 0);
            assert(unescape(s.skip(e)) =~= Seq::<char>::empty());
            assert(sp_lex_from(s, e) =~= Seq::<TokSpan>::empty());
            assert(ts =~= seq![step.0]);
            assert(sp_texts(ts.drop_first()) == (Seq::<char>::empty(), 0int, ts.drop_first()));
            assert(sp_texts(ts).0 =~= s.subrange(ci, e));
            assert(sp_texts(ts).0 =~= unescape(sk));
            lemma_byte_len_prefix(s, e);
            assert(sp_texts(ts).1 == byte_len(s));
        } else {
            lemma_lex_escaped(s, e);
            let ts2 = sp_lex_from(s, e);
            assert(ts =~= seq![step.0] + ts2);
            assert(ts.drop_first() =~= ts2);
            assert(sp_texts(ts).0 =~= s.subrange(ci, e) + unescape(s.skip(e)));
            assert(sp_texts(ts).0 =~= unescape(sk));
        }
    }
}

/// Law: an input of literal text whose braces all come in `{{` or `}}`
/// pairs parses to exactly one `Text` node, spanning the whole source,
/// whose value has every escape collapsed to a single brace.
pub proof fn lemma_escape_round_trip(s: Seq<char>)
    requires
        plain_escaped(s),
        s.len() > 0,
    ensures
        spec_parse(s) == Parsed::Good(
            seq![NodeV::Text { value: unescape(s), span: spanv(0, byte_len(s)) }],
        ),
{
    assert(s.skip(0) =~= s);
    lemma_lex_escaped(s, 0);
    let ts = spec_tokens(s);
    let be = sp_byte_end(ts);
    let m = sp_texts(ts);
    assert(bpos(s, 0) == 0) by {
        assert(s.take(0) =~= Seq::<char>::empty());
        assert(vstd::utf8::encode_utf8(Seq::<char>::empty()) =~= Seq::<u8>::empty());
    }
    let node = NodeV::Text { value: unescape(s), span: spanv(0, byte_len(s)) };
    assert(sp_text(ts, be) == Parsed::Good((node, m.2)));
    let fuel = doc_fuel(ts);
    assert(sp_nodes(m.2, be, (fuel - 1) as nat) == Parsed::<Seq<NodeV>>::Good(Seq::empty()));
    assert(sp_nodes(ts, be, fuel) == Parsed::Good(seq![node] + Seq::<NodeV>::empty()));
    assert(seq![node] + Seq::<NodeV>::empty() =~= seq![node]);
}

/// Text with no structural characters at all.
pub open spec fn plain(s: Seq<char>) -> bool {
    forall|i: int| 0 <= i < s.len() ==> !is_special(#[trigger] s[i])
}

/// A stretch of ordinary characters bounded by a stopping position is
/// one text run.
proof fn lemma_plain_run_end(s: Seq<char>, ci: int, e: int)
    requires
        0 <= ci <= e <= s.len(),
        forall|k: int| ci <= k < e ==> !is_special(#[trigger] s[k]),
        e < s.len() ==> run_stop(s, e),
    ensures
        sp_run_end(s, ci) == e,
    decreases e - ci,
{
    if ci < e {
        assert(!is_special(s[ci]));
        assert(!run_stop(s, ci));
        lemma_plain_run_end(s, ci + 1, e);
    }
}

/// Law: a lone `{` whose interpolation body meets another unescaped `{`
/// before any `}` is rejected with the nested-interpolation error,
/// whatever ordinary text surrounds the braces. (With an empty `b` the
/// two braces would form the escape `{{` instead.)
pub proof fn lemma_nested_brace_rejected(a: Seq<char>, b: Seq<char>, c: Seq<char>)
    requires
        plain(a),
        plain(b),
        plain(c),
        b.len() > 0,
    ensures
        ({
            let s = a + seq!['{'] + b + seq!['{'] + c;
            match spec_parse(s) {
                Parsed::Bad(e) => e.msg == "nested '{' in interpolation"@,
                _ => false,
            }
        }),
{
    let s = a + seq!['{'] + b + seq!['{'] + c;
    let la = a.len() as int;
    let lb = b.len() as int;
    let p2 = la + 1 + lb;
    assert(s.len() == p2 + 1 + c.len());
    assert forall|k: int| 0 <= k < la implies !is_special(#[trigger] s[k]) by {
        assert(s[k] == a[k]);
    }
    assert(s[la] == '{');
    assert forall|k: int| la + 1 <= k < p2 implies !is_special(#[trigger] s[k]) by {
        assert(s[k] == b[k - la - 1]);
    }
    assert(s[la + 1] == b[0]);
    assert(s[p2] == '{');
    if p2 + 1 < s.len() {
        assert(s[p2 + 1] == c[p2 + 1 - (p2 + 1)]);
        assert(!is_special(s[p2 + 1]));
    }
    // the tokens from the first lone brace on
    let ts_la = sp_lex_from(s, la);
    let ts_b = sp_lex_from(s, la + 1);
    let ts_p2 = sp_lex_from(s, p2);
    let tail = sp_lex_from(s, p2 + 1);
    assert(sp_next(s, la).unwrap().1 == la + 1);
    assert(ts_la == seq![sp_next(s, la).unwrap().0] + ts_b);
    assert(ts_la[0].tok == TokV::LBrace);
    lemma_plain_run_end(s, la + 1, p2);
    assert(sp_next(s, la + 1).unwrap().1 == p2);
    assert(ts_b == seq![sp_next(s, la + 1).unwrap().0] + ts_p2);
    assert(ts_b[0].tok matches TokV::Text(_));
    assert(sp_next(s, p2).unwrap().1 == p2 + 1);
    assert(ts_p2 == seq![sp_next(s, p2).unwrap().0] + tail);
    assert(ts_p2[0].tok == TokV::LBrace);
    let ts0 = spec_tokens(s);
    let be = sp_byte_end(ts0);
    // the interpolation body hits the nested lone brace
    let nested = crate::error::errv("nested '{' in interpolation"@, ts_p2[0].span);
    assert(ts_b.drop_first() =~= ts_p2);
    assert(sp_i11n_body(ts_p2, be) == Parsed::<(Seq<char>, int, crate::grammar::Toks)>::Bad(
        nested,
    ));
    assert(sp_i11n_body(ts_b, be) == Parsed::<(Seq<char>, int, crate::grammar::Toks)>::Bad(nested));
    assert(ts_la.drop_first() =~= ts_b);
    assert(ts_la[0].tok == TokV::LBrace);
    assert(sp_i11n(ts_la, be) == Parsed::<(NodeV, crate::grammar::Toks)>::Bad(nested));
    if la > 0 {
        lemma_plain_run_end(s, 0, la);
        assert(sp_next(s, 0).unwrap().1 == la);
        assert(ts0 == seq![sp_next(s, 0).unwrap().0] + ts_la);
        assert(ts0[0].tok matches TokV::Text(_));
        let m = sp_texts(ts0);
        assert(ts0.drop_first() =~= ts_la);
        assert(sp_texts(ts_la) == (Seq::<char>::empty(), 0int, ts_la));
        assert(m.2 == ts_la);
        let fuel = doc_fuel(ts0);
        assert(sp_text(ts0, be) matches Parsed::Good(p) && p.1 == ts_la);
        assert(sp_nodes(ts_la, be, (fuel - 1) as nat) == Parsed::<Seq<NodeV>>::Bad(nested));
        assert(sp_nodes(ts0, be, fuel) == Parsed::<Seq<NodeV>>::Bad(nested));
    } else {
        assert(ts0 =~= ts_la);
        let fuel = doc_fuel(ts0);
        assert(sp_nodes(ts0, be, fuel) == Parsed::<Seq<NodeV>>::Bad(nested));
    }
}

} // verus!
