//! The recursive-descent parser over the lexer's tokens, verified to
//! return exactly what the grammar functions of [`crate::grammar`] say.

use vstd::prelude::*;
use crate::error::ParseError;
use crate::grammar::HeadV;
use crate::grammar::Parsed;
use crate::grammar::Toks;
use crate::grammar::sp_byte_end;
use crate::grammar::sp_expect;
use crate::grammar::tok_dbg;
use crate::grammar::sp_text;
use crate::grammar::sp_texts;
use crate::grammar::sp_i11n;
use crate::grammar::sp_i11n_body;
use crate::grammar::sp_name;
use crate::grammar::sp_name_break;
use crate::grammar::sp_attrs;
use crate::grammar::sp_attrs_from;
use crate::grammar::sp_skip_ws;
use crate::grammar::sp_name_run;
use crate::grammar::sp_find;
use crate::grammar::aspan_put;
use crate::grammar::aspan_or;
use crate::grammar::sp_tag_head;
use crate::grammar::sp_element;
use crate::grammar::run_element;
use crate::grammar::run_children;
use crate::grammar::doc_fuel;
use crate::grammar::lemma_children_fuel;
use crate::grammar::lemma_nodes_fuel;
use crate::grammar::run_nodes;
use crate::grammar::spec_parse;
use crate::nodes::Element;
use crate::nodes::nodes_view;
use crate::nodes::lemma_nodes_view_push;
use crate::nodes::Attr;
use crate::nodes::AttrV;
use crate::nodes::attrs_view;
use crate::lexer::Lexer;
use crate::lexer::spec_tokens;
use crate::nodes::Node;
use crate::nodes::NodeV;
use crate::span_range::Pos;
use crate::span_range::SpanRange;
use crate::span_range::SpanV;
use crate::span_range::spanv;
use crate::strutil::str_byte_len;
use crate::tok::Tok;
use crate::tok::TokSpan;
use crate::tok::TokV;
use crate::tok::toks_wf;
use crate::tok::tokv_wf;
use crate::tok::vtoks;

verus! {

pub type PResult<T> = Result<T, ParseError>;

/// Builds `prefix + name + suffix`, the shape of every error message
/// that names a tag or attribute.
fn compose_msg(prefix: &str, name: &str, suffix: &str) -> (r: String)
    ensures
        r@ == prefix@ + name@ + suffix@,
{
    let mut m = String::from_str(prefix);
    m.append(name);
    m.append(suffix);
    m
}

/// Debug name of a structural token, as spelled in error messages.
fn tok_dbg_str(t: &Tok) -> (r: &'static str)
    ensures
        r@ == tok_dbg(t@),
{
    match t {
        Tok::LAngle => "LAngle",
        Tok::RAngle => "RAngle",
        Tok::Slash => "Slash",
        Tok::LBrace => "LBrace",
        Tok::RBrace => "RBrace",
        Tok::Text(_) => {
            let r = "";
            proof {
                reveal_strlit("");
                assert(r@ =~= Seq::<char>::empty());
            }
            r
        },
    }
}

/// Same structural token? (Never asked of text tokens.)
fn tok_matches(a: &Tok, b: &Tok) -> (r: bool)
    requires
        !(b@ matches TokV::Text(_)),
    ensures
        r == (a@ == b@),
{
    match (a, b) {
        (Tok::LAngle, Tok::LAngle) => true,
        (Tok::RAngle, Tok::RAngle) => true,
        (Tok::Slash, Tok::Slash) => true,
        (Tok::LBrace, Tok::LBrace) => true,
        (Tok::RBrace, Tok::RBrace) => true,
        _ => false,
    }
}

/// First character index in `s` at which a tag name ends: whitespace or
/// a structural character.
fn name_break_exec(s: &str) -> (ne: usize)
    ensures
        ne as int == sp_name_break(s@, 0),
        ne <= s@.len(),
{
    let ghost s0 = s@;
    let n = s.unicode_len();
    let mut j: usize = 0;
    loop
        invariant
            j <= n,
            n == s0.len(),
            s@ == s0,
            sp_name_break(s0, 0) == sp_name_break(s0, j as int),
        ensures
            j <= n,
            j as int == sp_name_break(s0, 0),
        decreases n - j,
    {
        if j >= n {
            break;
        }
        let c = s.get_char(j);
        if crate::strutil::ws_char(c) || crate::strutil::special_char(c) {
            proof {
                assert(sp_name_break(s0, j as int) == j as int);
            }
            break;
        }
        j = j + 1;
    }
    j
}

/// First index at or after `j` that is not ASCII whitespace.
fn skip_ws_exec(s: &str, j0: usize) -> (r: usize)
    requires
        j0 as int <= s@.len(),
    ensures
        r as int == sp_skip_ws(s@, j0 as int),
        j0 <= r <= s@.len(),
{
    let ghost s0 = s@;
    let n = s.unicode_len();
    let mut j: usize = j0;
    loop
        invariant
            j0 <= j <= n,
            n == s0.len(),
            s@ == s0,
            sp_skip_ws(s0, j0 as int) == sp_skip_ws(s0, j as int),
        ensures
            j0 <= j <= n,
            j as int == sp_skip_ws(s0, j0 as int),
        decreases n - j,
    {
        if j >= n {
            break;
        }
        let c = s.get_char(j);
        if !crate::strutil::ascii_ws_char(c) {
            proof {
                assert(sp_skip_ws(s0, j as int) == j as int);
            }
            break;
        }
        j = j + 1;
    }
    j
}

/// First index at or after `j` that is not an attribute-name character.
fn name_run_exec(s: &str, j0: usize) -> (r: usize)
    requires
        j0 as int <= s@.len(),
    ensures
        r as int == sp_name_run(s@, j0 as int),
        j0 <= r <= s@.len(),
{
    let ghost s0 = s@;
    let n = s.unicode_len();
    let mut j: usize = j0;
    loop
        invariant
            j0 <= j <= n,
            n == s0.len(),
            s@ == s0,
            sp_name_run(s0, j0 as int) == sp_name_run(s0, j as int),
        ensures
            j0 <= j <= n,
            j as int == sp_name_run(s0, j0 as int),
        decreases n - j,
    {
        if j >= n {
            break;
        }
        let c = s.get_char(j);
        if !crate::strutil::name_char(c) {
            proof {
                assert(sp_name_run(s0, j as int) == j as int);
            }
            break;
        }
        j = j + 1;
    }
    j
}

/// First index at or after `j` holding the character `q`, or the length.
fn find_exec(s: &str, j0: usize, q: char) -> (r: usize)
    requires
        j0 as int <= s@.len(),
    ensures
        r as int == sp_find(s@, j0 as int, q),
        j0 <= r <= s@.len(),
{
    let ghost s0 = s@;
    let n = s.unicode_len();
    let mut j: usize = j0;
    loop
        invariant
            j0 <= j <= n,
            n == s0.len(),
            s@ == s0,
            sp_find(s0, j0 as int, q) == sp_find(s0, j as int, q),
        ensures
            j0 <= j <= n,
            j as int == sp_find(s0, j0 as int, q),
        decreases n - j,
    {
        if j >= n {
            break;
        }
        let c = s.get_char(j);
        if c == q {
            proof {
                assert(sp_find(s0, j as int, q) == j as int);
            }
            break;
        }
        j = j + 1;
    }
    j
}

/// The attribute sub-parser: turns the raw text collected between a tag
/// name and its closing `>` or `/>` into an ordered list of
/// `name="value"` pairs. Every pair carries the whole buffer's span.
#[verifier::loop_isolation(false)]
pub fn parse_attrs_from_buffer(buf: &str, span: SpanRange) -> (r: PResult<Vec<Attr>>)
    ensures
        match r {
            Ok(attrs) => sp_attrs(buf@, span@) == Parsed::Good(attrs_view(attrs@)),
            Err(e) => sp_attrs(buf@, span@) == Parsed::<Seq<AttrV>>::Bad(e@),
        },
{
    let ghost s0 = buf@;
    let n = buf.unicode_len();
    let mut attrs: Vec<Attr> = Vec::new();
    let mut i: usize = skip_ws_exec(buf, 0);
    while i < n
        invariant
            i <= n,
            match sp_attrs_from(s0, i as int, span@) {
                Parsed::Good(rest) => sp_attrs(s0, span@) == Parsed::Good(
                    attrs_view(attrs@) + rest,
                ),
                Parsed::Bad(e) => sp_attrs(s0, span@) == Parsed::<Seq<AttrV>>::Bad(e),
                Parsed::Spent => sp_attrs(s0, span@) == Parsed::<Seq<AttrV>>::Spent,
            },
        decreases n - i,
    {
        let ghost i0 = i as int;
        let ne = name_run_exec(buf, i);
        if ne == i {
            return Err(ParseError { msg: String::from_str("invalid attribute name"), span });
        }
        let name = buf.substring_char(i, ne).to_owned();
        let k = skip_ws_exec(buf, ne);
        let eq_ok = if k < n {
            buf.get_char(k) == '='
        } else {
            false
        };
        if !eq_ok {
            let m = compose_msg("expected '=' after attribute '", name.as_str(), "'");
            return Err(ParseError { msg: m, span });
        }
        let q = skip_ws_exec(buf, k + 1);
        let quote_ok = if q < n {
            let c = buf.get_char(q);
            c == '"' || c == '\''
        } else {
            false
        };
        if !quote_ok {
            let m = compose_msg("expected quote after '=' in attribute '", name.as_str(), "'");
            return Err(ParseError { msg: m, span });
        }
        let quote = buf.get_char(q);
        let ve = find_exec(buf, q + 1, quote);
        if ve >= n {
            let m = compose_msg("unterminated quoted value for attribute '", name.as_str(), "'");
            return Err(ParseError { msg: m, span });
        }
        let value = buf.substring_char(q + 1, ve).to_owned();
        let ghost attrs_pre = attrs@;
        let ghost av = AttrV { name: s0.subrange(i0, ne as int), value: s0.subrange(q + 1, ve as int), span: span@ };
        attrs.push(Attr { name, value, span });
        i = skip_ws_exec(buf, ve + 1);
        proof {
            assert(attrs_view(attrs@) =~= attrs_view(attrs_pre) + seq![av]);
            match sp_attrs_from(s0, i as int, span@) {
                Parsed::Good(rest) => {
                    assert(sp_attrs_from(s0, i0, span@) == Parsed::Good(seq![av] + rest));
                    assert(attrs_view(attrs_pre) + (seq![av] + rest) =~= (attrs_view(attrs_pre)
                        + seq![av]) + rest);
                },
                _ => {},
            }
        }
    }
    proof {
        assert(attrs_view(attrs@) + Seq::<AttrV>::empty() =~= attrs_view(attrs@));
    }
    Ok(attrs)
}

/// The parser: a cursor into the token sequence. The one mutation it
/// makes to its input is the reinsertion of a text remainder when a tag
/// name is split off the front of a text token.
pub struct Parser<'a> {
    toks: Vec<(Tok, SpanRange)>,
    i: usize,
    _src: &'a str,
}

impl<'a> Parser<'a> {
    /// The tokens not yet consumed, as mathematical values.
    pub closed spec fn rest(&self) -> Toks {
        vtoks(self.toks@).skip(self.i as int)
    }

    /// End of the document in bytes (end of the last token).
    pub closed spec fn bend(&self) -> int {
        sp_byte_end(vtoks(self.toks@))
    }

    pub closed spec fn wf(&self) -> bool {
        &&& self.i <= self.toks@.len()
        &&& toks_wf(vtoks(self.toks@))
    }

    pub fn new(src: &'a str) -> (r: Self)
        ensures
            r.wf(),
            r.rest() == spec_tokens(src@),
            r.bend() == sp_byte_end(spec_tokens(src@)),
    {
        let toks = Lexer::new(src).all();
        proof {
            crate::lexer::lemma_lex_toks_wf(src@, 0);
            assert(vtoks(toks@).skip(0) =~= vtoks(toks@));
        }
        Self { toks, i: 0, _src: src }
    }

    fn eof(&self) -> (r: bool)
        requires
            self.wf(),
        ensures
            r == (self.rest().len() == 0),
    {
        self.i >= self.toks.len()
    }

    fn cur(&self) -> (r: Option<&(Tok, SpanRange)>)
        requires
            self.wf(),
        ensures
            match r {
                Some(t) => self.rest().len() > 0 && self.rest()[0] == (TokSpan {
                    tok: t.0@,
                    span: t.1@,
                }),
                None => self.rest().len() == 0,
            },
    {
        if self.i < self.toks.len() {
            Some(&self.toks[self.i])
        } else {
            None
        }
    }

    fn cur_is_text(&self) -> (r: bool)
        requires
            self.wf(),
        ensures
            r == (self.rest().len() > 0 && (self.rest()[0].tok matches TokV::Text(_))),
    {
        proof {
            if self.i < self.toks@.len() {
                assert(self.rest()[0] == vtoks(self.toks@)[self.i as int]);
            }
        }
        if self.i < self.toks.len() {
            match &self.toks[self.i].0 {
                Tok::Text(_) => true,
                _ => false,
            }
        } else {
            false
        }
    }

    fn bump(&mut self)
        requires
            old(self).wf(),
            old(self).rest().len() > 0,
        ensures
            final(self).wf(),
            final(self).toks == old(self).toks,
            final(self).rest() == old(self).rest().drop_first(),
            final(self).bend() == old(self).bend(),
    {
        let n = self.toks.len();
        proof {
            assert(vtoks(self.toks@).len() == self.toks@.len());
            assert(self.i < n);
            assert(vtoks(self.toks@).skip(self.i as int + 1) =~= vtoks(self.toks@).skip(
                self.i as int,
            ).drop_first());
        }
        self.i = self.i + 1;
    }

    fn byte_end(&self) -> (r: usize)
        requires
            self.wf(),
        ensures
            r as int == self.bend(),
    {
        if self.toks.len() == 0 {
            0
        } else {
            let last = self.toks.len() - 1;
            ((self.toks[last].1).end).0
        }
    }

    fn expect(&mut self, want: Tok) -> (r: PResult<SpanRange>)
        requires
            old(self).wf(),
            !(want@ matches TokV::Text(_)),
        ensures
            final(self).wf(),
            final(self).bend() == old(self).bend(),
            match r {
                Ok(sp) => sp_expect(old(self).rest(), want@, old(self).bend()) == Parsed::Good(
                    (sp@, final(self).rest()),
                ) && final(self).rest() == old(self).rest().drop_first(),
                Err(e) => sp_expect(old(self).rest(), want@, old(self).bend()) == Parsed::<(SpanV, Toks)>::Bad(e@)
                    && *final(self) == *old(self),
            },
    {
        if self.i < self.toks.len() {
            let same = tok_matches(&self.toks[self.i].0, &want);
            if same {
                let sp = self.toks[self.i].1;
                self.bump();
                return Ok(sp);
            }
        }
        let span = if self.i < self.toks.len() {
            self.toks[self.i].1
        } else {
            let e = self.byte_end();
            SpanRange::new(e, e)
        };
        let mut m = String::from_str("expected ");
        m.append(tok_dbg_str(&want));
        Err(ParseError { msg: m, span })
    }

    /// Reads a tag name off the front of the current text token. The
    /// token's remainder, if any, is reinserted into the stream at the
    /// cursor with its span offset by the name's byte length.
    fn parse_name(&mut self) -> (r: PResult<(String, SpanRange)>)
        requires
            old(self).wf(),
        ensures
            final(self).wf(),
            final(self).bend() == old(self).bend(),
            match r {
                Ok(p) => sp_name(old(self).rest(), old(self).bend()) == Parsed::Good(
                    (p.0@, p.1@, final(self).rest()),
                ) && final(self).rest().len() <= old(self).rest().len() && old(self).rest().len()
                    >= 1,
                Err(e) => sp_name(old(self).rest(), old(self).bend()) == Parsed::<(
                    Seq<char>,
                    SpanV,
                    Toks,
                )>::Bad(e@) && *final(self) == *old(self),
            },
    {
        let ghost rest0 = self.rest();
        if self.i >= self.toks.len() {
            let e = self.byte_end();
            return Err(ParseError {
                msg: String::from_str("unexpected EOF when reading tag name"),
                span: SpanRange::new(e, e),
            });
        }
        proof {
            assert(rest0[0] == vtoks(self.toks@)[self.i as int]);
        }
        let sp = self.toks[self.i].1;
        let mut parts: Option<(String, String)> = None;
        let mut is_text = false;
        match &self.toks[self.i].0 {
            Tok::Text(s) => {
                is_text = true;
                let ne = name_break_exec(s.as_str());
                if ne > 0 {
                    let slen = s.as_str().unicode_len();
                    let name = s.as_str().substring_char(0, ne).to_owned();
                    let rem = s.as_str().substring_char(ne, slen).to_owned();
                    proof {
                        match rest0[0].tok {
                            TokV::Text(sv) => {
                                assert(name@ =~= sv.take(sp_name_break(sv, 0)));
                                assert(rem@ =~= sv.skip(sp_name_break(sv, 0)));
                            },
                            _ => {
                                assert(false);
                            },
                        }
                    }
                    parts = Some((name, rem));
                }
            },
            _ => {},
        }
        if !is_text {
            return Err(ParseError { msg: String::from_str("expected tag name"), span: sp });
        }
        match parts {
            None => Err(ParseError { msg: String::from_str("invalid tag name"), span: sp }),
            Some((name, rem)) => {
                self.bump();
                let nb = str_byte_len(name.as_str());
                let ghost namev = name@;
                let ghost remv = rem@;
                proof {
                    match rest0[0].tok {
                        TokV::Text(sv) => {
                            assert(sv =~= namev + remv);
                            crate::strutil::lemma_encode_utf8_append(namev, remv);
                            assert(tokv_wf(rest0[0]));
                            assert(sp@.start + crate::strutil::byte_len(sv) <= sp@.end);
                        },
                        _ => {
                            assert(false);
                        },
                    }
                }
                let rem_start = sp.start.0 + nb;
                if !rem.as_str().is_empty() {
                    let ghost toks1 = self.toks@;
                    let ghost i1 = self.i as int;
                    let newtok = (Tok::Text(rem), SpanRange::new(rem_start, sp.end.0));
                    let ghost newtv = TokSpan { tok: newtok.0@, span: newtok.1@ };
                    self.toks.insert(self.i, newtok);
                    proof {
                        let t2 = self.toks@;
                        assert(t2 == toks1.insert(i1, newtok));
                        assert forall|k: int| 0 <= k < vtoks(t2).len() implies tokv_wf(
                            #[trigger] vtoks(t2)[k],
                        ) by {
                            if k < i1 {
                                assert(t2[k] == toks1[k]);
                                assert(vtoks(toks1)[k] == vtoks(t2)[k]);
                            } else if k == i1 {
                                assert(t2[k] == newtok);
                            } else {
                                assert(t2[k] == toks1[k - 1]);
                                assert(vtoks(toks1)[k - 1] == vtoks(t2)[k]);
                            }
                        }
                        assert(vtoks(t2).skip(i1) =~= seq![newtv] + vtoks(toks1).skip(i1));
                        if i1 == toks1.len() {
                            assert(vtoks(t2).last() == newtv);
                            assert(vtoks(toks1).last() == vtoks(toks1)[i1 - 1]);
                            assert(toks1[i1 - 1].1 == sp);
                        } else {
                            assert(vtoks(t2).last() == vtoks(toks1).last());
                        }
                        assert(self.bend() == old(self).bend());
                    }
                }
                proof {
                    assert(sp_name(rest0, old(self).bend()) == Parsed::<(
                        Seq<char>,
                        SpanV,
                        Toks,
                    )>::Good((namev, spanv(sp@.start, sp@.start + crate::strutil::byte_len(namev)), self.rest())));
                }
                Ok((name, SpanRange::new(sp.start.0, rem_start)))
            },
        }
    }

    /// One `Text` node from the maximal run of text tokens at the cursor
    /// (several can sit side by side after a tag-name split).
    #[verifier::loop_isolation(false)]
    #[verifier::loop_isolation(false)]
    fn parse_text(&mut self) -> (r: PResult<Node>)
        requires
            old(self).wf(),
        ensures
            final(self).wf(),
            final(self).bend() == old(self).bend(),
            match r {
                Ok(n) => sp_text(old(self).rest(), old(self).bend()) == Parsed::Good(
                    (n@, final(self).rest()),
                ) && final(self).rest().len() < old(self).rest().len(),
                Err(e) => sp_text(old(self).rest(), old(self).bend()) == Parsed::<(
                    NodeV,
                    Toks,
                )>::Bad(e@) && *final(self) == *old(self),
            },
    {
        let ghost rest0 = self.rest();
        let ghost be = self.bend();
        let ghost m0 = sp_texts(rest0);
        let mut start: Option<Pos> = None;
        let mut end: Option<Pos> = None;
        let mut buf = String::new();
        while self.cur_is_text()
            invariant
                self.wf(),
                self.bend() == be,
                self.rest().len() <= rest0.len(),
                match start {
                    None => {
                        &&& self.rest() == rest0
                        &&& buf@ == Seq::<char>::empty()
                        &&& end is None
                        &&& *self == *old(self)
                    },
                    Some(st) => {
                        &&& rest0.len() > 0 && (rest0[0].tok matches TokV::Text(_))
                        &&& st.0 as int == rest0[0].span.start
                        &&& self.rest().len() < rest0.len()
                        &&& end matches Some(en) && {
                            let m_now = sp_texts(self.rest());
                            &&& m0.0 == buf@ + m_now.0
                            &&& m0.2 == m_now.2
                            &&& m0.1 == if self.rest().len() > 0 && (self.rest()[0].tok matches TokV::Text(_)) {
                                m_now.1
                            } else {
                                en.0 as int
                            }
                        }
                    },
                },
            decreases self.toks@.len() - self.i,
        {
            let ghost rest_pre = self.rest();
            let ghost buf_pre = buf@;
            proof {
                assert(rest_pre[0] == vtoks(self.toks@)[self.i as int]);
            }
            let sp = self.toks[self.i].1;
            match &self.toks[self.i].0 {
                Tok::Text(s) => {
                    buf.append(s.as_str());
                },
                _ => {},
            }
            if start.is_none() {
                start = Some(sp.start);
            }
            end = Some(sp.end);
            self.bump();
            proof {
                let m_pre = sp_texts(rest_pre);
                let m_next = sp_texts(self.rest());
                assert(m0.0 == buf_pre + m_pre.0) by {
                    if buf_pre.len() == 0 {
                        assert(buf_pre + m_pre.0 =~= m_pre.0);
                    }
                }
                match rest_pre[0].tok {
                    TokV::Text(sv) => {
                        assert(buf@ == buf_pre + sv);
                        assert(m_pre.0 == sv + m_next.0);
                        assert(buf_pre + (sv + m_next.0) =~= (buf_pre + sv) + m_next.0);
                    },
                    _ => {
                        assert(false);
                    },
                }
            }
        }
        proof {
            assert(sp_texts(self.rest()).0 =~= Seq::<char>::empty());
            assert(buf@ + sp_texts(self.rest()).0 =~= buf@);
        }
        match (start, end) {
            (Some(st), Some(en)) => {
                let n = Node::Text(crate::nodes::Text {
                    value: buf,
                    span: SpanRange { start: st, end: en },
                });
                Ok(n)
            },
            _ => {
                let span = match self.cur() {
                    Some(t) => t.1,
                    None => {
                        let e = self.byte_end();
                        SpanRange::new(e, e)
                    },
                };
                Err(ParseError { msg: String::from_str("expected text"), span })
            },
        }
    }

    /// Parses the whole remaining token stream into a sequence of
    /// top-level sibling nodes, or fails on the first structural error.
    #[verifier::loop_isolation(false)]
    #[verifier::rlimit(60)]
    pub fn parse_nodes(&mut self) -> (r: PResult<Vec<Node>>)
        requires
            old(self).wf(),
        ensures
            final(self).wf(),
            final(self).bend() == old(self).bend(),
            match r {
                Ok(ns) => run_nodes(old(self).rest(), old(self).bend()) == Parsed::Good(
                    nodes_view(ns@),
                ),
                Err(e) => run_nodes(old(self).rest(), old(self).bend()) == Parsed::<
                    Seq<NodeV>,
                >::Bad(e@),
            },
    {
        let ghost rest0 = self.rest();
        let ghost be = self.bend();
        let mut nodes: Vec<Node> = Vec::new();
        while !self.eof()
            invariant
                self.wf(),
                self.bend() == be,
                self.rest().len() <= rest0.len(),
                match run_nodes(self.rest(), be) {
                    Parsed::Good(ns2) => run_nodes(rest0, be) == Parsed::Good(
                        nodes_view(nodes@) + ns2,
                    ),
                    Parsed::Bad(e) => run_nodes(rest0, be) == Parsed::<Seq<NodeV>>::Bad(e),
                    Parsed::Spent => run_nodes(rest0, be) == Parsed::<Seq<NodeV>>::Spent,
                },
            decreases self.toks@.len() - self.i,
        {
            let ghost rest_pre = self.rest();
            let ghost nodes_pre = nodes@;
            proof {
                assert(rest_pre[0] == vtoks(self.toks@)[self.i as int]);
            }
            let sp = self.toks[self.i].1;
            let kind: u8 = match &self.toks[self.i].0 {
                Tok::LAngle => 1,
                Tok::LBrace => 2,
                Tok::Text(_) => 3,
                _ => 4,
            };
            if kind == 1 {
                let node = match self.parse_element() {
                    Err(e) => {
                        return Err(e);
                    },
                    Ok(n) => n,
                };
                nodes.push(node);
                proof {
                    lemma_nodes_view_push(nodes_pre, node);
                    let fpre = doc_fuel(rest_pre);
                    assert(sp_element(rest_pre, be, fpre) == Parsed::Good((node@, self.rest())));
                    assert(self.rest().len() < rest_pre.len());
                    lemma_nodes_fuel(self.rest(), be, (fpre - 1) as nat, doc_fuel(self.rest()));
                    match run_nodes(self.rest(), be) {
                        Parsed::Good(ns2) => {
                            assert(run_nodes(rest_pre, be) == Parsed::Good(seq![node@] + ns2));
                            assert(nodes_view(nodes_pre) + (seq![node@] + ns2) =~= (nodes_view(
                                nodes_pre,
                            ) + seq![node@]) + ns2);
                        },
                        _ => {},
                    }
                }
            } else if kind == 2 {
                let node = match self.parse_i11n() {
                    Err(e) => {
                        return Err(e);
                    },
                    Ok(n) => n,
                };
                nodes.push(node);
                proof {
                    lemma_nodes_view_push(nodes_pre, node);
                    assert(sp_i11n(rest_pre, be) == Parsed::Good((node@, self.rest())));
                    assert(self.rest().len() < rest_pre.len());
                    lemma_nodes_fuel(
                        self.rest(),
                        be,
                        (doc_fuel(rest_pre) - 1) as nat,
                        doc_fuel(self.rest()),
                    );
                    match run_nodes(self.rest(), be) {
                        Parsed::Good(ns2) => {
                            assert(run_nodes(rest_pre, be) == Parsed::Good(seq![node@] + ns2));
                            assert(nodes_view(nodes_pre) + (seq![node@] + ns2) =~= (nodes_view(
                                nodes_pre,
                            ) + seq![node@]) + ns2);
                        },
                        _ => {},
                    }
                }
            } else if kind == 3 {
                let node = match self.parse_text() {
                    Err(e) => {
                        return Err(e);
                    },
                    Ok(n) => n,
                };
                nodes.push(node);
                proof {
                    lemma_nodes_view_push(nodes_pre, node);
                    assert(sp_text(rest_pre, be) == Parsed::Good((node@, self.rest())));
                    assert(self.rest().len() < rest_pre.len());
                    lemma_nodes_fuel(
                        self.rest(),
                        be,
                        (doc_fuel(rest_pre) - 1) as nat,
                        doc_fuel(self.rest()),
                    );
                    match run_nodes(self.rest(), be) {
                        Parsed::Good(ns2) => {
                            assert(run_nodes(rest_pre, be) == Parsed::Good(seq![node@] + ns2));
                            assert(nodes_view(nodes_pre) + (seq![node@] + ns2) =~= (nodes_view(
                                nodes_pre,
                            ) + seq![node@]) + ns2);
                        },
                        _ => {},
                    }
                }
            } else {
                let m = match &self.toks[self.i].0 {
                    t => {
                        let mut m = String::from_str("unexpected token: ");
                        m.append(tok_dbg_str(t));
                        m
                    },
                };
                return Err(ParseError { msg: m, span: sp });
            }
        }
        proof {
            assert(nodes_view(nodes@) + Seq::<NodeV>::empty() =~= nodes_view(nodes@));
        }
        Ok(nodes)
    }

    /// An auxiliary view of the two optional attribute-span bounds as one
    /// optional byte range.
    pub closed spec fn opt_span(a: Option<Pos>, b: Option<Pos>) -> Option<(int, int)> {
        match (a, b) {
            (Some(x), Some(y)) => Some((x.0 as int, y.0 as int)),
            _ => None,
        }
    }

    /// Extend an accumulated attribute-buffer span on the right.
    pub closed spec fn put_acc(acc: Option<(int, int)>, sub: Option<(int, int)>) -> Option<
        (int, int),
    > {
        match acc {
            None => sub,
            Some((a, b)) => match sub {
                None => Some((a, b)),
                Some((c, d)) => Some((a, d)),
            },
        }
    }

    /// One element: `<name attr="...">children...</name>` or `<name .../>`.
    /// Children are parsed left to right; the closing name must equal the
    /// opening name exactly.
    #[verifier::loop_isolation(false)]
    #[verifier::rlimit(100)]
    fn parse_element(&mut self) -> (r: PResult<Node>)
        requires
            old(self).wf(),
        ensures
            final(self).wf(),
            final(self).bend() == old(self).bend(),
            match r {
                Ok(n) => run_element(old(self).rest(), old(self).bend()) == Parsed::Good(
                    (n@, final(self).rest()),
                ) && final(self).rest().len() < old(self).rest().len(),
                Err(e) => run_element(old(self).rest(), old(self).bend()) == Parsed::<(
                    NodeV,
                    Toks,
                )>::Bad(e@),
            },
        decreases self.rest().len(),
    {
        let ghost rest0 = self.rest();
        let ghost be = self.bend();
        let ghost fuel0 = doc_fuel(rest0);
        let lsp = match self.expect(Tok::LAngle) {
            Ok(sp) => sp,
            Err(e) => {
                return Err(e);
            },
        };
        let start = lsp.start;
        let ghost rest1 = self.rest();
        let nm = match self.parse_name() {
            Ok(v) => v,
            Err(e) => {
                return Err(e);
            },
        };
        let name = nm.0;
        let ghost namev = name@;
        let ghost rest2 = self.rest();
        let mut attrs_src = String::new();
        let mut attrs_start: Option<Pos> = None;
        let mut attrs_end: Option<Pos> = None;
        loop
            invariant
                self.wf(),
                self.bend() == be,
                self.rest().len() <= rest2.len(),
                (attrs_start is Some) <==> (attrs_end is Some),
                match sp_tag_head(self.rest(), be) {
                    Parsed::Good(HeadV::SelfClose { src, aspan, end, rest }) => sp_tag_head(
                        rest2,
                        be,
                    ) == Parsed::Good(
                        HeadV::SelfClose {
                            src: attrs_src@ + src,
                            aspan: Self::put_acc(Self::opt_span(attrs_start, attrs_end), aspan),
                            end,
                            rest,
                        },
                    ),
                    Parsed::Good(HeadV::Open { src, aspan, gt_end, rest }) => sp_tag_head(
                        rest2,
                        be,
                    ) == Parsed::Good(
                        HeadV::Open {
                            src: attrs_src@ + src,
                            aspan: Self::put_acc(Self::opt_span(attrs_start, attrs_end), aspan),
                            gt_end,
                            rest,
                        },
                    ),
                    Parsed::Bad(e) => sp_tag_head(rest2, be) == Parsed::<HeadV>::Bad(e),
                    Parsed::Spent => sp_tag_head(rest2, be) == Parsed::<HeadV>::Spent,
                },
            decreases self.toks@.len() - self.i,
        {
            if self.i >= self.toks.len() {
                let e = self.byte_end();
                proof {
                    assert(self.rest().len() == 0);
                }
                return Err(ParseError {
                    msg: String::from_str("unexpected EOF in tag head"),
                    span: SpanRange::new(e, e),
                });
            }
            let ghost rest_pre = self.rest();
            let ghost src_pre = attrs_src@;
            let ghost acc_pre = Self::opt_span(attrs_start, attrs_end);
            proof {
                assert(rest_pre[0] == vtoks(self.toks@)[self.i as int]);
            }
            let sp = self.toks[self.i].1;
            let mut text_took = false;
            let mut kind: u8 = 0;
            match &self.toks[self.i].0 {
                Tok::Slash => {
                    kind = 1;
                },
                Tok::RAngle => {
                    kind = 2;
                },
                Tok::Text(s) => {
                    attrs_src.append(s.as_str());
                    text_took = true;
                },
                _ => {
                    kind = 3;
                },
            }
            if text_took {
                if attrs_start.is_none() {
                    attrs_start = Some(sp.start);
                }
                attrs_end = Some(sp.end);
                self.bump();
                proof {
                    match rest_pre[0].tok {
                        TokV::Text(sv) => {
                            assert(attrs_src@ == src_pre + sv);
                            let acc_now = Self::opt_span(attrs_start, attrs_end);
                            assert(acc_now == Self::put_acc(acc_pre, Some((sp@.start, sp@.end))));
                            match sp_tag_head(self.rest(), be) {
                                Parsed::Good(HeadV::SelfClose { src, aspan, end, rest }) => {
                                    assert(sp_tag_head(rest_pre, be) == Parsed::Good(
                                        HeadV::SelfClose {
                                            src: sv + src,
                                            aspan: aspan_put(rest_pre[0].span, aspan),
                                            end,
                                            rest,
                                        },
                                    ));
                                    assert(src_pre + (sv + src) =~= (src_pre + sv) + src);
                                    assert(Self::put_acc(acc_pre, aspan_put(rest_pre[0].span, aspan))
                                        == Self::put_acc(acc_now, aspan));
                                },
                                Parsed::Good(HeadV::Open { src, aspan, gt_end, rest }) => {
                                    assert(sp_tag_head(rest_pre, be) == Parsed::Good(
                                        HeadV::Open {
                                            src: sv + src,
                                            aspan: aspan_put(rest_pre[0].span, aspan),
                                            gt_end,
                                            rest,
                                        },
                                    ));
                                    assert(src_pre + (sv + src) =~= (src_pre + sv) + src);
                                    assert(Self::put_acc(acc_pre, aspan_put(rest_pre[0].span, aspan))
                                        == Self::put_acc(acc_now, aspan));
                                },
                                _ => {},
                            }
                        },
                        _ => {
                            assert(false);
                        },
                    }
                }
            } else if kind == 1 {
                let two = if self.i + 1 < self.toks.len() {
                    match &self.toks[self.i + 1].0 {
                        Tok::RAngle => true,
                        _ => false,
                    }
                } else {
                    false
                };
                proof {
                    if self.i as int + 1 < self.toks@.len() {
                        assert(rest_pre[1] == vtoks(self.toks@)[self.i as int + 1]);
                    }
                }
                if two {
                    let sp_gt = self.toks[self.i + 1].1;
                    self.bump();
                    self.bump();
                    proof {
                        assert(self.rest() =~= rest_pre.skip(2));
                        assert(sp_tag_head(rest_pre, be) == Parsed::Good(
                            HeadV::SelfClose {
                                src: Seq::<char>::empty(),
                                aspan: None,
                                end: sp_gt@.end,
                                rest: self.rest(),
                            },
                        ));
                        assert(src_pre + Seq::<char>::empty() =~= src_pre);
                    }
                    let aspan = SpanRange {
                        start: match attrs_start {
                            Some(p) => p,
                            None => start,
                        },
                        end: match attrs_end {
                            Some(p) => p,
                            None => start,
                        },
                    };
                    proof {
                        assert(aspan@ == aspan_or(
                            Self::opt_span(attrs_start, attrs_end),
                            lsp@.start,
                            lsp@.start,
                        ));
                    }
                    match parse_attrs_from_buffer(attrs_src.as_str(), aspan) {
                        Err(e) => {
                            return Err(e);
                        },
                        Ok(attrs) => {
                            let n = Node::Element(Element {
                                name,
                                attrs,
                                children: Vec::new(),
                                span: SpanRange { start, end: sp_gt.end },
                            });
                            proof {
                                assert(nodes_view(Seq::<Node>::empty()) =~= Seq::<NodeV>::empty());
                                match n {
                                    Node::Element(ref el) => {
                                        assert(el.children@ =~= Seq::<Node>::empty());
                                    },
                                    _ => {},
                                }
                            }
                            return Ok(n);
                        },
                    }
                } else {
                    return Err(ParseError {
                        msg: String::from_str("unexpected '/' in tag head"),
                        span: sp,
                    });
                }
            } else if kind == 2 {
                let end_open = sp;
                self.bump();
                proof {
                    assert(sp_tag_head(rest_pre, be) == Parsed::Good(
                        HeadV::Open {
                            src: Seq::<char>::empty(),
                            aspan: None,
                            gt_end: end_open@.end,
                            rest: self.rest(),
                        },
                    ));
                    assert(src_pre + Seq::<char>::empty() =~= src_pre);
                }
                let aspan = SpanRange {
                    start: match attrs_start {
                        Some(p) => p,
                        None => start,
                    },
                    end: match attrs_end {
                        Some(p) => p,
                        None => end_open.end,
                    },
                };
                proof {
                    assert(aspan@ == aspan_or(
                        Self::opt_span(attrs_start, attrs_end),
                        lsp@.start,
                        end_open@.end,
                    ));
                }
                let attrs = match parse_attrs_from_buffer(attrs_src.as_str(), aspan) {
                    Err(e) => {
                        return Err(e);
                    },
                    Ok(attrs) => attrs,
                };
                let ghost restc0 = self.rest();
                proof {
                    assert(fuel0 - 1 >= restc0.len() + 1);
                    lemma_children_fuel(namev, restc0, be, (fuel0 - 1) as nat, doc_fuel(restc0));
                }
                let mut children: Vec<Node> = Vec::new();
                loop
                    invariant
                        self.wf(),
                        self.bend() == be,
                        self.rest().len() <= restc0.len(),
                        match run_children(namev, self.rest(), be) {
                            Parsed::Good((ch, end, rst)) => run_children(namev, restc0, be)
                                == Parsed::Good((nodes_view(children@) + ch, end, rst)),
                            Parsed::Bad(e) => run_children(namev, restc0, be) == Parsed::<(
                                Seq<NodeV>,
                                int,
                                Toks,
                            )>::Bad(e),
                            Parsed::Spent => run_children(namev, restc0, be) == Parsed::<(
                                Seq<NodeV>,
                                int,
                                Toks,
                            )>::Spent,
                        },
                    decreases self.toks@.len() - self.i,
                {
                    if self.i >= self.toks.len() {
                        let e = self.byte_end();
                        proof {
                            assert(self.rest().len() == 0);
                        }
                        return Err(ParseError {
                            msg: String::from_str("unexpected EOF in element body"),
                            span: SpanRange::new(e, e),
                        });
                    }
                    let ghost rest_cpre = self.rest();
                    let ghost kids_pre = children@;
                    proof {
                        assert(rest_cpre[0] == vtoks(self.toks@)[self.i as int]);
                    }
                    let csp = self.toks[self.i].1;
                    let ckind: u8 = match &self.toks[self.i].0 {
                        Tok::LAngle => 1,
                        Tok::LBrace => 2,
                        Tok::Text(_) => 3,
                        _ => 4,
                    };
                    if ckind == 1 {
                        let next_slash = if self.i + 1 < self.toks.len() {
                            match &self.toks[self.i + 1].0 {
                                Tok::Slash => true,
                                _ => false,
                            }
                        } else {
                            false
                        };
                        proof {
                            if self.i as int + 1 < self.toks@.len() {
                                assert(rest_cpre[1] == vtoks(self.toks@)[self.i as int + 1]);
                            }
                        }
                        if next_slash {
                            self.bump();
                            self.bump();
                            proof {
                                assert(self.rest() =~= rest_cpre.skip(2));
                            }
                            let cn = match self.parse_name() {
                                Err(e) => {
                                    return Err(e);
                                },
                                Ok(v) => v,
                            };
                            let close_name = cn.0;
                            let sp_close = cn.1;
                            if !(close_name == name) {
                                let m = compose_msg(
                                    "unmatched closing tag: expected </",
                                    name.as_str(),
                                    ">",
                                );
                                return Err(ParseError { msg: m, span: sp_close });
                            }
                            let end_angle = match self.expect(Tok::RAngle) {
                                Err(e) => {
                                    return Err(e);
                                },
                                Ok(sp2) => sp2,
                            };
                            let n = Node::Element(Element {
                                name,
                                attrs,
                                children,
                                span: SpanRange { start, end: end_angle.end },
                            });
                            proof {
                                assert(nodes_view(kids_pre) + Seq::<NodeV>::empty() =~= nodes_view(
                                    kids_pre,
                                ));
                                match n {
                                    Node::Element(ref el) => {
                                        assert(nodes_view(el.children@) == nodes_view(kids_pre));
                                        assert(attrs_view(el.attrs@) == attrs_view(attrs@));
                                    },
                                    _ => {},
                                }
                            }
                            return Ok(n);
                        } else {
                            let child = match self.parse_element() {
                                Err(e) => {
                                    return Err(e);
                                },
                                Ok(c) => c,
                            };
                            children.push(child);
                            proof {
                                lemma_nodes_view_push(kids_pre, child);
                                assert(fuel0 >= 1);
                                let fpre = doc_fuel(rest_cpre);
                                assert(sp_element(rest_cpre, be, fpre) == Parsed::Good(
                                    (child@, self.rest()),
                                ));
                                assert(self.rest().len() < rest_cpre.len());
                                lemma_children_fuel(
                                    namev,
                                    self.rest(),
                                    be,
                                    (fpre - 1) as nat,
                                    doc_fuel(self.rest()),
                                );
                                match run_children(namev, self.rest(), be) {
                                    Parsed::Good((ch, end, rst)) => {
                                        assert(run_children(namev, rest_cpre, be) == Parsed::Good(
                                            ((seq![child@] + ch), end, rst),
                                        ));
                                        assert(nodes_view(kids_pre) + (seq![child@] + ch) =~= (
                                        nodes_view(kids_pre) + seq![child@]) + ch);
                                    },
                                    _ => {},
                                }
                            }
                        }
                    } else if ckind == 2 {
                        let child = match self.parse_i11n() {
                            Err(e) => {
                                return Err(e);
                            },
                            Ok(c) => c,
                        };
                        children.push(child);
                        proof {
                            lemma_nodes_view_push(kids_pre, child);
                            assert(sp_i11n(rest_cpre, be) == Parsed::Good((child@, self.rest())));
                            assert(self.rest().len() < rest_cpre.len());
                            lemma_children_fuel(
                                namev,
                                self.rest(),
                                be,
                                (doc_fuel(rest_cpre) - 1) as nat,
                                doc_fuel(self.rest()),
                            );
                            match run_children(namev, self.rest(), be) {
                                Parsed::Good((ch, end, rst)) => {
                                    assert(run_children(namev, rest_cpre, be) == Parsed::Good(
                                        ((seq![child@] + ch), end, rst),
                                    ));
                                    assert(nodes_view(kids_pre) + (seq![child@] + ch) =~= (
                                    nodes_view(kids_pre) + seq![child@]) + ch);
                                },
                                _ => {},
                            }
                        }
                    } else if ckind == 3 {
                        let child = match self.parse_text() {
                            Err(e) => {
                                return Err(e);
                            },
                            Ok(c) => c,
                        };
                        children.push(child);
                        proof {
                            lemma_nodes_view_push(kids_pre, child);
                            assert(sp_text(rest_cpre, be) == Parsed::Good((child@, self.rest())));
                            assert(self.rest().len() < rest_cpre.len());
                            lemma_children_fuel(
                                namev,
                                self.rest(),
                                be,
                                (doc_fuel(rest_cpre) - 1) as nat,
                                doc_fuel(self.rest()),
                            );
                            match run_children(namev, self.rest(), be) {
                                Parsed::Good((ch, end, rst)) => {
                                    assert(run_children(namev, rest_cpre, be) == Parsed::Good(
                                        ((seq![child@] + ch), end, rst),
                                    ));
                                    assert(nodes_view(kids_pre) + (seq![child@] + ch) =~= (
                                    nodes_view(kids_pre) + seq![child@]) + ch);
                                },
                                _ => {},
                            }
                        }
                    } else {
                        let m = match &self.toks[self.i].0 {
                            t => {
                                let mut m = String::from_str("unexpected token in element body: ");
                                m.append(tok_dbg_str(t));
                                m
                            },
                        };
                        return Err(ParseError { msg: m, span: csp });
                    }
                }
            } else {
                let m = match &self.toks[self.i].0 {
                    t => {
                        let mut m = String::from_str("unexpected token in tag head: ");
                        m.append(tok_dbg_str(t));
                        m
                    },
                };
                return Err(ParseError { msg: m, span: sp });
            }
        }
    }

    /// One interpolation node: `{ expr }`. A nested `{` is rejected.
    #[verifier::loop_isolation(false)]
    fn parse_i11n(&mut self) -> (r: PResult<Node>)
        requires
            old(self).wf(),
        ensures
            final(self).wf(),
            final(self).bend() == old(self).bend(),
            match r {
                Ok(n) => sp_i11n(old(self).rest(), old(self).bend()) == Parsed::Good(
                    (n@, final(self).rest()),
                ) && final(self).rest().len() < old(self).rest().len(),
                Err(e) => sp_i11n(old(self).rest(), old(self).bend()) == Parsed::<(
                    NodeV,
                    Toks,
                )>::Bad(e@),
            },
    {
        let ghost rest0 = self.rest();
        let ghost be = self.bend();
        let start_sp = match self.expect(Tok::LBrace) {
            Ok(sp) => sp,
            Err(e) => {
                return Err(e);
            },
        };
        let ghost rest1 = self.rest();
        let mut expr_src = String::new();
        loop
            invariant
                self.wf(),
                self.bend() == be,
                self.rest().len() <= rest1.len(),
                rest1.len() < rest0.len(),
                sp_expect(rest0, TokV::LBrace, be) == Parsed::Good((start_sp@, rest1)),
                match sp_i11n_body(self.rest(), be) {
                    Parsed::Good((v, e, rst)) => sp_i11n_body(rest1, be) == Parsed::Good(
                        (expr_src@ + v, e, rst),
                    ),
                    Parsed::Bad(er) => sp_i11n_body(rest1, be) == Parsed::<(
                        Seq<char>,
                        int,
                        Toks,
                    )>::Bad(er),
                    Parsed::Spent => sp_i11n_body(rest1, be) == Parsed::<(
                        Seq<char>,
                        int,
                        Toks,
                    )>::Spent,
                },
            decreases self.toks@.len() - self.i,
        {
            if self.i >= self.toks.len() {
                let e = self.byte_end();
                proof {
                    assert(self.rest().len() == 0);
                }
                return Err(ParseError {
                    msg: String::from_str("unexpected EOF in { }"),
                    span: SpanRange::new(e, e),
                });
            }
            let ghost rest_pre = self.rest();
            let ghost expr_pre = expr_src@;
            proof {
                assert(rest_pre[0] == vtoks(self.toks@)[self.i as int]);
            }
            let sp = self.toks[self.i].1;
            let mut text_took = false;
            let mut kind: u8 = 0;
            match &self.toks[self.i].0 {
                Tok::RBrace => {
                    kind = 1;
                },
                Tok::Text(s) => {
                    expr_src.append(s.as_str());
                    text_took = true;
                },
                Tok::LBrace => {
                    kind = 2;
                },
                _ => {
                    kind = 3;
                },
            }
            if text_took {
                self.bump();
                proof {
                    match rest_pre[0].tok {
                        TokV::Text(sv) => {
                            match sp_i11n_body(self.rest(), be) {
                                Parsed::Good((v, e, rst)) => {
                                    assert(expr_pre + (sv + v) =~= (expr_pre + sv) + v);
                                },
                                _ => {},
                            }
                        },
                        _ => {
                            assert(false);
                        },
                    }
                }
            } else if kind == 1 {
                self.bump();
                let n = Node::I11n(crate::nodes::Interpolation {
                    expr_src,
                    span: SpanRange { start: start_sp.start, end: sp.end },
                });
                proof {
                    assert(sp_i11n_body(rest_pre, be) == Parsed::Good(
                        (Seq::<char>::empty(), sp@.end, self.rest()),
                    ));
                    assert(expr_src@ + Seq::<char>::empty() =~= expr_src@);
                }
                return Ok(n);
            } else if kind == 2 {
                return Err(ParseError {
                    msg: String::from_str("nested '{' in interpolation"),
                    span: sp,
                });
            } else {
                return Err(ParseError {
                    msg: String::from_str("unexpected token inside { }"),
                    span: sp,
                });
            }
        }
    }
}

/// Top-level utility: parse a markup source string into its AST, or
/// return the first structural error with its byte span.
pub fn parse_str(src: &str) -> (r: PResult<Vec<Node>>)
    ensures
        match r {
            Ok(ns) => spec_parse(src@) == Parsed::Good(nodes_view(ns@)),
            Err(e) => spec_parse(src@) == Parsed::<Seq<NodeV>>::Bad(e@),
        },
{
    let mut p = Parser::new(src);
    p.parse_nodes()
}

} // verus!