//! Single-pass scanner turning the source string into a flat sequence of
//! `(Token, Span)` pairs whose byte spans tile the whole input. It cannot
//! fail: malformed structure is left for the parser to detect.

use vstd::prelude::*;
use crate::span_range::SpanRange;
use crate::span_range::spanv;
use crate::strutil::bpos;
use crate::strutil::byte_len;
use crate::strutil::char_byte_len;
use crate::strutil::is_special;
use crate::strutil::lemma_bpos_sub;
use crate::strutil::lemma_byte_len_prefix;
use crate::strutil::lemma_byte_len_step;
use crate::strutil::str_byte_len;
use crate::tok::Tok;
use crate::tok::TokSpan;
use crate::tok::TokV;
use crate::tok::vtoks;

verus! {

/// A text run ends here: at a structural character, where `/` counts
/// only as the start of the two-character sequence `/>`.
pub open spec fn run_stop(s: Seq<char>, j: int) -> bool {
    ||| s[j] == '<' || s[j] == '>' || s[j] == '{' || s[j] == '}'
    ||| (s[j] == '/' && j + 1 < s.len() && s[j + 1] == '>')
}

/// First position at or after `j` where a text run ends.
pub open spec fn sp_run_end(s: Seq<char>, j: int) -> int
    decreases s.len() - j,
    when 0 <= j <= s.len()
{
    if j >= s.len() {
        j
    } else if run_stop(s, j) {
        j
    } else {
        sp_run_end(s, j + 1)
    }
}

pub proof fn lemma_run_end_bounds(s: Seq<char>, j: int)
    requires
        0 <= j <= s.len(),
    ensures
        j <= sp_run_end(s, j) <= s.len(),
        forall|k: int| j <= k < sp_run_end(s, j) ==> !run_stop(s, k),
        sp_run_end(s, j) < s.len() ==> run_stop(s, sp_run_end(s, j)),
    decreases s.len() - j,
{
    if j < s.len() && !run_stop(s, j) {
        lemma_run_end_bounds(s, j + 1);
    }
}

/// One step of the lexer: the token starting at character index `ci`
/// (with its byte span) and the character index after it.
pub open spec fn sp_next(s: Seq<char>, ci: int) -> Option<(TokSpan, int)> {
    if !(0 <= ci < s.len()) {
        None
    } else {
        let c = s[ci];
        if c == '<' {
            Some((TokSpan { tok: TokV::LAngle, span: spanv(bpos(s, ci), bpos(s, ci + 1)) }, ci + 1))
        } else if c == '>' {
            Some((TokSpan { tok: TokV::RAngle, span: spanv(bpos(s, ci), bpos(s, ci + 1)) }, ci + 1))
        } else if c == '/' {
            Some((TokSpan { tok: TokV::Slash, span: spanv(bpos(s, ci), bpos(s, ci + 1)) }, ci + 1))
        } else if c == '{' {
            if ci + 1 < s.len() && s[ci + 1] == '{' {
                Some((TokSpan { tok: TokV::Text(seq!['{']), span: spanv(bpos(s, ci), bpos(s, ci + 2)) }, ci + 2))
            } else {
                Some((TokSpan { tok: TokV::LBrace, span: spanv(bpos(s, ci), bpos(s, ci + 1)) }, ci + 1))
            }
        } else if c == '}' {
            if ci + 1 < s.len() && s[ci + 1] == '}' {
                Some((TokSpan { tok: TokV::Text(seq!['}']), span: spanv(bpos(s, ci), bpos(s, ci + 2)) }, ci + 2))
            } else {
                Some((TokSpan { tok: TokV::RBrace, span: spanv(bpos(s, ci), bpos(s, ci + 1)) }, ci + 1))
            }
        } else {
            let e = sp_run_end(s, ci);
            Some((TokSpan { tok: TokV::Text(s.subrange(ci, e)), span: spanv(bpos(s, ci), bpos(s, e)) }, e))
        }
    }
}

/// The token sequence of the source from character index `ci` on.
pub open spec fn sp_lex_from(s: Seq<char>, ci: int) -> Seq<TokSpan>
    decreases s.len() - ci,
    when 0 <= ci <= s.len()
    via sp_lex_from_dec
{
    match sp_next(s, ci) {
        None => seq![],
        Some(step) => seq![step.0] + sp_lex_from(s, step.1),
    }
}

#[via_fn]
proof fn sp_lex_from_dec(s: Seq<char>, ci: int) {
    if 0 <= ci < s.len() {
        let c = s[ci];
        if !is_special(s[ci]) {
            lemma_run_end_bounds(s, ci);
            assert(!run_stop(s, ci));
        }
    }
}

/// All tokens of the source, in source order.
pub open spec fn spec_tokens(s: Seq<char>) -> Seq<TokSpan> {
    sp_lex_from(s, 0)
}

/// The spans of `ts` tile `[lo, hi)`: the first starts at `lo`, each
/// starts where the one before it ended, and the last ends at `hi`.
pub open spec fn spans_cover(ts: Seq<TokSpan>, lo: int, hi: int) -> bool
    decreases ts.len(),
{
    if ts.len() == 0 {
        lo == hi
    } else {
        ts[0].span.start == lo && lo <= ts[0].span.end && spans_cover(
            ts.drop_first(),
            ts[0].span.end,
            hi,
        )
    }
}

/// The lexer's spans partition the byte range of the remaining input:
/// no gaps, no overlaps.
pub proof fn lemma_lex_spans_cover(s: Seq<char>, ci: int)
    requires
        0 <= ci <= s.len(),
    ensures
        spans_cover(sp_lex_from(s, ci), bpos(s, ci), byte_len(s)),
    decreases s.len() - ci,
{
    if ci >= s.len() {
        lemma_byte_len_prefix(s, ci);
        assert(sp_lex_from(s, ci) =~= Seq::<TokSpan>::empty());
    } else {
        let step = sp_next(s, ci).unwrap();
        let ci2 = step.1;
        if !is_special(s[ci]) {
            lemma_run_end_bounds(s, ci);
            assert(!run_stop(s, ci));
        }
        assert(ci < ci2 <= s.len());
        lemma_bpos_sub(s, ci, ci2);
        crate::strutil::lemma_byte_len_lb(s.subrange(ci, ci2));
        lemma_lex_spans_cover(s, ci2);
        assert(sp_lex_from(s, ci).drop_first() =~= sp_lex_from(s, ci2));
    }
}

/// Every token the lexer produces is well formed: its span is wide
/// enough for the bytes of its text.
pub proof fn lemma_lex_toks_wf(s: Seq<char>, ci: int)
    requires
        0 <= ci <= s.len(),
    ensures
        crate::tok::toks_wf(sp_lex_from(s, ci)),
    decreases s.len() - ci,
{
    if ci < s.len() {
        let step = sp_next(s, ci).unwrap();
        let ci2 = step.1;
        if !is_special(s[ci]) {
            lemma_run_end_bounds(s, ci);
            assert(!run_stop(s, ci));
            lemma_bpos_sub(s, ci, ci2);
        }
        if s[ci] == '{' && ci + 1 < s.len() && s[ci + 1] == '{' {
            crate::strutil::lemma_byte_len_singleton('{');
            lemma_byte_len_step(s, ci);
            lemma_byte_len_step(s, ci + 1);
            crate::strutil::lemma_byte_len_lb(seq!['{']);
        }
        if s[ci] == '}' && ci + 1 < s.len() && s[ci + 1] == '}' {
            crate::strutil::lemma_byte_len_singleton('}');
            lemma_byte_len_step(s, ci);
            lemma_byte_len_step(s, ci + 1);
            crate::strutil::lemma_byte_len_lb(seq!['}']);
        }
        assert(ci < ci2 <= s.len());
        lemma_lex_toks_wf(s, ci2);
        assert(crate::tok::tokv_wf(step.0));
        assert forall|k: int| 0 <= k < sp_lex_from(s, ci).len() implies crate::tok::tokv_wf(
            #[trigger] sp_lex_from(s, ci)[k],
        ) by {
            if k > 0 {
                assert(sp_lex_from(s, ci)[k] == sp_lex_from(s, ci2)[k - 1]);
            }
        }
    } else {
        assert(sp_lex_from(s, ci) =~= Seq::<TokSpan>::empty());
    }
}

/// The scanner: a character cursor `ci` into the source together with the
/// byte position `i` of that cursor.
pub(crate) struct Lexer<'a> {
    pub(crate) src: &'a str,
    pub(crate) ci: usize,
    pub(crate) i: usize,
    pub(crate) clen: usize,
    pub(crate) blen: usize,
}

impl<'a> Lexer<'a> {
    pub(crate) open spec fn wf(&self) -> bool {
        &&& self.clen == self.src@.len()
        &&& self.blen == byte_len(self.src@)
        &&& self.ci <= self.clen
        &&& self.i == bpos(self.src@, self.ci as int)
    }

    pub(crate) open spec fn view_src(&self) -> Seq<char> {
        self.src@
    }

    pub(crate) fn new(src: &'a str) -> (r: Self)
        ensures
            r.wf(),
            r.view_src() == src@,
            r.ci == 0,
    {
        let clen = src.unicode_len();
        let blen = str_byte_len(src);
        proof {
            assert(src@.take(0) =~= Seq::<char>::empty());
            assert(vstd::utf8::encode_utf8(Seq::<char>::empty()) =~= Seq::<u8>::empty());
        }
        Self { src, ci: 0, i: 0, clen, blen }
    }

    fn eof(&self) -> (r: bool)
        requires
            self.wf(),
        ensures
            r == (self.ci as int >= self.view_src().len()),
    {
        self.ci >= self.clen
    }

    fn peek(&self) -> (r: Option<char>)
        requires
            self.wf(),
        ensures
            match r {
                Some(c) => self.ci < self.view_src().len() && c == self.view_src()[self.ci as int],
                None => self.ci >= self.view_src().len(),
            },
    {
        if self.eof() {
            None
        } else {
            Some(self.src.get_char(self.ci))
        }
    }

    fn bump(&mut self) -> (r: Option<char>)
        requires
            old(self).wf(),
        ensures
            final(self).wf(),
            final(self).src == old(self).src,
            match r {
                Some(c) => {
                    &&& old(self).ci < old(self).view_src().len()
                    &&& c == old(self).view_src()[old(self).ci as int]
                    &&& final(self).ci == old(self).ci + 1
                },
                None => old(self).ci >= old(self).view_src().len() && *final(self) == *old(self),
            },
    {
        if self.ci >= self.clen {
            return None;
        }
        let c = self.src.get_char(self.ci);
        let cb = char_byte_len(c);
        proof {
            lemma_byte_len_step(self.src@, self.ci as int);
            lemma_byte_len_prefix(self.src@, self.ci as int + 1);
        }
        self.ci = self.ci + 1;
        self.i = self.i + cb;
        Some(c)
    }

    /// Reads up to the nearest structural character, where `/` breaks the
    /// run only as part of the two-character sequence `/>`.
    fn read_text(&mut self) -> (r: String)
        requires
            old(self).wf(),
            old(self).ci < old(self).view_src().len(),
        ensures
            final(self).wf(),
            final(self).src == old(self).src,
            final(self).ci as int == sp_run_end(old(self).view_src(), old(self).ci as int),
            r@ == old(self).view_src().subrange(old(self).ci as int, final(self).ci as int),
    {
        let ghost s0 = self.src@;
        let start: usize = self.ci;
        loop
            invariant
                self.wf(),
                self.src == old(self).src,
                self.src@ == s0,
                start <= self.ci <= self.clen,
                0 <= start as int <= s0.len(),
                sp_run_end(s0, start as int) == sp_run_end(s0, self.ci as int),
            ensures
                self.wf(),
                self.src == old(self).src,
                self.src@ == s0,
                start <= self.ci <= self.clen,
                self.ci as int == sp_run_end(s0, start as int),
            decreases self.clen - self.ci,
        {
            if self.ci >= self.clen {
                proof {
                    assert(sp_run_end(s0, self.ci as int) == self.ci as int);
                }
                break;
            }
            let c = self.src.get_char(self.ci);
            if c == '<' || c == '>' || c == '{' || c == '}' {
                proof {
                    assert(run_stop(s0, self.ci as int));
                    assert(sp_run_end(s0, self.ci as int) == self.ci as int);
                }
                break;
            }
            if c == '/' {
                if self.ci + 1 < self.clen {
                    let c2 = self.src.get_char(self.ci + 1);
                    if c2 == '>' {
                        proof {
                            assert(run_stop(s0, self.ci as int));
                            assert(sp_run_end(s0, self.ci as int) == self.ci as int);
                        }
                        break;
                    }
                } else {
                    // a trailing '/' at end of input stays in the run
                }
                proof {
                    assert(!run_stop(s0, self.ci as int));
                }
            }
            proof {
                lemma_byte_len_step(s0, self.ci as int);
                lemma_byte_len_prefix(s0, self.ci as int + 1);
            }
            self.ci = self.ci + 1;
            self.i = self.i + char_byte_len(c);
        }
        let sub = self.src.substring_char(start, self.ci);
        sub.to_owned()
    }

    fn next_tok(&mut self) -> (r: Option<(Tok, SpanRange)>)
        requires
            old(self).wf(),
        ensures
            final(self).wf(),
            final(self).src == old(self).src,
            match r {
                Some(t) => {
                    &&& sp_next(old(self).view_src(), old(self).ci as int) == Some((
                        TokSpan { tok: t.0@, span: t.1@ },
                        final(self).ci as int,
                    ))
                    &&& final(self).ci > old(self).ci
                },
                None => old(self).ci >= old(self).view_src().len() && *final(self) == *old(self),
            },
    {
        let ghost s0 = self.src@;
        let ghost ci0 = self.ci as int;
        let start = self.i;
        match self.peek() {
            None => None,
            Some(c) => {
                if c == '<' {
                    self.bump();
                    Some((Tok::LAngle, SpanRange::new(start, self.i)))
                } else if c == '>' {
                    self.bump();
                    Some((Tok::RAngle, SpanRange::new(start, self.i)))
                } else if c == '/' {
                    self.bump();
                    Some((Tok::Slash, SpanRange::new(start, self.i)))
                } else if c == '{' {
                    self.bump();
                    let two = match self.peek() {
                        Some(c2) => c2 == '{',
                        None => false,
                    };
                    if two {
                        self.bump();
                        let v = String::from_str("{");
                        proof {
                            reveal_strlit("{");
                            assert(v@ =~= seq!['{']);
                        }
                        Some((Tok::Text(v), SpanRange::new(start, self.i)))
                    } else {
                        Some((Tok::LBrace, SpanRange::new(start, self.i)))
                    }
                } else if c == '}' {
                    self.bump();
                    let two = match self.peek() {
                        Some(c2) => c2 == '}',
                        None => false,
                    };
                    if two {
                        self.bump();
                        let v = String::from_str("}");
                        proof {
                            reveal_strlit("}");
                            assert(v@ =~= seq!['}']);
                        }
                        Some((Tok::Text(v), SpanRange::new(start, self.i)))
                    } else {
                        Some((Tok::RBrace, SpanRange::new(start, self.i)))
                    }
                } else {
                    let s = self.read_text();
                    proof {
                        lemma_run_end_bounds(s0, ci0);
                        assert(!run_stop(s0, ci0));
                        assert(sp_run_end(s0, ci0) > ci0);
                    }
                    Some((Tok::Text(s), SpanRange::new(start, self.i)))
                }
            }
        }
    }

    pub(crate) fn all(self) -> (r: Vec<(Tok, SpanRange)>)
        requires
            self.wf(),
        ensures
            vtoks(r@) == sp_lex_from(self.view_src(), self.ci as int),
    {
        let ghost s0 = self.src@;
        let ghost ci0 = self.ci as int;
        let mut lx = self;
        let mut v: Vec<(Tok, SpanRange)> = Vec::new();
        loop
            invariant
                lx.wf(),
                lx.src@ == s0,
                vtoks(v@) + sp_lex_from(s0, lx.ci as int) == sp_lex_from(s0, ci0),
            ensures
                vtoks(v@) == sp_lex_from(s0, ci0),
            decreases s0.len() - lx.ci,
        {
            let ghost ci_pre = lx.ci as int;
            let ghost v_pre = v@;
            match lx.next_tok() {
                Some(t) => {
                    v.push(t);
                    proof {
                        let tv = TokSpan { tok: t.0@, span: t.1@ };
                        assert(vtoks(v@) =~= vtoks(v_pre) + seq![tv]);
                        assert(sp_lex_from(s0, ci_pre) == seq![tv] + sp_lex_from(s0, lx.ci as int));
                        assert(vtoks(v@) + sp_lex_from(s0, lx.ci as int) =~= (vtoks(v_pre) + sp_lex_from(
                            s0,
                            ci_pre,
                        )));
                    }
                },
                None => {
                    proof {
                        assert(sp_lex_from(s0, lx.ci as int) =~= Seq::<TokSpan>::empty());
                        assert(vtoks(v@) =~= vtoks(v@) + Seq::<TokSpan>::empty());
                    }
                    break;
                },
            }
        }
        v
    }
}

} // verus!
