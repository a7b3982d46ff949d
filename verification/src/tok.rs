//! Lexical tokens.

use vstd::prelude::*;
use crate::span_range::SpanRange;
use crate::span_range::SpanV;

verus! {

/// Mathematical value of a token.
#[verifier::ext_equal]
pub ghost enum TokV {
    LAngle,
    RAngle,
    Slash,
    LBrace,
    RBrace,
    Text(Seq<char>),
}

/// One lexical unit: a structural character or a text run (with the
/// escapes `{{` and `}}` already resolved to single braces).
#[derive(Debug, Clone)]
pub enum Tok {
    LAngle,
    RAngle,
    Slash,
    LBrace,
    RBrace,
    Text(String),
}

impl View for Tok {
    type V = TokV;

    open spec fn view(&self) -> TokV {
        match self {
            Tok::LAngle => TokV::LAngle,
            Tok::RAngle => TokV::RAngle,
            Tok::Slash => TokV::Slash,
            Tok::LBrace => TokV::LBrace,
            Tok::RBrace => TokV::RBrace,
            Tok::Text(s) => TokV::Text(s@),
        }
    }
}

/// Token sequences as the parser's mathematical state.
pub ghost struct TokSpan {
    pub tok: TokV,
    pub span: SpanV,
}

/// The view of the lexer's output: each token paired with its span.
pub open spec fn vtoks(ts: Seq<(Tok, SpanRange)>) -> Seq<TokSpan> {
    ts.map(|i: int, t: (Tok, SpanRange)| TokSpan { tok: t.0@, span: t.1@ })
}

/// A text token's span is wide enough for the bytes of its text: equal
/// for a text run, wider for a collapsed `{{` or `}}` escape. The
/// parser's byte arithmetic on token text rests on this.
pub open spec fn tokv_wf(t: TokSpan) -> bool {
    match t.tok {
        TokV::Text(s) => t.span.start + crate::strutil::byte_len(s) <= t.span.end,
        _ => true,
    }
}

pub open spec fn toks_wf(ts: Seq<TokSpan>) -> bool {
    forall|k: int| 0 <= k < ts.len() ==> tokv_wf(#[trigger] ts[k])
}

} // verus!
