//! The uniform error carrier for every fallible parsing operation.

use vstd::prelude::*;
use crate::span_range::SpanRange;
use crate::span_range::SpanV;

verus! {

/// Mathematical value of a parse error.
#[verifier::ext_equal]
pub ghost struct ErrV {
    pub msg: Seq<char>,
    pub span: SpanV,
}

/// Parser error with a human-readable message and the byte range it
/// points at. Terminal: the first error aborts the whole parse.
#[derive(Debug)]
pub struct ParseError {
    pub msg: String,
    pub span: SpanRange,
}

impl View for ParseError {
    type V = ErrV;

    open spec fn view(&self) -> ErrV {
        ErrV { msg: self.msg@, span: self.span@ }
    }
}

pub open spec fn errv(msg: Seq<char>, span: SpanV) -> ErrV {
    ErrV { msg, span }
}

/// The decimal spelling of a nonnegative number, most significant digit
/// first.
pub open spec fn dec_seq(n: int) -> Seq<char>
    decreases n,
    when n >= 0
{
    if n < 10 {
        seq![((48 + n) as u8) as char]
    } else {
        dec_seq(n / 10) + seq![((48 + n % 10) as u8) as char]
    }
}

fn dec_exec(n: usize) -> (r: String)
    ensures
        r@ == dec_seq(n as int),
    decreases n,
{
    if n < 10 {
        let mut s = String::new();
        crate::strutil::push_char(&mut s, ((48 + n as u8)) as char);
        proof {
            assert(Seq::<char>::empty() + seq![((48 + n as int) as u8) as char] =~= seq![
                ((48 + n as int) as u8) as char,
            ]);
        }
        s
    } else {
        let mut s = dec_exec(n / 10);
        crate::strutil::push_char(&mut s, (48 + (n % 10) as u8) as char);
        s
    }
}

impl ParseError {
    /// The error rendered for people: the message followed by the byte
    /// range it points at.
    pub fn to_message(&self) -> (r: String)
        ensures
            r@ == self@.msg + " at bytes "@ + dec_seq(self@.span.start) + ".."@ + dec_seq(
                self@.span.end,
            ),
    {
        let mut m = self.msg.clone();
        m.append(" at bytes ");
        m.append(dec_exec(self.span.start.0).as_str());
        m.append("..");
        m.append(dec_exec(self.span.end.0).as_str());
        m
    }
}

} // verus!
