//! Generic attribute-value decoding: booleans, small integers,
//! enumerations and colors, each from the raw string the parser
//! extracted.

use vstd::prelude::*;
use crate::strutil::is_ws;
use crate::strutil::push_char;

verus! {

/// An RGBA color, one byte per channel.
#[derive(Debug, Clone, Copy, PartialEq, Eq, Structural)]
pub struct Rgba {
    pub r: u8,
    pub g: u8,
    pub b: u8,
    pub a: u8,
}

/// ASCII lowercasing of one character, the fold `str::to_ascii_lowercase`
/// applies: `A`..`Z` move to `a`..`z`, everything else stays.
pub open spec fn lower_char(c: char) -> char {
    if 'A' <= c && c <= 'Z' {
        ((c as u32) + 32) as char
    } else {
        c
    }
}

pub open spec fn lower_seq(s: Seq<char>) -> Seq<char> {
    s.map(|i: int, c: char| lower_char(c))
}

/// First index at or after `j` that is not whitespace.
pub open spec fn ws_run(s: Seq<char>, j: int) -> int
    decreases s.len() - j,
    when 0 <= j <= s.len()
{
    if j >= s.len() {
        j
    } else if is_ws(s[j]) {
        ws_run(s, j + 1)
    } else {
        j
    }
}

/// Length of `s` with trailing whitespace removed.
pub open spec fn trim_end_idx(s: Seq<char>) -> int
    decreases s.len(),
{
    if s.len() == 0 {
        0
    } else if is_ws(s.last()) {
        trim_end_idx(s.drop_last())
    } else {
        s.len() as int
    }
}

/// What `str::trim` leaves: the input without leading and trailing
/// whitespace.
pub open spec fn trim_spec(s: Seq<char>) -> Seq<char> {
    let t1 = s.skip(ws_run(s, 0));
    t1.take(trim_end_idx(t1))
}

fn ws_char_full(c: char) -> (r: bool)
    ensures
        r == is_ws(c),
{
    crate::strutil::ws_char(c)
}

/// Removes leading and trailing whitespace, as `str::trim` does.
fn trim_exec(s: &str) -> (r: &str)
    ensures
        r@ == trim_spec(s@),
{
    let ghost s0 = s@;
    let n = s.unicode_len();
    let mut a: usize = 0;
    loop
        invariant
            a <= n,
            n == s0.len(),
            s@ == s0,
            ws_run(s0, 0) == ws_run(s0, a as int),
        ensures
            a <= n,
            a as int == ws_run(s0, 0),
        decreases n - a,
    {
        if a >= n {
            break;
        }
        if !ws_char_full(s.get_char(a)) {
            proof {
                assert(ws_run(s0, a as int) == a as int);
            }
            break;
        }
        a = a + 1;
    }
    let ghost ai = a as int;
    let ghost t1 = s0.skip(ai);
    proof {
        assert(t1.take(n as int - ai) =~= t1);
    }
    let mut b: usize = n;
    loop
        invariant
            a <= b <= n,
            n == s0.len(),
            s@ == s0,
            ai == a as int,
            t1 == s0.skip(ai),
            trim_end_idx(t1) == trim_end_idx(t1.take(b as int - ai)),
        ensures
            a <= b <= n,
            b as int - ai == trim_end_idx(t1),
        decreases b,
    {
        if b <= a {
            proof {
                assert(t1.take(0) =~= Seq::<char>::empty());
            }
            break;
        }
        let c = s.get_char(b - 1);
        proof {
            assert(t1.take(b as int - ai)[b as int - ai - 1] == t1[b as int - ai - 1]);
            assert(t1[b as int - ai - 1] == s0[b as int - 1]);
            assert(t1.take(b as int - ai).last() == s0[b as int - 1]);
        }
        if !ws_char_full(c) {
            proof {
                assert(trim_end_idx(t1.take(b as int - ai)) == b as int - ai);
            }
            break;
        }
        proof {
            assert(t1.take(b as int - ai).drop_last() =~= t1.take(b as int - 1 - ai));
        }
        b = b - 1;
    }
    let r = s.substring_char(a, b);
    proof {
        assert(r@ =~= t1.take(b as int - ai));
    }
    r
}

fn lower_char_exec(c: char) -> (r: char)
    ensures
        r == lower_char(c),
{
    if 'A' <= c && c <= 'Z' {
        (((c as u32) + 32) as u8) as char
    } else {
        c
    }
}

/// ASCII-lowercases a string, as `str::to_ascii_lowercase` does.
fn lower_exec(s: &str) -> (r: String)
    ensures
        r@ == lower_seq(s@),
{
    let ghost s0 = s@;
    let n = s.unicode_len();
    let mut out = String::new();
    let mut j: usize = 0;
    loop
        invariant
            j <= n,
            n == s0.len(),
            s@ == s0,
            out@ == lower_seq(s0.take(j as int)),
        ensures
            out@ == lower_seq(s0),
        decreases n - j,
    {
        if j >= n {
            proof {
                assert(s0.take(n as int) =~= s0);
            }
            break;
        }
        let c = s.get_char(j);
        let lc = lower_char_exec(c);
        push_char(&mut out, lc);
        proof {
            assert(lower_seq(s0.take(j as int + 1)) =~= lower_seq(s0.take(j as int)) + seq![
                lower_char(s0[j as int]),
            ]);
        }
        j = j + 1;
    }
    out
}

/// Character-by-character string equality.
fn str_eq(a: &str, b: &str) -> (r: bool)
    ensures
        r == (a@ == b@),
{
    let n1 = a.unicode_len();
    let n2 = b.unicode_len();
    if n1 != n2 {
        return false;
    }
    let mut j: usize = 0;
    loop
        invariant
            j <= n1,
            n1 == a@.len(),
            n1 == b@.len(),
            forall|k: int| 0 <= k < j ==> a@[k] == b@[k],
        ensures
            (j == n1 && a@ =~= b@) || (j < n1 && a@[j as int] != b@[j as int]),
        decreases n1 - j,
    {
        if j >= n1 {
            proof {
                assert(a@ =~= b@);
            }
            break;
        }
        if a.get_char(j) != b.get_char(j) {
            break;
        }
        j = j + 1;
    }
    j == n1
}

/// The boolean reading of an attribute value: trimmed and
/// ASCII-lowercased, it must be exactly `true` or `false`.
pub open spec fn bool_msg(name: Seq<char>, got: Seq<char>) -> Seq<char> {
    "efx: attribute `"@ + name + "` expects boolean (true/false), got `"@ + got + "`"@
}

/// Decodes a boolean attribute value: `true` or `false`, with
/// surrounding whitespace ignored and ASCII case folded.
pub fn parse_bool(name: &str, s: &str) -> (r: Result<bool, String>)
    ensures
        ({
            let t = lower_seq(trim_spec(s@));
            match r {
                Ok(b) => (b && t == "true"@) || (!b && t == "false"@),
                Err(m) => t != "true"@ && t != "false"@ && m@ == bool_msg(name@, t),
            }
        }),
{
    let low = lower_exec(trim_exec(s));
    if str_eq(low.as_str(), "true") {
        Ok(true)
    } else if str_eq(low.as_str(), "false") {
        Ok(false)
    } else {
        let mut m = String::from_str("efx: attribute `");
        m.append(name);
        m.append("` expects boolean (true/false), got `");
        m.append(low.as_str());
        m.append("`");
        Err(m)
    }
}

pub open spec fn is_digit(c: char) -> bool {
    '0' <= c && c <= '9'
}

pub open spec fn all_digits(t: Seq<char>) -> bool {
    t.len() > 0 && forall|i: int| 0 <= i < t.len() ==> is_digit(#[trigger] t[i])
}

/// The number a digit string denotes, most significant digit first.
pub open spec fn digits_val(t: Seq<char>) -> int
    decreases t.len(),
{
    if t.len() == 0 {
        0
    } else {
        digits_val(t.drop_last()) * 10 + (t.last() as int - '0' as int)
    }
}

proof fn lemma_digits_nonneg(t: Seq<char>)
    requires
        forall|i: int| 0 <= i < t.len() ==> is_digit(#[trigger] t[i]),
    ensures
        digits_val(t) >= 0,
    decreases t.len(),
{
    if t.len() > 0 {
        lemma_digits_nonneg(t.drop_last());
    }
}

/// Extending a digit string on the right can only grow its value.
proof fn lemma_digits_prefix(t: Seq<char>, j: int)
    requires
        0 <= j <= t.len(),
        forall|i: int| 0 <= i < t.len() ==> is_digit(#[trigger] t[i]),
    ensures
        digits_val(t.take(j)) <= digits_val(t),
    decreases t.len() - j,
{
    if j < t.len() {
        lemma_digits_prefix(t, j + 1);
        lemma_digits_nonneg(t.take(j));
        assert(t.take(j + 1).drop_last() =~= t.take(j));
        assert(digits_val(t.take(j + 1)) == digits_val(t.take(j)) * 10 + (t[j] as int
            - '0' as int));
    } else {
        assert(t.take(j) =~= t);
    }
}

pub open spec fn u8_msg(name: Seq<char>, got: Seq<char>) -> Seq<char> {
    "efx: attribute `"@ + name + "` expects u8 (0..=255), got `"@ + got + "`"@
}

/// Decodes an unsigned 8-bit integer attribute value: decimal digits
/// only, after trimming, with value at most 255.
pub fn parse_u8(name: &str, s: &str) -> (r: Result<u8, String>)
    ensures
        ({
            let t = trim_spec(s@);
            match r {
                Ok(v) => all_digits(t) && digits_val(t) == v as int,
                Err(m) => (!all_digits(t) || digits_val(t) > 255) && m@ == u8_msg(name@, s@),
            }
        }),
{
    let t = trim_exec(s);
    let ghost tv = t@;
    let n = t.unicode_len();
    let mut acc: u32 = 0;
    let mut j: usize = 0;
    let mut bad = n == 0;
    while !bad && j < n
        invariant
            j <= n,
            n == tv.len(),
            tv == trim_spec(s@),
            t@ == tv,
            !bad ==> n > 0,
            !bad ==> acc as int == digits_val(tv.take(j as int)),
            !bad ==> acc <= 255,
            !bad ==> forall|i: int| 0 <= i < j ==> is_digit(#[trigger] tv[i]),
            bad ==> (!all_digits(tv) || digits_val(tv) > 255),
        decreases n - j + (if bad {
            0int
        } else {
            1int
        }),
    {
        let c = t.get_char(j);
        if !(c >= '0' && c <= '9') {
            proof {
                assert(!is_digit(tv[j as int]));
            }
            bad = true;
        } else {
            let d = (c as u32) - 48;
            let acc2 = acc * 10 + d;
            proof {
                assert(tv.take(j as int + 1).drop_last() =~= tv.take(j as int));
                assert(digits_val(tv.take(j as int + 1)) == digits_val(tv.take(j as int)) * 10 + (
                tv[j as int] as int - '0' as int));
            }
            if acc2 > 255 {
                proof {
                    if all_digits(tv) {
                        lemma_digits_prefix(tv, j as int + 1);
                    }
                }
                bad = true;
            } else {
                acc = acc2;
                j = j + 1;
            }
        }
    }
    if bad {
        let mut m = String::from_str("efx: attribute `");
        m.append(name);
        m.append("` expects u8 (0..=255), got `");
        m.append(s);
        m.append("`");
        Err(m)
    } else {
        proof {
            assert(tv.take(n as int) =~= tv);
        }
        Ok(acc as u8)
    }
}

/// The tail of the `|`-joined option list, from index `j` on.
pub open spec fn join_from(parts: Seq<&str>, j: int) -> Seq<char>
    decreases parts.len() - j,
    when 0 <= j <= parts.len()
{
    if j >= parts.len() {
        Seq::empty()
    } else {
        "|"@ + parts[j]@ + join_from(parts, j + 1)
    }
}

/// The allowed options joined with `|`, as they appear in the error
/// message.
pub open spec fn join_bar(parts: Seq<&str>) -> Seq<char> {
    if parts.len() == 0 {
        Seq::empty()
    } else {
        parts[0]@ + join_from(parts, 1)
    }
}

fn join_bar_exec(parts: &[&str]) -> (r: String)
    ensures
        r@ == join_bar(parts@),
{
    let m = parts.len();
    if m == 0 {
        return String::new();
    }
    let mut out = String::from_str(parts[0]);
    let mut j: usize = 1;
    while j < m
        invariant
            1 <= j <= m,
            m == parts@.len(),
            out@ + join_from(parts@, j as int) == join_bar(parts@),
        decreases m - j,
    {
        let ghost out_pre = out@;
        out.append("|");
        out.append(parts[j]);
        proof {
            assert(join_from(parts@, j as int) == "|"@ + parts@[j as int]@ + join_from(
                parts@,
                j as int + 1,
            ));
            assert(out_pre + ("|"@ + parts@[j as int]@ + join_from(parts@, j as int + 1)) =~= ((
            out_pre + "|"@) + parts@[j as int]@) + join_from(parts@, j as int + 1));
        }
        j = j + 1;
    }
    proof {
        assert(out@ + Seq::<char>::empty() =~= out@);
    }
    out
}

pub open spec fn enum_msg(name: Seq<char>, got: Seq<char>, parts: Seq<&str>) -> Seq<char> {
    "efx: attribute `"@ + name + "` invalid value `"@ + got + "` (allowed: "@ + join_bar(parts)
        + ")"@
}

/// Finds the attribute value among the allowed options, comparing with
/// ASCII case ignored, and returns the index of the first match.
pub fn parse_enum(name: &str, s: &str, allowed: &[&str]) -> (r: Result<usize, String>)
    ensures
        ({
            let v = lower_seq(trim_spec(s@));
            match r {
                Ok(idx) => idx < allowed@.len() && lower_seq(allowed@[idx as int]@) == v && forall|
                    j: int,
                |
                    0 <= j < idx ==> lower_seq(#[trigger] allowed@[j]@) != v,
                Err(m) => (forall|j: int|
                    0 <= j < allowed@.len() ==> lower_seq(#[trigger] allowed@[j]@) != v) && m@
                    == enum_msg(name@, s@, allowed@),
            }
        }),
{
    let low = lower_exec(trim_exec(s));
    let m = allowed.len();
    let mut j: usize = 0;
    while j < m
        invariant
            j <= m,
            m == allowed@.len(),
            low@ == lower_seq(trim_spec(s@)),
            forall|k: int| 0 <= k < j ==> lower_seq(#[trigger] allowed@[k]@) != low@,
        decreases m - j,
    {
        let cand = lower_exec(allowed[j]);
        if str_eq(cand.as_str(), low.as_str()) {
            return Ok(j);
        }
        j = j + 1;
    }
    let joined = join_bar_exec(allowed);
    let mut msg = String::from_str("efx: attribute `");
    msg.append(name);
    msg.append("` invalid value `");
    msg.append(s);
    msg.append("` (allowed: ");
    msg.append(joined.as_str());
    msg.append(")");
    Err(msg)
}

/// The named colors the color decoder understands, keyed by their
/// ASCII-lowercased spelling.
pub open spec fn named_color(t: Seq<char>) -> Option<Rgba> {
    if t == "red"@ {
        Some(Rgba { r: 255, g: 0, b: 0, a: 255 })
    } else if t == "green"@ {
        Some(Rgba { r: 0, g: 255, b: 0, a: 255 })
    } else if t == "blue"@ {
        Some(Rgba { r: 0, g: 0, b: 255, a: 255 })
    } else if t == "white"@ {
        Some(Rgba { r: 255, g: 255, b: 255, a: 255 })
    } else if t == "black"@ {
        Some(Rgba { r: 0, g: 0, b: 0, a: 255 })
    } else if t == "gray"@ || t == "grey"@ {
        Some(Rgba { r: 128, g: 128, b: 128, a: 255 })
    } else if t == "dark_gray"@ || t == "darkgrey"@ || t == "dark_grey"@ {
        Some(Rgba { r: 64, g: 64, b: 64, a: 255 })
    } else if t == "light_gray"@ || t == "lightgrey"@ || t == "light_grey"@ {
        Some(Rgba { r: 192, g: 192, b: 192, a: 255 })
    } else if t == "yellow"@ {
        Some(Rgba { r: 255, g: 255, b: 0, a: 255 })
    } else if t == "transparent"@ {
        Some(Rgba { r: 0, g: 0, b: 0, a: 0 })
    } else {
        None
    }
}

/// Looks the value up among the named colors, ASCII case ignored.
pub fn named_color_rgba(s: &str) -> (r: Option<Rgba>)
    ensures
        r == named_color(lower_seq(s@)),
{
    let low = lower_exec(s);
    let t = low.as_str();
    if str_eq(t, "red") {
        Some(Rgba { r: 255, g: 0, b: 0, a: 255 })
    } else if str_eq(t, "green") {
        Some(Rgba { r: 0, g: 255, b: 0, a: 255 })
    } else if str_eq(t, "blue") {
        Some(Rgba { r: 0, g: 0, b: 255, a: 255 })
    } else if str_eq(t, "white") {
        Some(Rgba { r: 255, g: 255, b: 255, a: 255 })
    } else if str_eq(t, "black") {
        Some(Rgba { r: 0, g: 0, b: 0, a: 255 })
    } else if str_eq(t, "gray") || str_eq(t, "grey") {
        Some(Rgba { r: 128, g: 128, b: 128, a: 255 })
    } else if str_eq(t, "dark_gray") || str_eq(t, "darkgrey") || str_eq(t, "dark_grey") {
        Some(Rgba { r: 64, g: 64, b: 64, a: 255 })
    } else if str_eq(t, "light_gray") || str_eq(t, "lightgrey") || str_eq(t, "light_grey") {
        Some(Rgba { r: 192, g: 192, b: 192, a: 255 })
    } else if str_eq(t, "yellow") {
        Some(Rgba { r: 255, g: 255, b: 0, a: 255 })
    } else if str_eq(t, "transparent") {
        Some(Rgba { r: 0, g: 0, b: 0, a: 0 })
    } else {
        None
    }
}

pub open spec fn is_hex_digit(c: char) -> bool {
    ||| ('0' <= c && c <= '9')
    ||| ('a' <= c && c <= 'f')
    ||| ('A' <= c && c <= 'F')
}

pub open spec fn hex_val(c: char) -> int {
    if '0' <= c && c <= '9' {
        c as int - '0' as int
    } else if 'a' <= c && c <= 'f' {
        c as int - 'a' as int + 10
    } else if 'A' <= c && c <= 'F' {
        c as int - 'A' as int + 10
    } else {
        0
    }
}

/// The byte denoted by the two hex digits at positions `i`, `i + 1`.
pub open spec fn hex_byte(t: Seq<char>, i: int) -> int {
    hex_val(t[i]) * 16 + hex_val(t[i + 1])
}

/// The hex reading of a color value: `#RRGGBB` or `#RRGGBBAA`.
pub open spec fn hex_color(t: Seq<char>) -> Option<Rgba> {
    if t.len() > 0 && t[0] == '#' {
        let h = t.skip(1);
        if (h.len() == 6 || h.len() == 8) && (forall|i: int|
            0 <= i < h.len() ==> is_hex_digit(#[trigger] h[i])) {
            Some(
                Rgba {
                    r: hex_byte(h, 0) as u8,
                    g: hex_byte(h, 2) as u8,
                    b: hex_byte(h, 4) as u8,
                    a: if h.len() == 8 {
                        hex_byte(h, 6) as u8
                    } else {
                        255
                    },
                },
            )
        } else {
            None
        }
    } else {
        None
    }
}

fn hex_val_exec(c: char) -> (r: u8)
    ensures
        r as int == hex_val(c),
        r <= 15,
{
    if c >= '0' && c <= '9' {
        ((c as u32) - ('0' as u32)) as u8
    } else if c >= 'a' && c <= 'f' {
        ((c as u32) - ('a' as u32) + 10) as u8
    } else if c >= 'A' && c <= 'F' {
        ((c as u32) - ('A' as u32) + 10) as u8
    } else {
        0
    }
}

fn hex_digit_exec(c: char) -> (r: bool)
    ensures
        r == is_hex_digit(c),
{
    (c >= '0' && c <= '9') || (c >= 'a' && c <= 'f') || (c >= 'A' && c <= 'F')
}

/// Decodes `#RRGGBB` or `#RRGGBBAA` into a color.
pub fn hex_color_rgba(s: &str) -> (r: Option<Rgba>)
    ensures
        r == hex_color(s@),
{
    let n = s.unicode_len();
    if n == 0 {
        return None;
    }
    if s.get_char(0) != '#' {
        return None;
    }
    let ghost h = s@.skip(1);
    let hl = n - 1;
    if !(hl == 6 || hl == 8) {
        return None;
    }
    let mut j: usize = 1;
    while j < n
        invariant
            1 <= j <= n,
            n == s@.len(),
            h == s@.skip(1),
            s@[0] == '#',
            n as int - 1 == hl,
            hl == 6 || hl == 8,
            forall|i: int| 0 <= i < j - 1 ==> is_hex_digit(#[trigger] h[i]),
        decreases n - j,
    {
        let c = s.get_char(j);
        if !hex_digit_exec(c) {
            proof {
                assert(h[j as int - 1] == s@[j as int]);
                assert(!is_hex_digit(h[j as int - 1]));
            }
            return None;
        }
        j = j + 1;
    }
    let r = hex_val_exec(s.get_char(1)) * 16 + hex_val_exec(s.get_char(2));
    let g = hex_val_exec(s.get_char(3)) * 16 + hex_val_exec(s.get_char(4));
    let b = hex_val_exec(s.get_char(5)) * 16 + hex_val_exec(s.get_char(6));
    let a = if hl == 8 {
        hex_val_exec(s.get_char(7)) * 16 + hex_val_exec(s.get_char(8))
    } else {
        255
    };
    let c = Rgba { r, g, b, a };
    proof {
        assert forall|i: int| 0 <= i < h.len() implies is_hex_digit(#[trigger] h[i]) by {
            assert(h[i] == s@[i + 1]);
        }
        assert(h[0] == s@[1] && h[1] == s@[2] && h[2] == s@[3] && h[3] == s@[4] && h[4] == s@[5]
            && h[5] == s@[6]);
        if hl == 8 {
            assert(h[6] == s@[7] && h[7] == s@[8]);
        }
    }
    Some(c)
}

pub open spec fn color_msg(name: Seq<char>, got: Seq<char>) -> Seq<char> {
    "efx: attribute `"@ + name
        + "` expects color name (e.g. red, light_gray) or hex #RRGGBB[AA], got `"@ + got + "`"@
}

/// Decodes a color attribute value: a named color (ASCII case ignored)
/// or a `#RRGGBB[AA]` hex value, after trimming.
pub fn parse_color_rgba(name: &str, s: &str) -> (r: Result<Rgba, String>)
    ensures
        ({
            let t = trim_spec(s@);
            match r {
                Ok(c) => named_color(lower_seq(t)) == Some(c) || (named_color(lower_seq(t))
                    is None && hex_color(t) == Some(c)),
                Err(m) => named_color(lower_seq(t)) is None && hex_color(t) is None && m@
                    == color_msg(name@, s@),
            }
        }),
{
    let v = trim_exec(s);
    match named_color_rgba(v) {
        Some(c) => Ok(c),
        None => match hex_color_rgba(v) {
            Some(c) => Ok(c),
            None => {
                let mut m = String::from_str("efx: attribute `");
                m.append(name);
                m.append("` expects color name (e.g. red, light_gray) or hex #RRGGBB[AA], got `");
                m.append(s);
                m.append("`");
                Err(m)
            },
        },
    }
}

} // verus!
