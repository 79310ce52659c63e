//! Styled markup for the renderer: escaped text inside styled spans.

use vstd::prelude::*;
use crate::render::Span;
use crate::style::{Color, NamedColor, Style};

verus! {

/// What one character becomes in markup.
pub open spec fn escaped_char(c: char) -> Seq<char> {
    if c == ' ' {
        "&nbsp;"@
    } else if c == '\\' {
        "\\\\"@
    } else if c == '<' {
        "&lt;"@
    } else if c == '>' {
        "&gt;"@
    } else if c == '\n' {
        "<br>"@
    } else if c == '`' {
        "\\`"@
    } else {
        seq![c]
    }
}

/// Text escaped for markup.
pub open spec fn escaped(s: Seq<char>) -> Seq<char>
    decreases s.len(),
{
    if s.len() == 0 {
        Seq::empty()
    } else {
        escaped(s.drop_last()) + escaped_char(s.last())
    }
}

pub open spec fn name_text(n: NamedColor) -> Seq<char> {
    match n {
        NamedColor::Black => "black"@,
        NamedColor::Red => "red"@,
        NamedColor::Green => "green"@,
        NamedColor::Yellow => "yellow"@,
        NamedColor::Blue => "blue"@,
        NamedColor::Magenta => "magenta"@,
        NamedColor::Cyan => "cyan"@,
        NamedColor::White => "white"@,
        NamedColor::Gray => "gray"@,
        NamedColor::LightCoral => "lightcoral"@,
        NamedColor::LightGreen => "lightgreen"@,
        NamedColor::LightYellow => "lightyellow"@,
        NamedColor::LightSkyBlue => "lightskyblue"@,
        NamedColor::Violet => "violet"@,
        NamedColor::LightCyan => "lightcyan"@,
    }
}

pub open spec fn digit_char(d: nat) -> char {
    if d == 0 {
        '0'
    } else if d == 1 {
        '1'
    } else if d == 2 {
        '2'
    } else if d == 3 {
        '3'
    } else if d == 4 {
        '4'
    } else if d == 5 {
        '5'
    } else if d == 6 {
        '6'
    } else if d == 7 {
        '7'
    } else if d == 8 {
        '8'
    } else {
        '9'
    }
}

/// Decimal digits of a number.
pub open spec fn dec(n: nat) -> Seq<char>
    decreases n,
{
    if n < 10 {
        seq![digit_char(n)]
    } else {
        dec(n / 10).push(digit_char(n % 10))
    }
}

pub open spec fn color_text(c: Color) -> Seq<char> {
    match c {
        Color::Unset => "unset"@,
        Color::Named(n) => name_text(n),
        Color::Rgb(r, g, b) => "rgb("@ + dec(r as nat) + ","@ + dec(g as nat) + ","@ + dec(b as nat)
            + ")"@,
    }
}

/// CSS declarations of a style: `color` first, then `background-color`.
pub open spec fn css_of(st: Style) -> Seq<char> {
    let fg = match st.color {
        Some(c) => "color: "@ + color_text(c) + ";"@,
        None => Seq::empty(),
    };
    let bg = match st.background {
        Some(c) => "background-color: "@ + color_text(c) + ";"@,
        None => Seq::empty(),
    };
    if fg.len() > 0 && bg.len() > 0 {
        fg + " "@ + bg
    } else {
        fg + bg
    }
}

/// A run as a styled span, identified so that later operations can find it.
pub open spec fn span_text(id: u64, text: Seq<char>, st: Style) -> Seq<char> {
    "<span id=\"t-"@ + dec(id as nat) + "\" style=\""@ + css_of(st) + "\">"@ + escaped(text)
        + "</span>"@
}

/// Appends the characters of `s`.
fn push_str(out: &mut Vec<char>, s: &str)
    ensures
        final(out)@ == old(out)@ + s@,
{
    let n = s.unicode_len();
    let mut k: usize = 0;
    while k < n
        invariant
            k <= n == s@.len(),
            out@ == old(out)@ + s@.take(k as int),
        decreases n - k,
    {
        out.push(s.get_char(k));
        proof {
            assert(out@ =~= old(out)@ + s@.take(k + 1));
        }
        k = k + 1;
    }
    proof {
        assert(s@.take(n as int) =~= s@);
    }
}

fn digit(d: u8) -> (c: char)
    requires
        d < 10,
    ensures
        c == digit_char(d as nat),
{
    match d {
        0 => '0',
        1 => '1',
        2 => '2',
        3 => '3',
        4 => '4',
        5 => '5',
        6 => '6',
        7 => '7',
        8 => '8',
        _ => '9',
    }
}

/// Appends the decimal digits of `v`.
fn push_dec(out: &mut Vec<char>, v: u64)
    ensures
        final(out)@ == old(out)@ + dec(v as nat),
    decreases v,
{
    if v >= 10 {
        push_dec(out, v / 10);
    }
    out.push(digit((v % 10) as u8));
    proof {
        assert(out@ =~= old(out)@ + dec(v as nat));
    }
}

fn push_color(out: &mut Vec<char>, c: Color)
    ensures
        final(out)@ == old(out)@ + color_text(c),
{
    match c {
        Color::Unset => push_str(out, "unset"),
        Color::Named(n) => {
            let s = match n {
                NamedColor::Black => "black",
                NamedColor::Red => "red",
                NamedColor::Green => "green",
                NamedColor::Yellow => "yellow",
                NamedColor::Blue => "blue",
                NamedColor::Magenta => "magenta",
                NamedColor::Cyan => "cyan",
                NamedColor::White => "white",
                NamedColor::Gray => "gray",
                NamedColor::LightCoral => "lightcoral",
                NamedColor::LightGreen => "lightgreen",
                NamedColor::LightYellow => "lightyellow",
                NamedColor::LightSkyBlue => "lightskyblue",
                NamedColor::Violet => "violet",
                NamedColor::LightCyan => "lightcyan",
            };
            push_str(out, s);
        },
        Color::Rgb(r, g, b) => {
            push_str(out, "rgb(");
            push_dec(out, r as u64);
            push_str(out, ",");
            push_dec(out, g as u64);
            push_str(out, ",");
            push_dec(out, b as u64);
            push_str(out, ")");
            proof {
                assert(out@ =~= old(out)@ + color_text(c));
            }
        },
    }
}

/// The CSS declarations of a style.
pub fn style_css(st: &Style) -> (r: Vec<char>)
    ensures
        r@ == css_of(*st),
{
    let mut fg: Vec<char> = Vec::new();
    match st.color {
        Some(c) => {
            push_str(&mut fg, "color: ");
            push_color(&mut fg, c);
            push_str(&mut fg, ";");
        },
        None => {},
    }
    let mut bg: Vec<char> = Vec::new();
    match st.background {
        Some(c) => {
            push_str(&mut bg, "background-color: ");
            push_color(&mut bg, c);
            push_str(&mut bg, ";");
        },
        None => {},
    }
    proof {
        reveal_strlit("color: ");
        reveal_strlit("background-color: ");
    }
    let mut out = fg;
    if out.len() > 0 && bg.len() > 0 {
        push_str(&mut out, " ");
    }
    let mut k: usize = 0;
    let ghost start = out@;
    while k < bg.len()
        invariant
            k <= bg@.len(),
            out@ == start + bg@.take(k as int),
        decreases bg@.len() - k,
    {
        out.push(bg[k]);
        proof {
            assert(out@ =~= start + bg@.take(k + 1));
        }
        k = k + 1;
    }
    proof {
        assert(bg@.take(bg@.len() as int) =~= bg@);
        assert(out@ =~= css_of(*st));
    }
    out
}

/// Escapes text for markup: spaces become `&nbsp;`, line breaks `<br>`,
/// `<` and `>` entities, and backslash and backquote are escaped.
pub fn escape_text(text: &Vec<char>) -> (r: Vec<char>)
    ensures
        r@ == escaped(text@),
{
    let mut out: Vec<char> = Vec::new();
    let mut k: usize = 0;
    while k < text.len()
        invariant
            k <= text@.len(),
            out@ == escaped(text@.take(k as int)),
        decreases text@.len() - k,
    {
        let c = text[k];
        proof {
            assert(text@.take(k + 1).drop_last() =~= text@.take(k as int));
        }
        if c == ' ' {
            push_str(&mut out, "&nbsp;");
        } else if c == '\\' {
            push_str(&mut out, "\\\\");
        } else if c == '<' {
            push_str(&mut out, "&lt;");
        } else if c == '>' {
            push_str(&mut out, "&gt;");
        } else if c == '\n' {
            push_str(&mut out, "<br>");
        } else if c == '`' {
            push_str(&mut out, "\\`");
        } else {
            out.push(c);
            proof {
                assert(out@ =~= escaped(text@.take(k as int)) + seq![c]);
            }
        }
        k = k + 1;
    }
    proof {
        assert(text@.take(text@.len() as int) =~= text@);
    }
    out
}

/// A run's text as a span carrying its identifier and style.
pub fn span_markup(id: u64, text: &Vec<char>, st: &Style) -> (r: Vec<char>)
    ensures
        r@ == span_text(id, text@, *st),
{
    let mut out: Vec<char> = Vec::new();
    push_str(&mut out, "<span id=\"t-");
    push_dec(&mut out, id);
    push_str(&mut out, "\" style=\"");
    let css = style_css(st);
    let esc = escape_text(text);
    let mut k: usize = 0;
    let ghost a = out@;
    while k < css.len()
        invariant
            k <= css@.len(),
            out@ == a + css@.take(k as int),
        decreases css@.len() - k,
    {
        out.push(css[k]);
        proof {
            assert(out@ =~= a + css@.take(k + 1));
        }
        k = k + 1;
    }
    proof {
        assert(css@.take(css@.len() as int) =~= css@);
    }
    push_str(&mut out, "\">");
    let ghost b = out@;
    k = 0;
    while k < esc.len()
        invariant
            k <= esc@.len(),
            out@ == b + esc@.take(k as int),
        decreases esc@.len() - k,
    {
        out.push(esc[k]);
        proof {
            assert(out@ =~= b + esc@.take(k + 1));
        }
        k = k + 1;
    }
    proof {
        assert(esc@.take(esc@.len() as int) =~= esc@);
    }
    push_str(&mut out, "</span>");
    proof {
        assert(out@ =~= span_text(id, text@, *st));
    }
    out
}

/// Markup of a whole list of spans, in order.
pub open spec fn spans_text(spans: Seq<Span>) -> Seq<char>
    decreases spans.len(),
{
    if spans.len() == 0 {
        Seq::empty()
    } else {
        spans_text(spans.drop_last()) + span_text(spans.last().id, spans.last().text@, spans.last().style)
    }
}

/// The markup that replaces the renderer's whole content after a full pass.
pub fn full_markup(spans: &Vec<Span>) -> (r: Vec<char>)
    ensures
        r@ == spans_text(spans@),
{
    let mut out: Vec<char> = Vec::new();
    let mut k: usize = 0;
    while k < spans.len()
        invariant
            k <= spans@.len(),
            out@ == spans_text(spans@.take(k as int)),
        decreases spans@.len() - k,
    {
        let m = span_markup(spans[k].id, &spans[k].text, &spans[k].style);
        let ghost a = out@;
        let mut j: usize = 0;
        while j < m.len()
            invariant
                j <= m@.len(),
                out@ == a + m@.take(j as int),
            decreases m@.len() - j,
        {
            out.push(m[j]);
            proof {
                assert(out@ =~= a + m@.take(j + 1));
            }
            j = j + 1;
        }
        proof {
            assert(m@.take(m@.len() as int) =~= m@);
            assert(spans@.take(k + 1).drop_last() =~= spans@.take(k as int));
        }
        k = k + 1;
    }
    proof {
        assert(spans@.take(spans@.len() as int) =~= spans@);
    }
    out
}

} // verus!
