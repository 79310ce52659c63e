//! Control-sequence parameters and the select-graphic-rendition codes.

use vstd::prelude::*;
use crate::style::{no_style, Color, NamedColor, Style};

verus! {

pub open spec fn is_digit(c: char) -> bool {
    '0' <= c <= '9'
}

/// Value of a decimal digit.
pub open spec fn digit_value(c: char) -> nat {
    if c == '0' {
        0
    } else if c == '1' {
        1
    } else if c == '2' {
        2
    } else if c == '3' {
        3
    } else if c == '4' {
        4
    } else if c == '5' {
        5
    } else if c == '6' {
        6
    } else if c == '7' {
        7
    } else if c == '8' {
        8
    } else {
        9
    }
}

fn digit_of(c: char) -> (d: usize)
    ensures
        d == digit_value(c),
        d <= 9,
{
    if c == '0' {
        0
    } else if c == '1' {
        1
    } else if c == '2' {
        2
    } else if c == '3' {
        3
    } else if c == '4' {
        4
    } else if c == '5' {
        5
    } else if c == '6' {
        6
    } else if c == '7' {
        7
    } else if c == '8' {
        8
    } else {
        9
    }
}

/// Decimal value of a string of digits.
pub open spec fn digits_value(s: Seq<char>) -> nat
    decreases s.len(),
{
    if s.len() == 0 {
        0
    } else {
        digits_value(s.drop_last()) * 10 + digit_value(s.last())
    }
}

/// A numeric parameter: a non-empty string of digits whose value fits a `usize`.
pub open spec fn num_of(s: Seq<char>) -> Option<nat> {
    if s.len() > 0 && (forall|k: int| 0 <= k < s.len() ==> is_digit(#[trigger] s[k]))
        && digits_value(s) <= usize::MAX {
        Some(digits_value(s))
    } else {
        None
    }
}

/// The `;`-separated fields of a parameter string.
pub open spec fn fields(s: Seq<char>) -> Seq<Seq<char>>
    decreases s.len(),
{
    if s.len() == 0 {
        seq![Seq::empty()]
    } else {
        let f = fields(s.drop_last());
        if s.last() == ';' {
            f.push(Seq::empty())
        } else {
            f.update(f.len() - 1, f.last().push(s.last()))
        }
    }
}

pub proof fn lemma_fields_len(s: Seq<char>)
    ensures
        fields(s).len() >= 1,
        fields(s).len() <= s.len() + 1,
    decreases s.len(),
{
    if s.len() > 0 {
        lemma_fields_len(s.drop_last());
    }
}

/// Parses a numeric parameter.
pub fn parse_num(s: &[char]) -> (r: Option<usize>)
    ensures
        r matches Some(v) ==> num_of(s@) == Some(v as nat),
        r is None ==> num_of(s@) is None,
{
    if s.len() == 0 {
        return None;
    }
    let mut v: usize = 0;
    let mut i: usize = 0;
    while i < s.len()
        invariant
            0 <= i <= s@.len(),
            v == digits_value(s@.take(i as int)),
            forall|k: int| 0 <= k < i ==> is_digit(#[trigger] s@[k]),
        decreases s@.len() - i,
    {
        let c = s[i];
        proof {
            assert(s@.take(i + 1).drop_last() =~= s@.take(i as int));
        }
        if !('0' <= c && c <= '9') {
            return None;
        }
        let d = digit_of(c);
        if v > (usize::MAX - d) / 10 {
            proof {
                assert(digits_value(s@.take(i + 1)) == v * 10 + d);
                assert(v * 10 + d > usize::MAX) by (nonlinear_arith)
                    requires
                        v > (usize::MAX - d) / 10,
                        d <= 9,
                ;
                if forall|k: int| 0 <= k < s@.len() ==> is_digit(#[trigger] s@[k]) {
                    lemma_digits_mono(s@, i as int + 1);
                    assert(s@.take(s@.len() as int) =~= s@);
                }
            }
            return None;
        }
        proof {
            assert(v * 10 + d <= usize::MAX) by (nonlinear_arith)
                requires
                    v <= (usize::MAX - d) / 10,
                    d <= 9,
            ;
        }
        v = v * 10 + d;
        i = i + 1;
    }
    proof {
        assert(s@.take(s@.len() as int) =~= s@);
    }
    Some(v)
}

/// A longer prefix of digits has no smaller value.
pub proof fn lemma_digits_mono(s: Seq<char>, i: int)
    requires
        0 <= i <= s.len(),
        forall|k: int| 0 <= k < s.len() ==> is_digit(#[trigger] s[k]),
    ensures
        digits_value(s.take(i)) <= digits_value(s),
    decreases s.len() - i,
{
    if i < s.len() {
        lemma_digits_mono(s, i + 1);
        assert(s.take(i + 1).drop_last() =~= s.take(i));
    } else {
        assert(s.take(i) =~= s);
    }
}

pub open spec fn widen(c: Option<usize>) -> Option<nat> {
    match c {
        Some(v) => Some(v as nat),
        None => None,
    }
}

pub open spec fn widened(cs: Seq<Option<usize>>) -> Seq<Option<nat>> {
    cs.map_values(|c: Option<usize>| widen(c))
}

/// The numeric values of the `;`-separated fields; an empty string reads as `0`.
pub open spec fn codes_of(body: Seq<char>) -> Seq<Option<nat>> {
    if body.len() == 0 {
        seq![Some(0nat)]
    } else {
        fields(body).map_values(|f: Seq<char>| num_of(f))
    }
}

/// Splits a parameter string at `;` and parses each field.
pub fn parse_codes(body: &[char]) -> (r: Vec<Option<usize>>)
    ensures
        widened(r@) == codes_of(body@),
{
    let mut out: Vec<Option<usize>> = Vec::new();
    if body.len() == 0 {
        out.push(Some(0));
        proof {
            assert(widened(out@) =~= codes_of(body@));
        }
        return out;
    }
    let mut fs: Vec<Vec<char>> = Vec::new();
    let mut cur: Vec<char> = Vec::new();
    let mut i: usize = 0;
    while i < body.len()
        invariant
            0 <= i <= body@.len(),
            fs@.len() + 1 == fields(body@.take(i as int)).len(),
            forall|k: int| 0 <= k < fs@.len() ==> (#[trigger] fs@[k])@ == fields(body@.take(i as int))[k],
            cur@ == fields(body@.take(i as int)).last(),
        decreases body@.len() - i,
    {
        let c = body[i];
        proof {
            assert(body@.take(i + 1).drop_last() =~= body@.take(i as int));
            lemma_fields_len(body@.take(i as int));
        }
        if c == ';' {
            let mut done: Vec<char> = Vec::new();
            std::mem::swap(&mut done, &mut cur);
            fs.push(done);
        } else {
            cur.push(c);
        }
        i = i + 1;
    }
    fs.push(cur);
    proof {
        assert(body@.take(body@.len() as int) =~= body@);
        lemma_fields_len(body@);
    }
    let mut k: usize = 0;
    while k < fs.len()
        invariant
            0 <= k <= fs@.len(),
            fs@.len() == fields(body@).len(),
            forall|j: int| 0 <= j < fs@.len() ==> (#[trigger] fs@[j])@ == fields(body@)[j],
            out@.len() == k,
            body@.len() > 0,
            forall|j: int| 0 <= j < k ==> widen(#[trigger] out@[j]) == codes_of(body@)[j],
        decreases fs@.len() - k,
    {
        out.push(parse_num(fs[k].as_slice()));
        k = k + 1;
    }
    proof {
        assert(widened(out@) =~= codes_of(body@));
    }
    out
}

/// Colours of the standard palette codes, 0 to 7.
pub open spec fn standard_color(n: nat) -> NamedColor {
    if n == 0 {
        NamedColor::Black
    } else if n == 1 {
        NamedColor::Red
    } else if n == 2 {
        NamedColor::Green
    } else if n == 3 {
        NamedColor::Yellow
    } else if n == 4 {
        NamedColor::Blue
    } else if n == 5 {
        NamedColor::Magenta
    } else if n == 6 {
        NamedColor::Cyan
    } else {
        NamedColor::White
    }
}

/// Colours of the bright palette codes, 0 to 7.
pub open spec fn bright_color(n: nat) -> NamedColor {
    if n == 0 {
        NamedColor::Gray
    } else if n == 1 {
        NamedColor::LightCoral
    } else if n == 2 {
        NamedColor::LightGreen
    } else if n == 3 {
        NamedColor::LightYellow
    } else if n == 4 {
        NamedColor::LightSkyBlue
    } else if n == 5 {
        NamedColor::Violet
    } else if n == 6 {
        NamedColor::LightCyan
    } else {
        NamedColor::White
    }
}

pub fn standard(n: usize) -> (c: NamedColor)
    ensures
        c == standard_color(n as nat),
{
    match n {
        0 => NamedColor::Black,
        1 => NamedColor::Red,
        2 => NamedColor::Green,
        3 => NamedColor::Yellow,
        4 => NamedColor::Blue,
        5 => NamedColor::Magenta,
        6 => NamedColor::Cyan,
        _ => NamedColor::White,
    }
}

pub fn bright(n: usize) -> (c: NamedColor)
    ensures
        c == bright_color(n as nat),
{
    match n {
        0 => NamedColor::Gray,
        1 => NamedColor::LightCoral,
        2 => NamedColor::LightGreen,
        3 => NamedColor::LightYellow,
        4 => NamedColor::LightSkyBlue,
        5 => NamedColor::Violet,
        6 => NamedColor::LightCyan,
        _ => NamedColor::White,
    }
}

/// Channel intensity of one step of the 6x6x6 colour cube.
pub open spec fn cube_level(n: int) -> int {
    if n == 0 {
        0
    } else {
        55 + 40 * n
    }
}

/// The 16 basic colours of the 256-colour palette.
pub open spec fn basic_rgb(idx: int) -> (u8, u8, u8) {
    if idx == 0 {
        (0, 0, 0)
    } else if idx == 1 {
        (128, 0, 0)
    } else if idx == 2 {
        (0, 128, 0)
    } else if idx == 3 {
        (128, 128, 0)
    } else if idx == 4 {
        (0, 0, 128)
    } else if idx == 5 {
        (128, 0, 128)
    } else if idx == 6 {
        (0, 128, 128)
    } else if idx == 7 {
        (192, 192, 192)
    } else if idx == 8 {
        (128, 128, 128)
    } else if idx == 9 {
        (255, 0, 0)
    } else if idx == 10 {
        (0, 255, 0)
    } else if idx == 11 {
        (255, 255, 0)
    } else if idx == 12 {
        (0, 0, 255)
    } else if idx == 13 {
        (255, 0, 255)
    } else if idx == 14 {
        (0, 255, 255)
    } else {
        (255, 255, 255)
    }
}

/// RGB value of an entry of the 256-colour palette.
pub open spec fn xterm_rgb(idx: int) -> (int, int, int) {
    if idx < 16 {
        let (r, g, b) = basic_rgb(idx);
        (r as int, g as int, b as int)
    } else if idx < 232 {
        let ci = idx - 16;
        (cube_level(ci / 36), cube_level((ci % 36) / 6), cube_level(ci % 6))
    } else {
        let gray = 8 + (idx - 232) * 10;
        (gray, gray, gray)
    }
}

fn level(n: u8) -> (v: u8)
    requires
        n < 6,
    ensures
        v == cube_level(n as int),
{
    if n == 0 {
        0
    } else {
        55 + 40 * n
    }
}

/// Converts an entry of the 256-colour palette to RGB.
pub fn xterm256_to_rgb(idx: u8) -> (c: (u8, u8, u8))
    ensures
        (c.0 as int, c.1 as int, c.2 as int) == xterm_rgb(idx as int),
{
    if idx < 16 {
        match idx {
            0 => (0, 0, 0),
            1 => (128, 0, 0),
            2 => (0, 128, 0),
            3 => (128, 128, 0),
            4 => (0, 0, 128),
            5 => (128, 0, 128),
            6 => (0, 128, 128),
            7 => (192, 192, 192),
            8 => (128, 128, 128),
            9 => (255, 0, 0),
            10 => (0, 255, 0),
            11 => (255, 255, 0),
            12 => (0, 0, 255),
            13 => (255, 0, 255),
            14 => (0, 255, 255),
            _ => (255, 255, 255),
        }
    } else if idx < 232 {
        let ci = idx - 16;
        (level(ci / 36), level((ci % 36) / 6), level(ci % 6))
    } else {
        let gray = 8 + (idx - 232) * 10;
        (gray, gray, gray)
    }
}

/// A palette index parameter, when present and at most 255.
pub open spec fn index_param(codes: Seq<Option<nat>>, k: int) -> Option<nat> {
    if 0 <= k < codes.len() && codes[k] is Some && codes[k]->0 <= 255 {
        codes[k]
    } else {
        None
    }
}

/// A truecolour channel: the parameter when present and at most 255, else 0.
pub open spec fn channel(codes: Seq<Option<nat>>, k: int) -> u8 {
    match index_param(codes, k) {
        Some(v) => v as u8,
        None => 0,
    }
}

/// The colour a `38`/`48` extension selects starting at `i`, and where the
/// codes after it begin; `None` colour when nothing is set.
pub open spec fn extended(codes: Seq<Option<nat>>, i: int) -> (Option<Color>, int) {
    let n = codes.len() as int;
    if i + 1 < n && codes[i + 1] == Some(5nat) {
        let next = if n - i > 3 { i + 3 } else { n };
        match index_param(codes, i + 2) {
            Some(v) => {
                let (r, g, b) = xterm_rgb(v as int);
                (Some(Color::Rgb(r as u8, g as u8, b as u8)), next)
            },
            None => (None, next),
        }
    } else if i + 1 < n && codes[i + 1] == Some(2nat) {
        let next = if n - i > 5 { i + 5 } else { n };
        (Some(Color::Rgb(channel(codes, i + 2), channel(codes, i + 3), channel(codes, i + 4))), next)
    } else {
        (None, i + 1)
    }
}

/// The attributes the codes from `i` on set, on top of `st`.
pub open spec fn sgr_from(codes: Seq<Option<nat>>, i: int, st: Style) -> Style
    decreases codes.len() - i,
{
    if i < 0 || i >= codes.len() {
        st
    } else {
        match codes[i] {
            Some(v) => {
                if v == 0 {
                    sgr_from(codes, i + 1, Style { color: Some(Color::Unset), background: Some(Color::Unset) })
                } else if 30 <= v <= 37 {
                    sgr_from(codes, i + 1, Style { color: Some(Color::Named(standard_color((v - 30) as nat))), ..st })
                } else if 40 <= v <= 47 {
                    sgr_from(codes, i + 1, Style { background: Some(Color::Named(standard_color((v - 40) as nat))), ..st })
                } else if 90 <= v <= 97 {
                    sgr_from(codes, i + 1, Style { color: Some(Color::Named(bright_color((v - 90) as nat))), ..st })
                } else if 100 <= v <= 107 {
                    sgr_from(codes, i + 1, Style { background: Some(Color::Named(bright_color((v - 100) as nat))), ..st })
                } else if v == 39 {
                    sgr_from(codes, i + 1, Style { color: Some(Color::Unset), ..st })
                } else if v == 49 {
                    sgr_from(codes, i + 1, Style { background: Some(Color::Unset), ..st })
                } else if v == 38 || v == 48 {
                    let (c, next) = extended(codes, i);
                    let st2 = match c {
                        Some(col) => if v == 38 { Style { color: Some(col), ..st } } else { Style { background: Some(col), ..st } },
                        None => st,
                    };
                    sgr_from(codes, next, st2)
                } else {
                    sgr_from(codes, i + 1, st)
                }
            },
            None => sgr_from(codes, i + 1, st),
        }
    }
}

/// The attributes a list of codes sets.
pub open spec fn sgr_style(codes: Seq<Option<nat>>) -> Style {
    sgr_from(codes, 0, no_style())
}

/// Interprets the codes of a select-graphic-rendition sequence; unknown
/// codes are ignored.
pub fn sgr_attributes(codes: &Vec<Option<usize>>) -> (st: Style)
    ensures
        st == sgr_style(widened(codes@)),
{
    let ghost cs = widened(codes@);
    let mut st = Style::neutral();
    let mut i: usize = 0;
    let n = codes.len();
    while i < n
        invariant
            0 <= i <= n,
            n == codes@.len(),
            cs == widened(codes@),
            cs.len() == n,
            sgr_style(cs) == sgr_from(cs, i as int, st),
        decreases n - i,
    {
        match codes[i] {
            Some(v) => {
                if v == 0 {
                    st = Style { color: Some(Color::Unset), background: Some(Color::Unset) };
                    i = i + 1;
                } else if 30 <= v && v <= 37 {
                    st = Style { color: Some(Color::Named(standard(v - 30))), ..st };
                    i = i + 1;
                } else if 40 <= v && v <= 47 {
                    st = Style { background: Some(Color::Named(standard(v - 40))), ..st };
                    i = i + 1;
                } else if 90 <= v && v <= 97 {
                    st = Style { color: Some(Color::Named(bright(v - 90))), ..st };
                    i = i + 1;
                } else if 100 <= v && v <= 107 {
                    st = Style { background: Some(Color::Named(bright(v - 100))), ..st };
                    i = i + 1;
                } else if v == 39 {
                    st = Style { color: Some(Color::Unset), ..st };
                    i = i + 1;
                } else if v == 49 {
                    st = Style { background: Some(Color::Unset), ..st };
                    i = i + 1;
                } else if v == 38 || v == 48 {
                    let (c, next) = extended_color(codes, i);
                    match c {
                        Some(col) => {
                            if v == 38 {
                                st = Style { color: Some(col), ..st };
                            } else {
                                st = Style { background: Some(col), ..st };
                            }
                        },
                        None => {},
                    }
                    i = next;
                } else {
                    i = i + 1;
                }
            },
            None => {
                i = i + 1;
            },
        }
    }
    st
}

fn small_param(codes: &Vec<Option<usize>>, i: usize, d: usize) -> (r: Option<u8>)
    requires
        i < codes@.len(),
    ensures
        r matches Some(v) ==> index_param(widened(codes@), i + d) == Some(v as nat),
        r is None ==> index_param(widened(codes@), i + d) is None,
{
    if d < codes.len() - i {
        match codes[i + d] {
            Some(v) => if v <= 255 { Some(v as u8) } else { None },
            None => None,
        }
    } else {
        None
    }
}

/// The colour of a `38`/`48` extension at `i` and the index after it.
fn extended_color(codes: &Vec<Option<usize>>, i: usize) -> (r: (Option<Color>, usize))
    requires
        i < codes@.len(),
    ensures
        (r.0, r.1 as int) == extended(widened(codes@), i as int),
{
    let ghost cs = widened(codes@);
    let n = codes.len();
    if i + 1 < n && codes[i + 1] == Some(5) {
        let next = if n - i > 3 { i + 3 } else { n };
        match small_param(codes, i, 2) {
            Some(v) => {
                let (r, g, b) = xterm256_to_rgb(v);
                (Some(Color::Rgb(r, g, b)), next)
            },
            None => (None, next),
        }
    } else if i + 1 < n && codes[i + 1] == Some(2) {
        let next = if n - i > 5 { i + 5 } else { n };
        let r = match small_param(codes, i, 2) { Some(v) => v, None => 0 };
        let g = match small_param(codes, i, 3) { Some(v) => v, None => 0 };
        let b = match small_param(codes, i, 4) { Some(v) => v, None => 0 };
        (Some(Color::Rgb(r, g, b)), next)
    } else {
        (None, i + 1)
    }
}

} // verus!
