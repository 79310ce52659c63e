use termila::buffer::{Buffer, Grid};
use termila::decoder::{decode_group, Decoded, Decoder};
use termila::flow::{after_read, LoopStep};
use termila::markup::{escape_text, full_markup, span_markup, style_css};
use termila::render::{RenderOp, Span};
use termila::sgr::{parse_codes, parse_num, sgr_attributes, xterm256_to_rgb};
use termila::style::{Color, NamedColor, Style};

const GRID: Grid = Grid { rows: 24, columns: 80 };

fn feed(b: &mut Buffer, bytes: &[u8]) {
    let mut d = Decoder::new();
    for &byte in bytes {
        if let Decoded::Char(c) = d.feed(byte) {
            b.write_raw(c, GRID);
        }
    }
}

fn text_of(b: &Buffer) -> String {
    b.runs.iter().flat_map(|r| r.text.iter()).collect()
}

fn red() -> Style {
    Style { color: Some(Color::Named(NamedColor::Red)), background: None }
}

/// The renderer's elements, kept as the operations describe them.
fn apply(elems: &mut Vec<(u64, String, Style)>, op: &RenderOp) {
    match op {
        RenderOp::Create { id, text, style, before } => {
            let e = (*id, text.iter().collect::<String>(), *style);
            let at = before.and_then(|b| elems.iter().position(|x| x.0 == b));
            match at {
                Some(k) => elems.insert(k, e),
                None => elems.push(e),
            }
        }
        RenderOp::Update { id, text, style } => {
            if let Some(k) = elems.iter().position(|x| x.0 == *id) {
                elems[k] = (*id, text.iter().collect(), *style);
            }
        }
        RenderOp::Delete { id } => {
            if let Some(k) = elems.iter().position(|x| x.0 == *id) {
                elems.remove(k);
            }
        }
    }
}

fn shown(elems: &[(u64, String, Style)]) -> Vec<(String, Style)> {
    elems.iter().filter(|e| !e.1.is_empty()).map(|e| (e.1.clone(), e.2)).collect()
}

#[test]
fn decoder_counts_one_char_per_start() {
    let mut d = Decoder::new();
    let bytes = [0x41u8, 0xC3, 0xA9, 0xFF, 0xE2, 0x00, 0x82, 0xAC, 0x80];
    let mut out = Vec::new();
    let mut nodata = 0;
    for &b in &bytes {
        match d.feed(b) {
            Decoded::Char(c) => out.push(c),
            Decoded::NoData => nodata += 1,
            Decoded::Pending => {}
        }
    }
    assert_eq!(out, vec!['A', 'é', ' ', '€', ' ']);
    assert_eq!(nodata, 1);
}

#[test]
fn decoder_idle_byte_is_no_data() {
    let mut d = Decoder::new();
    assert_eq!(d.feed(0), Decoded::NoData);
    assert_eq!(d.feed(b'x'), Decoded::Char('x'));
}

#[test]
fn decoder_bad_continuation_gives_space() {
    let mut d = Decoder::new();
    assert_eq!(d.feed(0xC3), Decoded::Pending);
    assert_eq!(d.feed(0x41), Decoded::Char(' '));
    assert_eq!(d.feed(0x42), Decoded::Char('B'));
}

#[test]
fn decode_group_decodes_utf8() {
    assert_eq!(decode_group(&vec![0xF0, 0x9F, 0x98, 0x80]), '😀');
    assert_eq!(decode_group(&vec![0xE2, 0x82]), ' ');
    assert_eq!(decode_group(&vec![0xC0, 0x80]), ' ');
}

#[test]
fn sgr_red_then_reset() {
    let mut b = Buffer::new();
    feed(&mut b, b"\x1b[31mHi\x1b[0m");
    assert_eq!(b.runs.len(), 2);
    assert_eq!(b.runs[0].text, vec!['H', 'i']);
    assert_eq!(b.runs[0].style, red());
    assert!(b.runs[1].text.is_empty());
    assert_eq!(b.runs[1].style, Style { color: Some(Color::Unset), background: Some(Color::Unset) });
    assert_eq!(b.cursor_run, 1);
}

#[test]
fn carriage_return_overwrites() {
    let mut b = Buffer::new();
    feed(&mut b, b"A\r");
    assert_eq!(b.column_of(), 2);
    feed(&mut b, b"B");
    assert_eq!(text_of(&b), "B");
    assert_eq!(b.column_of(), 2);
}

#[test]
fn crlf_is_one_line_break() {
    let mut b = Buffer::new();
    feed(&mut b, b"ab\r\ncd");
    assert_eq!(text_of(&b), "ab\ncd");
    assert_eq!(b.row_of(), 0);
    assert_eq!(b.column_of(), 3);
}

#[test]
fn erase_display_leaves_one_empty_run() {
    let mut b = Buffer::new();
    feed(&mut b, b"a\x1b[32mb\nc");
    b.update_partial();
    assert!(b.runs.len() > 1);
    feed(&mut b, b"\x1b[2J");
    assert_eq!(text_of(&b), "");
    b.update_partial();
    assert_eq!(b.runs.len(), 1);
    assert!(b.runs[0].text.is_empty());
    assert_eq!((b.cursor_run, b.cursor_offset), (0, 0));
}

#[test]
fn cursor_left_clamps_at_column_one() {
    let mut b = Buffer::new();
    feed(&mut b, b"a");
    assert_eq!(b.column_of(), 2);
    feed(&mut b, b"\x1b[5D");
    assert_eq!(b.column_of(), 1);
    assert_eq!(b.row_of(), 0);
    assert_eq!(text_of(&b), "a");
}

#[test]
fn write_then_advance_lands_after_char() {
    let mut b = Buffer::new();
    feed(&mut b, b"xy\nz");
    let (i0, o0) = (0usize, 1usize);
    b.cursor_run = i0;
    b.cursor_offset = o0;
    let before = text_of(&b).chars().count();
    b.write_buff('Q');
    assert_eq!(text_of(&b), "xQ\nz");
    assert_eq!(text_of(&b).chars().count(), before);
    let (mut i, mut o) = (i0, o0);
    assert!(b.advance(&mut i, &mut o));
    assert_eq!(b.position(i, o), b.position(b.cursor_run, b.cursor_offset));
    b.write_buff('R');
    assert_eq!(text_of(&b), "xQR\nz");
    assert_eq!(text_of(&b).chars().count(), before + 1);
}

#[test]
fn goto_rc_reaches_column_and_row() {
    let mut b = Buffer::new();
    b.goto_rc(5, 2, GRID);
    assert_eq!(b.column_of(), 5);
    assert_eq!(b.row_of(), 2);
    assert_eq!(text_of(&b), "    \n\n");
    b.goto_rc(100, 30, GRID);
    assert_eq!(b.column_of(), 80);
    assert_eq!(b.row_of(), 23);
    b.goto_rc(0, 0, GRID);
    assert_eq!(b.column_of(), 1);
    assert_eq!(b.row_of(), 0);
}

#[test]
fn absolute_position_counts_rows_from_bottom() {
    let mut b = Buffer::new();
    feed(&mut b, b"\x1b[20;7H");
    assert_eq!(b.column_of(), 7);
    assert_eq!(b.row_of(), 5);
    feed(&mut b, b"\x1b[24H");
    assert_eq!(b.column_of(), 1);
    assert_eq!(b.row_of(), 1);
}

#[test]
fn relative_moves() {
    let mut b = Buffer::new();
    feed(&mut b, b"\x1b[10;10H");
    assert_eq!(b.row_of(), 15);
    let r = b.row_of();
    feed(&mut b, b"\x1b[2A");
    assert_eq!(b.row_of(), r + 2);
    feed(&mut b, b"\x1b[B");
    assert_eq!(b.row_of(), r + 1);
    feed(&mut b, b"\x1b[4C");
    assert_eq!(b.column_of(), 14);
    feed(&mut b, b"\x1b[99B");
    assert_eq!(b.row_of(), 0);
}

#[test]
fn erase_line_to_end_and_restore() {
    let mut b = Buffer::new();
    let grid = Grid { rows: 4, columns: 6 };
    for c in "abcdef".chars() {
        b.write_raw(c, grid);
    }
    b.cursor_offset = 2;
    for c in "\x1b[K".chars() {
        b.write_raw(c, grid);
    }
    assert_eq!(text_of(&b), "ab    ");
    assert_eq!(b.column_of(), 3);
}

#[test]
fn erase_chars_keeps_cursor() {
    let mut b = Buffer::new();
    feed(&mut b, b"hello\r\x1b[3X");
    assert_eq!(text_of(&b), "   lo");
    assert_eq!(b.column_of(), 1);
}

#[test]
fn erase_display_from_cursor() {
    let mut b = Buffer::new();
    feed(&mut b, b"hello\x1b[3D\x1b[J");
    assert_eq!(text_of(&b), "he");
    feed(&mut b, b"\x1b[1J");
    assert_eq!(text_of(&b), "");
}

#[test]
fn backspace_moves_without_erasing() {
    let mut b = Buffer::new();
    feed(&mut b, b"ab\x08");
    assert_eq!(b.column_of(), 2);
    feed(&mut b, b"X");
    assert_eq!(text_of(&b), "aX");
}

#[test]
fn unterminated_sequence_is_dropped() {
    let mut b = Buffer::new();
    feed(&mut b, b"\x1b[123456789012345678x");
    assert!(b.escape.is_empty());
    assert_eq!(text_of(&b), "5678x");
    feed(&mut b, b"\x1b]0;title\x07ok");
    assert_eq!(text_of(&b), "5678xok");
    feed(&mut b, b"\x1b(B!");
    assert_eq!(text_of(&b), "5678xok!");
}

#[test]
fn unknown_final_is_ignored() {
    let mut b = Buffer::new();
    feed(&mut b, b"q\x1b[?25l\x1b[5t\x1b[1;2r\x1b[2Zw");
    assert_eq!(text_of(&b), "qw");
}

#[test]
fn bell_changes_nothing() {
    let mut b = Buffer::new();
    feed(&mut b, b"a\x07b");
    assert_eq!(text_of(&b), "ab");
}

#[test]
fn palette_colors() {
    assert_eq!(xterm256_to_rgb(0), (0, 0, 0));
    assert_eq!(xterm256_to_rgb(9), (255, 0, 0));
    assert_eq!(xterm256_to_rgb(16), (0, 0, 0));
    assert_eq!(xterm256_to_rgb(196), (255, 0, 0));
    assert_eq!(xterm256_to_rgb(110), (135, 175, 215));
    assert_eq!(xterm256_to_rgb(232), (8, 8, 8));
    assert_eq!(xterm256_to_rgb(255), (238, 238, 238));
}

#[test]
fn sgr_codes() {
    let st = sgr_attributes(&parse_codes(&"38;5;196;48;2;1;2;3".chars().collect::<Vec<_>>()));
    assert_eq!(st.color, Some(Color::Rgb(255, 0, 0)));
    assert_eq!(st.background, Some(Color::Rgb(1, 2, 3)));
    let st = sgr_attributes(&parse_codes(&"".chars().collect::<Vec<_>>()));
    assert_eq!(st, Style { color: Some(Color::Unset), background: Some(Color::Unset) });
    let st = sgr_attributes(&parse_codes(&"94;101;7;39".chars().collect::<Vec<_>>()));
    assert_eq!(st.color, Some(Color::Unset));
    assert_eq!(st.background, Some(Color::Named(NamedColor::LightCoral)));
    let st = sgr_attributes(&parse_codes(&"38;5;300;48;2;9".chars().collect::<Vec<_>>()));
    assert_eq!(st, Style { color: None, background: Some(Color::Rgb(9, 0, 0)) });
}

#[test]
fn numeric_parameters() {
    assert_eq!(parse_num(&['4', '2']), Some(42));
    assert_eq!(parse_num(&[]), None);
    assert_eq!(parse_num(&['4', '?']), None);
    assert_eq!(parse_num(&['9'; 40]), None);
}

#[test]
fn full_and_partial_show_the_same() {
    let input: &[u8] = b"ab\x1b[32mcd\x1b[0m\r\nxy\x1b[1;3Hz";
    let mut full = Buffer::new();
    let mut part = Buffer::new();
    feed(&mut full, input);
    feed(&mut part, input);
    let spans = full.update_full().unwrap();
    let ops = part.update_partial();
    assert_eq!(full.dirty_count, 0);
    assert_eq!(part.dirty_count, 0);
    let shown_full: Vec<(String, Style)> = spans
        .iter()
        .filter(|s| !s.text.is_empty())
        .map(|s| (s.text.iter().collect(), s.style))
        .collect();
    let mut elems = Vec::new();
    for op in &ops {
        apply(&mut elems, op);
    }
    assert_eq!(shown(&elems), shown_full);
    assert_eq!(text_of(&full), text_of(&part));
}

#[test]
fn partial_passes_track_the_buffer() {
    let mut b = Buffer::new();
    let mut elems = Vec::new();
    for chunk in [&b"hello\x1b[31m wor"[..], b"ld\r\x1b[2CX", b"\x1b[2J", b"again\x1b[44m!"] {
        feed(&mut b, chunk);
        for op in &b.update_partial() {
            apply(&mut elems, op);
        }
        assert_eq!(b.dirty_count, 0);
        let expect: Vec<(u64, String, Style)> = b
            .runs
            .iter()
            .map(|r| (r.id.unwrap(), r.text.iter().collect(), r.style))
            .collect();
        assert_eq!(elems, expect);
    }
    assert!(b.update_partial().is_empty());
    assert!(b.update_full().is_none());
}

#[test]
fn markup_escapes_and_styles() {
    let esc: String = escape_text(&"a b<>\n\\`".chars().collect()).iter().collect();
    assert_eq!(esc, "a&nbsp;b&lt;&gt;<br>\\\\\\`");
    let st = Style { color: Some(Color::Named(NamedColor::LightSkyBlue)), background: Some(Color::Rgb(1, 22, 255)) };
    let css: String = style_css(&st).iter().collect();
    assert_eq!(css, "color: lightskyblue; background-color: rgb(1,22,255);");
    let css: String = style_css(&Style { color: None, background: Some(Color::Unset) }).iter().collect();
    assert_eq!(css, "background-color: unset;");
    let span: String = span_markup(1204, &vec!['h', 'i'], &red()).iter().collect();
    assert_eq!(span, "<span id=\"t-1204\" style=\"color: red;\">hi</span>");
    let spans = vec![
        Span { id: 1, text: vec!['x'], style: red() },
        Span { id: 2, text: vec![], style: Style::neutral() },
    ];
    let all: String = full_markup(&spans).iter().collect();
    assert_eq!(all, "<span id=\"t-1\" style=\"color: red;\">x</span><span id=\"t-2\" style=\"\"></span>");
}

#[test]
fn advance_reports_a_following_char() {
    let mut b = Buffer::new();
    b.write_buff('a');
    let (mut i, mut o) = (0usize, 0usize);
    assert!(!b.advance(&mut i, &mut o));
    assert_eq!(b.position(i, o), 1);
    assert!(!b.advance(&mut i, &mut o));
    assert_eq!(b.position(i, o), 1);
    b.write_buff('b');
    let (mut i, mut o) = (0usize, 0usize);
    assert!(b.advance(&mut i, &mut o));
    assert_eq!(b.position(i, o), 1);
}

#[test]
fn write_buff_snaps_an_out_of_range_cursor() {
    let mut b = Buffer::new();
    feed(&mut b, b"ab");
    b.cursor_run = 7;
    b.write_buff('z');
    assert_eq!(text_of(&b), "abz");
    assert_eq!(b.runs.len(), 2);
    assert_eq!(b.runs[1].style, Style::neutral());
    b.cursor_offset = 9;
    b.write_buff('y');
    assert_eq!(text_of(&b), "abzy");
    assert!(b.runs[b.cursor_run].dirty);
}

#[test]
fn erase_many_chars() {
    let mut b = Buffer::new();
    feed(&mut b, b"hello\r\x1b[300X");
    assert_eq!(text_of(&b), " ".repeat(300));
    assert_eq!(b.column_of(), 1);
}

#[test]
fn loop_decisions() {
    assert_eq!(after_read(0, true, 1024), (1, LoopStep::Count));
    assert_eq!(after_read(5, true, 1024), (6, LoopStep::Count));
    assert_eq!(after_read(1024, true, 1024), (0, LoopStep::Flush));
    assert_eq!(after_read(3, false, 1024), (0, LoopStep::Flush));
    assert_eq!(after_read(0, false, 1024), (0, LoopStep::Idle));
}

#[test]
fn partial_after_full_finds_its_elements() {
    let mut b = Buffer::new();
    feed(&mut b, b"one\x1b[33mtwo");
    let spans = b.update_full().unwrap();
    let mut elems: Vec<(u64, String, Style)> =
        spans.iter().map(|s| (s.id, s.text.iter().collect(), s.style)).collect();
    let markup: String = full_markup(&spans).iter().collect();
    for s in &spans {
        assert!(markup.contains(&format!("id=\"t-{}\"", s.id)));
    }
    feed(&mut b, b"\rX\x1b[2J");
    for op in &b.update_partial() {
        apply(&mut elems, op);
    }
    let expect: Vec<(u64, String, Style)> =
        b.runs.iter().map(|r| (r.id.unwrap(), r.text.iter().collect(), r.style)).collect();
    assert_eq!(elems, expect);
    assert_eq!(b.runs.len(), 1);
}
