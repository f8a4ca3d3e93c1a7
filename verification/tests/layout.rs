use mcping_api::minecraft::color::Color;
use mcping_api::minecraft::component::{Component, ResolvedStyle, Span};
use mcping_api::minecraft::font;
use mcping_api::minecraft::font::VanillaFont;
use mcping_api::minecraft::render::{bidi, glyphs, layout};

/// A font in which every small letter advances by six and a space by four.
fn letters() -> VanillaFont {
    let mut d = b"MCF2".to_vec();
    d.extend_from_slice(&27u32.to_le_bytes());
    for cp in ('a' as u32..='z' as u32).chain([' ' as u32]) {
        d.extend_from_slice(&cp.to_le_bytes());
        let advance = if cp == ' ' as u32 { 4 } else { 6 };
        d.extend_from_slice(&[advance, 5, 0, 7]);
    }
    font::font(&d, &[]).unwrap()
}

fn lines(s: &str, width: u32, max: usize) -> Vec<String> {
    let spans = Component::text(s).to_spans();
    layout::visual_lines(&letters(), &spans, width, max, 1)
}

#[test]
fn lines_break_where_they_are_full() {
    assert_eq!(lines("aaaa", 20, 9), vec!["aaa", "a"]);
    assert_eq!(lines("aa aa", 20, 9), vec!["aa ", "aa"]);
    assert_eq!(lines("aa aa", 23, 9), vec!["aa ", "aa"]);
    assert_eq!(lines("aa aa", 28, 9), vec!["aa aa"]);
    assert_eq!(lines("ab cd ef", 35, 9), vec!["ab cd ", "ef"]);
    assert_eq!(lines("a\nb\n", 100, 9), vec!["a", "b"]);
    assert_eq!(lines("a\n\nb", 100, 9), vec!["a", "", "b"]);
    assert_eq!(lines("a\u{1}b\u{85}c", 100, 9), vec!["abc"]);
    assert_eq!(lines("", 100, 9), Vec::<String>::new());
    assert_eq!(lines("aa", 0, 9), vec!["a", "a"]);
}

#[test]
fn a_word_that_is_carried_over_breaks_where_it_does_not_fit() {
    assert_eq!(lines(" aaaa", 22, 9), vec![" ", "aaa", "a"]);
    assert_eq!(lines(" aaaab", 22, 9), vec![" ", "aaa", "ab"]);
    assert_eq!(lines("a bbb c", 18, 9), vec!["a ", "bbb", " c"]);
    let plain = ResolvedStyle::default();
    let spans = vec![
        Span { text: " XYZ".to_string(), style: plain },
        Span { text: "W".to_string(), style: ResolvedStyle { bold: true, ..plain } },
    ];
    let bare = font::font(b"MCF2\0\0\0\0", &[]).unwrap();
    assert_eq!(layout::visual_lines(&bare, &spans, 28, 9, 1), vec![" ", "XYZ", "W"]);
    assert_eq!(layout::visual_lines(&bare, &spans, 29, 9, 1), vec![" ", "XYZW"]);
}

#[test]
fn no_line_is_wider_than_the_limit() {
    let f = letters();
    let mut texts = vec!["aaaa b cc   dd e".to_string(), " aaaab §lbbb§r c".to_string()];
    texts.push("§l a §rbc de§lf gggggg hhh".to_string());
    for s in texts {
        let spans = Component::text(&s).to_spans();
        for width in 0..80 {
            for line in layout::layout(&f, &spans, width, 99, 2) {
                assert!(line.len() <= 1 || glyphs::line_width(&line) <= 2 * width as u64);
            }
        }
    }
}

#[test]
fn lines_are_cut_to_the_first() {
    assert_eq!(lines("a\nb\nc", 100, 2), vec!["a", "b"]);
    assert_eq!(lines("a\nb\nc", 100, 0), vec!["a"]);
}

#[test]
fn no_space_is_lost() {
    let s = "   aa   bb     cc  ";
    for width in [1, 10, 20, 30, 1000] {
        assert_eq!(lines(s, width, 99).concat(), s);
    }
}

#[test]
fn widths_in_pixels() {
    let f = letters();
    let bold = Component::text("§la b").to_spans();
    assert_eq!(layout::measure_dev(&f, &Component::text("a b").to_spans(), 4), 64);
    assert_eq!(layout::measure_dev(&f, &bold, 4), 76);
    assert_eq!(layout::measure_dev(&f, &Component::text("A").to_spans(), 1), 7);
    assert_eq!(layout::measure_dev(&f, &Component::text("§ka b").to_spans(), 4), 64);
    assert_eq!(layout::measure_dev(&f, &[], 4), 0);
    assert_eq!(layout::measure_dev(&f, &Component::text("aa\na").to_spans(), 1), 12);
}

#[test]
fn right_to_left_text_is_seen_reversed() {
    assert_eq!(lines("אבג", 1000, 1), vec!["גבא"]);
    assert_eq!(lines("abc אב", 1000, 1), vec!["abc בא"]);
    assert_eq!(lines("abc (אב)", 1000, 1), vec!["abc (בא)"]);
    assert_eq!(lines("(אב", 1000, 1), vec!["בא)"]);
    assert_eq!(lines("abc (x)", 1000, 1), vec!["abc (x)"]);
}

#[test]
fn arabic_letters_take_their_joined_forms() {
    let forms = ar_reshaper::reshape_line("سلام");
    assert_ne!(forms, "سلام");
    let seen: String = forms.chars().rev().collect();
    assert_eq!(lines("سلام", 1000, 1), vec![seen]);
    let run: Vec<char> = "سلام".chars().collect();
    assert_eq!(bidi::join_forms(&run), forms.chars().collect::<Vec<_>>());
}

#[test]
fn letters_are_joined_within_one_style_only() {
    let spans = Component::text("س§lل").to_spans();
    let seen = layout::visual_lines(&letters(), &spans, 1000, 1, 1);
    let apart: String = [ar_reshaper::reshape_line("ل"), ar_reshaper::reshape_line("س")].concat();
    assert_eq!(seen, vec![apart]);
}

#[test]
fn text_that_the_reshaper_does_not_take_stays_as_it_is() {
    let bad: Vec<char> = "\u{200D}لا".chars().collect();
    assert!(!bidi::is_shapeable(&bad));
    assert_eq!(bidi::join_forms(&bad), bad);
    let allah: Vec<char> = "الله\u{200D}".chars().collect();
    assert!(bidi::is_shapeable(&allah));
    for s in ["", "abc", "لا", "لا\u{200D}ل", "الله", "ل\u{64B}ا", "\u{200D}س"] {
        let t: Vec<char> = s.chars().collect();
        assert!(bidi::is_shapeable(&t));
        assert_eq!(
            bidi::join_forms(&t),
            ar_reshaper::reshape_line(s).chars().collect::<Vec<_>>()
        );
    }
}

#[test]
fn runs_give_the_order() {
    let plain = ResolvedStyle::default();
    let bold = ResolvedStyle { bold: true, ..plain };
    let list = vec![('a', plain), ('é', bold), ('(', bold), ('漢', plain)];
    let all: Vec<(usize, usize, bool)> = vec![(1, 4, true), (4, 7, false), (0, 1, false)];
    assert_eq!(
        bidi::order_runs(&list, &all),
        vec![(')', bold), ('é', bold), ('漢', plain), ('a', plain)]
    );
    assert_eq!(bidi::order_runs(&list, &vec![]), vec![]);
}

#[test]
fn lines_split_by_style() {
    let f = letters();
    let plain = ResolvedStyle::default();
    let bold = ResolvedStyle { bold: true, ..plain };
    let line = vec![
        glyphs::place(&f, 'a', plain, 1),
        glyphs::place(&f, 'b', plain, 1),
        glyphs::place(&f, 'c', bold, 1),
        glyphs::place(&f, 'd', plain, 1),
    ];
    assert_eq!(
        bidi::split_styles(&line),
        vec![(vec!['a', 'b'], plain), (vec!['c'], bold), (vec!['d'], plain)]
    );
}

#[test]
fn mirrors() {
    for (a, b) in [('(', ')'), ('[', ']'), ('{', '}'), ('<', '>'), ('«', '»'), ('‹', '›'), ('≤', '≥')] {
        assert_eq!(bidi::mirror(a), b);
        assert_eq!(bidi::mirror(b), a);
    }
    assert_eq!(bidi::mirror('x'), 'x');
    assert!(bidi::is_rtl_char('א') && bidi::is_rtl_char('س') && bidi::is_rtl_char('\u{FEFC}'));
    assert!(!bidi::is_rtl_char('a') && !bidi::is_rtl_char('漢') && !bidi::is_rtl_char('\u{900}'));
}

#[test]
fn missing_glyphs_are_hollow_boxes() {
    let g = glyphs::tofu();
    assert_eq!((g.advance, g.width, g.height, g.ascent), (7, 6, 8, 7));
    for row in 0..8 {
        for col in 0..6 {
            let edge = row == 0 || row == 7 || col == 0 || col == 5;
            assert_eq!(g.pixel(col, row), edge);
        }
    }
    assert_eq!(glyphs::glyph_of(&letters(), 'Q').rows, g.rows);
    let spans = vec![Span { text: "x".to_string(), style: ResolvedStyle::default() }];
    let l = layout::layout(&letters(), &spans, 100, 1, 3);
    assert_eq!(l[0][0].advance, 18);
    assert_eq!(glyphs::line_width(&l[0]), 18);
}

#[test]
fn one_run_keeps_or_reverses_a_line() {
    let plain = ResolvedStyle::default();
    let list = vec![('a', plain), ('<', plain), ('漢', plain)];
    assert_eq!(bidi::order_runs(&list, &vec![(0, 5, false)]), list);
    assert_eq!(
        bidi::order_runs(&list, &vec![(0, 5, true)]),
        vec![('漢', plain), ('>', plain), ('a', plain)]
    );
    assert_eq!(bidi::order_runs(&list, &vec![(0, 1, false), (1, 5, false)]), list);
}

#[test]
fn lines_are_found_at_any_scale_and_in_any_color() {
    let odd = ResolvedStyle { color: Some(Color::Named(99)), ..ResolvedStyle::default() };
    let spans = vec![Span { text: "aa aa".to_string(), style: odd }];
    let f = letters();
    for scale in [0, 1, 4, 1 << 20, 100_000_000] {
        let wanted = if scale == 0 { vec!["aa aa"] } else { vec!["aa ", "aa"] };
        assert_eq!(layout::visual_lines(&f, &spans, 20, 9, scale), wanted);
    }
}

#[test]
fn every_character_keeps_its_style() {
    let spans = Component::text("aa §lbb §ncc\ndd §reee").to_spans();
    let all: Vec<(char, ResolvedStyle)> = spans
        .iter()
        .flat_map(|s| s.text.chars().map(|c| (c, s.style)))
        .filter(|(c, _)| *c != '\n')
        .collect();
    for width in [1, 7, 13, 20, 40, 1000] {
        let lines = layout::layout(&letters(), &spans, width, 99, 1);
        let got: Vec<(char, ResolvedStyle)> =
            lines.iter().flatten().map(|p| (p.ch, p.style)).collect();
        assert_eq!(got, all);
    }
}
