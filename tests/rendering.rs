use ascii_art::config::AsciiConfig;
use ascii_art::error::AsciiError;
use ascii_art::escape::{is_reset_sequence, parse_ansi_color};
use ascii_art::mapper::convert_image;
use ascii_art::raster::Image;
use ascii_art::raster::Rgb;
use ascii_art::render::{count_lines, count_text_lines, AsciiToImageRenderer, GlyphCell};

fn renderer(width: u32, font_size: u32) -> AsciiToImageRenderer {
    let mut c = AsciiConfig::default();
    c.width = width;
    AsciiToImageRenderer::new(c, font_size)
}

#[test]
fn colour_sequences_parse() {
    assert_eq!(parse_ansi_color("\x1b[38;2;1;22;255m"), Some(Rgb { r: 1, g: 22, b: 255 }));
    assert_eq!(parse_ansi_color("\x1b[38;2;+7;007;0m"), Some(Rgb { r: 7, g: 7, b: 0 }));
    assert_eq!(parse_ansi_color("\x1b[38;2;256;0;0m"), None);
    assert_eq!(parse_ansi_color("\x1b[38;2;1;2m"), None);
    assert_eq!(parse_ansi_color("\x1b[38;2;1;2;3"), None);
    assert_eq!(parse_ansi_color("\x1b[38;5;1;2;3m"), None);
    assert_eq!(parse_ansi_color("\x1b[38;2;;2;3m"), None);
}

#[test]
fn reset_sequence_is_recognised() {
    assert!(is_reset_sequence("\x1b[0m"));
    assert!(!is_reset_sequence("\x1b[0"));
    assert!(!is_reset_sequence("\x1b[1m"));
}

#[test]
fn layout_places_glyphs_and_skips_spaces() {
    let mut r = renderer(3, 10);
    let cells = r.layout("a b\n c\n");
    let fg = Rgb { r: 0xCC, g: 0xCC, b: 0xCC };
    assert_eq!(
        cells,
        vec![
            GlyphCell { column: 0, row: 0, glyph: 'a', color: fg },
            GlyphCell { column: 2, row: 0, glyph: 'b', color: fg },
            GlyphCell { column: 1, row: 1, glyph: 'c', color: fg },
        ]
    );
}

#[test]
fn layout_follows_colour_escapes() {
    let mut r = renderer(2, 10);
    let cells = r.layout("\x1b[38;2;1;2;3mx\x1b[0m\x1b[38;2;9;9;9my\x1b[0m\n");
    assert_eq!(cells.len(), 2);
    assert_eq!(cells[0], GlyphCell { column: 0, row: 0, glyph: 'x', color: Rgb { r: 1, g: 2, b: 3 } });
    assert_eq!(cells[1], GlyphCell { column: 1, row: 0, glyph: 'y', color: Rgb { r: 9, g: 9, b: 9 } });
    assert_eq!(r.foreground_color, Rgb { r: 9, g: 9, b: 9 });
}

#[test]
fn unrecognised_escape_is_ordinary_text() {
    let mut r = renderer(4, 10);
    let cells = r.layout("\x1b[1mz");
    let glyphs: Vec<char> = cells.iter().map(|c| c.glyph).collect();
    assert_eq!(glyphs, vec!['\x1b', '[', '1', 'm', 'z']);
    assert_eq!(cells[4].column, 4);
}

#[test]
fn carriage_return_before_newline_is_dropped() {
    let mut r = renderer(2, 10);
    let cells = r.layout("a\r\nb");
    assert_eq!(cells.len(), 2);
    assert_eq!((cells[1].row, cells[1].column), (1, 0));
}

#[test]
fn canvas_follows_columns_and_lines() {
    let r = renderer(80, 16);
    assert_eq!(r.cell_width(), 9);
    assert_eq!(r.canvas_size("ab\ncd\n"), Ok((720, 32)));
    assert_eq!(r.canvas_size("ab\ncd"), Ok((720, 32)));
    let r = renderer(80, 32);
    assert_eq!(r.cell_width(), 19);
    let wide = renderer(u32::MAX, 32);
    assert_eq!(wide.canvas_size("a"), Err(AsciiError::EncodeFailure));
}

#[test]
fn renderer_colours_can_be_replaced() {
    let r = renderer(1, 8).with_colors(Rgb { r: 1, g: 1, b: 1 }, Rgb { r: 2, g: 2, b: 2 });
    assert_eq!(r.background_color, Rgb { r: 1, g: 1, b: 1 });
    assert_eq!(r.foreground_color, Rgb { r: 2, g: 2, b: 2 });
}

#[test]
fn line_counts() {
    assert_eq!(count_lines(""), 0);
    assert_eq!(count_lines("a\nb\n"), 2);
    assert_eq!(count_lines("a\nb"), 1);
    assert_eq!(count_text_lines("a\nb"), 2);
    assert_eq!(count_text_lines("a\nb\n"), 2);
    assert_eq!(count_text_lines(""), 0);
}

#[test]
fn layout_recovers_coloured_grid() {
    let pixels = vec![Rgb { r: 250, g: 250, b: 250 }, Rgb { r: 200, g: 100, b: 50 }];
    let img = Image::from_pixels(2, 1, pixels).unwrap();
    let mut c = AsciiConfig::default();
    c.width = 2;
    c.height = 1;
    c.color = true;
    let text = convert_image(&c, &img).unwrap();
    let mut r = AsciiToImageRenderer::new(c, 10);
    let cells = r.layout(&text);
    assert_eq!(cells.len(), 2);
    assert_eq!((cells[0].column, cells[0].row), (0, 0));
    assert_eq!(cells[0].color, Rgb { r: 250, g: 250, b: 250 });
    assert_eq!((cells[1].column, cells[1].row), (1, 0));
    assert_eq!(cells[1].color, Rgb { r: 200, g: 100, b: 50 });
    assert_eq!(r.canvas_size(&text), Ok((12, 10)));
}
