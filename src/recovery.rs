//! Laying the mapping's output out again recovers the grid it was made from.

use vstd::prelude::*;
use crate::config::{AsciiConfig, glyphs_of};
use crate::escape::{ansi_color, lemma_color_escape_round_trip};
use crate::mapper::{
    art_of, art_rows, cell_glyph, cell_mean, cell_text, color_escape, lemma_cell_glyph_in_ramp,
    lemma_cell_mean_bounds, reset_escape, row_cells, rows_of,
};
use crate::raster::{Image, Rgb};
use crate::render::{GlyphCell, escape_end, line_break_at, scan};
use crate::shape::{color_body, inert, lemma_color_escape_strips, lemma_reset_strips};

verus! {

proof fn lemma_escape_end_shift(s: Seq<char>, i: int, j: int)
    requires
        0 <= i <= j,
        i <= s.len(),
    ensures
        escape_end(s, j) == i + escape_end(s.skip(i), j - i),
    decreases s.len() - j,
{
    let t = s.skip(i);
    if j < s.len() {
        assert(t[j - i] == s[j]);
        if j + 1 < s.len() {
            assert(t[j - i + 1] == s[j + 1]);
        }
        assert(line_break_at(s, j) == line_break_at(t, j - i));
        if !line_break_at(s, j) && s[j] != 'm' {
            lemma_escape_end_shift(s, i, j + 1);
        }
    }
}

/// Scanning from `i` is scanning what follows `i`.
pub proof fn lemma_scan_shift(s: Seq<char>, i: int, row: int, col: int, fg: Rgb)
    requires
        0 <= i <= s.len(),
    ensures
        scan(s, i, row, col, fg) == scan(s.skip(i), 0, row, col, fg),
    decreases s.len() - i,
{
    let t = s.skip(i);
    if i < s.len() {
        assert(t[0] == s[i]);
        if i + 1 < s.len() {
            assert(t[1] == s[i + 1]);
        }
        assert(t.skip(1) =~= s.skip(i + 1));
        lemma_scan_shift(s, i + 1, row + 1, 0, fg);
        lemma_scan_shift(t, 1, row + 1, 0, fg);
        lemma_scan_shift(s, i + 1, row, col, fg);
        lemma_scan_shift(t, 1, row, col, fg);
        lemma_scan_shift(s, i + 1, row, col + 1, fg);
        lemma_scan_shift(t, 1, row, col + 1, fg);
        lemma_escape_end_shift(s, i, i + 1);
        let e = escape_end(s, i + 1);
        if s[i] == '\x1b' && e > i && e <= s.len() {
            assert(escape_end(t, 1) == e - i);
            assert(s.subrange(i, e) =~= t.subrange(0, e - i));
            assert(t.skip(e - i) =~= s.skip(e));
            lemma_scan_shift(s, e, row, col, fg);
            lemma_scan_shift(t, e - i, row, col, fg);
            if ansi_color(s.subrange(i, e)) is Some {
                let c = ansi_color(s.subrange(i, e))->0;
                lemma_scan_shift(s, e, row, col, c);
                lemma_scan_shift(t, e - i, row, col, c);
            }
        }
    } else {
        assert(t.len() == 0);
    }
}

proof fn lemma_scan_newline(rest: Seq<char>, row: int, col: int, fg: Rgb)
    ensures
        scan(seq!['\n'] + rest, 0, row, col, fg) == scan(rest, 0, row + 1, 0, fg),
{
    let s = seq!['\n'] + rest;
    assert(s[0] == '\n');
    lemma_scan_shift(s, 1, row + 1, 0, fg);
    assert(s.skip(1) =~= rest);
}

/// What scanning a glyph places: nothing for a space, else the glyph in its cell.
pub open spec fn placed(c: char, row: int, col: int, fg: Rgb) -> Seq<GlyphCell> {
    if c == ' ' {
        Seq::empty()
    } else {
        seq![GlyphCell { column: col as usize, row: row as usize, glyph: c, color: fg }]
    }
}

proof fn lemma_scan_glyph(c: char, rest: Seq<char>, row: int, col: int, fg: Rgb)
    requires
        c != '\n',
        c != '\r',
        c != '\x1b',
    ensures
        scan(seq![c] + rest, 0, row, col, fg).0 == placed(c, row, col, fg) + scan(
            rest,
            0,
            row,
            col + 1,
            fg,
        ).0,
        scan(seq![c] + rest, 0, row, col, fg).1 == scan(rest, 0, row, col + 1, fg).1,
{
    let s = seq![c] + rest;
    assert(s[0] == c);
    lemma_scan_shift(s, 1, row, col + 1, fg);
    assert(s.skip(1) =~= rest);
    if c == ' ' {
        assert(placed(c, row, col, fg) + scan(rest, 0, row, col + 1, fg).0 =~= scan(
            rest,
            0,
            row,
            col + 1,
            fg,
        ).0);
    }
}

proof fn lemma_escape_end_of_sequence(body: Seq<char>, rest: Seq<char>, j: int)
    requires
        inert(body),
        1 <= j <= body.len() + 1,
    ensures
        escape_end(seq!['\x1b'] + body + seq!['m'] + rest, j) == body.len() + 2,
    decreases body.len() + 1 - j,
{
    let s = seq!['\x1b'] + body + seq!['m'] + rest;
    if j <= body.len() {
        assert(s[j] == body[j - 1]);
        lemma_escape_end_of_sequence(body, rest, j + 1);
    } else {
        assert(s[j] == 'm');
    }
}

/// Scanning an escape sequence with an inert body consumes it when it is the
/// reset or a colour sequence.
proof fn lemma_scan_escape(body: Seq<char>, rest: Seq<char>, row: int, col: int, fg: Rgb)
    requires
        inert(body),
    ensures
        ({
            let e = seq!['\x1b'] + body + seq!['m'];
            &&& e == reset_escape() ==> scan(e + rest, 0, row, col, fg) == scan(rest, 0, row, col, fg)
            &&& e != reset_escape() && ansi_color(e) is Some ==> scan(e + rest, 0, row, col, fg)
                == scan(rest, 0, row, col, ansi_color(e)->0)
        }),
{
    let e = seq!['\x1b'] + body + seq!['m'];
    let s = e + rest;
    lemma_escape_end_of_sequence(body, rest, 1);
    assert(seq!['\x1b'] + body + seq!['m'] + rest =~= s);
    assert(escape_end(s, 1) == e.len());
    assert(s[0] == '\x1b');
    assert(s.subrange(0, e.len() as int) =~= e);
    assert(s.skip(e.len() as int) =~= rest);
    lemma_scan_shift(s, e.len() as int, row, col, fg);
    if ansi_color(e) is Some {
        lemma_scan_shift(s, e.len() as int, row, col, ansi_color(e)->0);
    }
}

/// The foreground in force at cell `(x, y)`: the cell's own colour when
/// colour is on, else the one the scan started with.
pub open spec fn cell_color(cfg: &AsciiConfig, img: &Image, x: int, y: int, fg: Rgb) -> Rgb {
    if cfg.color {
        Rgb {
            r: cell_mean(cfg, img, x, y, 0) as u8,
            g: cell_mean(cfg, img, x, y, 1) as u8,
            b: cell_mean(cfg, img, x, y, 2) as u8,
        }
    } else {
        fg
    }
}

/// The glyphs placed for the first `n` cells of row `y`.
pub open spec fn row_layout(cfg: &AsciiConfig, img: &Image, y: int, n: int, fg: Rgb) -> Seq<GlyphCell>
    decreases n,
{
    if n <= 0 {
        Seq::empty()
    } else {
        row_layout(cfg, img, y, n - 1, fg) + placed(
            cell_glyph(cfg, img, n - 1, y),
            y,
            n - 1,
            cell_color(cfg, img, n - 1, y, fg),
        )
    }
}

/// The glyphs placed for the first `m` rows.
pub open spec fn grid_layout(cfg: &AsciiConfig, img: &Image, m: int, fg: Rgb) -> Seq<GlyphCell>
    decreases m,
{
    if m <= 0 {
        Seq::empty()
    } else {
        grid_layout(cfg, img, m - 1, fg) + row_layout(cfg, img, m - 1, cfg.width as int, fg)
    }
}

/// The foreground after the first `n` cells of row `y`.
pub open spec fn row_fg(cfg: &AsciiConfig, img: &Image, y: int, n: int, fg: Rgb) -> Rgb {
    if n > 0 {
        cell_color(cfg, img, n - 1, y, fg)
    } else {
        fg
    }
}

/// The foreground after the first `m` rows.
pub open spec fn grid_fg(cfg: &AsciiConfig, img: &Image, m: int, fg: Rgb) -> Rgb {
    if m > 0 {
        row_fg(cfg, img, m - 1, cfg.width as int, fg)
    } else {
        fg
    }
}

/// Whether two foregrounds can differ only where colour is on.
spec fn same_tone(cfg: &AsciiConfig, g: Rgb, fg: Rgb) -> bool {
    !cfg.color ==> g == fg
}

proof fn lemma_row_layout_tone(cfg: &AsciiConfig, img: &Image, y: int, n: int, g: Rgb, fg: Rgb)
    requires
        same_tone(cfg, g, fg),
    ensures
        row_layout(cfg, img, y, n, g) == row_layout(cfg, img, y, n, fg),
    decreases n,
{
    if n > 0 {
        lemma_row_layout_tone(cfg, img, y, n - 1, g, fg);
    }
}

/// Whether no glyph of the ramp is a line break or an escape character.
pub open spec fn glyphs_single_line(cfg: &AsciiConfig) -> bool {
    forall|k: int|
        0 <= k < glyphs_of(cfg).len() ==> glyphs_of(cfg)[k] != '\n' && glyphs_of(cfg)[k] != '\r'
            && glyphs_of(cfg)[k] != '\x1b'
}

proof fn lemma_scan_cell(cfg: &AsciiConfig, img: &Image, x: int, y: int, rest: Seq<char>, fg: Rgb)
    requires
        cfg.wf(),
        img.wf(),
        glyphs_single_line(cfg),
        0 <= x < cfg.width,
        0 <= y < rows_of(cfg, img),
    ensures
        scan(cell_text(cfg, img, x, y) + rest, 0, y, x, fg).0 == placed(
            cell_glyph(cfg, img, x, y),
            y,
            x,
            cell_color(cfg, img, x, y, fg),
        ) + scan(rest, 0, y, x + 1, cell_color(cfg, img, x, y, fg)).0,
        scan(cell_text(cfg, img, x, y) + rest, 0, y, x, fg).1 == scan(
            rest,
            0,
            y,
            x + 1,
            cell_color(cfg, img, x, y, fg),
        ).1,
{
    let c = cell_glyph(cfg, img, x, y);
    lemma_cell_glyph_in_ramp(cfg, img, x, y);
    let k = choose|k: int| 0 <= k < glyphs_of(cfg).len() && glyphs_of(cfg)[k] == c;
    assert(c != '\n' && c != '\r' && c != '\x1b');
    if cfg.color {
        let r = cell_mean(cfg, img, x, y, 0);
        let g = cell_mean(cfg, img, x, y, 1);
        let b = cell_mean(cfg, img, x, y, 2);
        lemma_cell_mean_bounds(cfg, img, x, y, 0);
        lemma_cell_mean_bounds(cfg, img, x, y, 1);
        lemma_cell_mean_bounds(cfg, img, x, y, 2);
        let col = cell_color(cfg, img, x, y, fg);
        lemma_color_escape_round_trip(r as u8, g as u8, b as u8);
        assert(ansi_color(color_escape(r, g, b)) == Some(col));
        lemma_color_escape_strips(r, g, b);
        lemma_reset_strips();
        let e = color_escape(r, g, b);
        let re = reset_escape();
        assert(e.len() > re.len());
        assert(cell_text(cfg, img, x, y) + rest =~= e + (seq![c] + (re + rest)));
        lemma_scan_escape(color_body(r, g, b), seq![c] + (re + rest), y, x, fg);
        lemma_scan_glyph(c, re + rest, y, x, col);
        lemma_scan_escape(seq!['[', '0'], rest, y, x + 1, col);
    } else {
        assert(cell_text(cfg, img, x, y) == seq![c]);
        lemma_scan_glyph(c, rest, y, x, fg);
    }
}

proof fn lemma_scan_row(cfg: &AsciiConfig, img: &Image, y: int, n: int, rest: Seq<char>, fg: Rgb)
    requires
        cfg.wf(),
        img.wf(),
        glyphs_single_line(cfg),
        0 <= n <= cfg.width,
        0 <= y < rows_of(cfg, img),
    ensures
        scan(row_cells(cfg, img, y, n) + rest, 0, y, 0, fg).0 == row_layout(cfg, img, y, n, fg)
            + scan(rest, 0, y, n, row_fg(cfg, img, y, n, fg)).0,
        scan(row_cells(cfg, img, y, n) + rest, 0, y, 0, fg).1 == scan(
            rest,
            0,
            y,
            n,
            row_fg(cfg, img, y, n, fg),
        ).1,
    decreases n,
{
    if n <= 0 {
        assert(row_cells(cfg, img, y, n) + rest =~= rest);
        assert(row_layout(cfg, img, y, n, fg) + scan(rest, 0, y, n, fg).0 =~= scan(rest, 0, y, n, fg).0);
    } else {
        let cell = cell_text(cfg, img, n - 1, y);
        let p = row_cells(cfg, img, y, n - 1);
        assert(row_cells(cfg, img, y, n) + rest =~= p + (cell + rest));
        lemma_scan_row(cfg, img, y, n - 1, cell + rest, fg);
        let f1 = row_fg(cfg, img, y, n - 1, fg);
        lemma_scan_cell(cfg, img, n - 1, y, rest, f1);
        assert(cell_color(cfg, img, n - 1, y, f1) == cell_color(cfg, img, n - 1, y, fg));
        let a = row_layout(cfg, img, y, n - 1, fg);
        let b = placed(cell_glyph(cfg, img, n - 1, y), y, n - 1, cell_color(cfg, img, n - 1, y, fg));
        let c = scan(rest, 0, y, n, row_fg(cfg, img, y, n, fg)).0;
        assert(a + (b + c) =~= (a + b) + c);
    }
}

proof fn lemma_scan_rows(cfg: &AsciiConfig, img: &Image, m: int, rest: Seq<char>, fg: Rgb)
    requires
        cfg.wf(),
        img.wf(),
        glyphs_single_line(cfg),
        0 <= m <= rows_of(cfg, img),
    ensures
        scan(art_rows(cfg, img, m) + rest, 0, 0, 0, fg).0 == grid_layout(cfg, img, m, fg) + scan(
            rest,
            0,
            m,
            0,
            grid_fg(cfg, img, m, fg),
        ).0,
        scan(art_rows(cfg, img, m) + rest, 0, 0, 0, fg).1 == scan(
            rest,
            0,
            m,
            0,
            grid_fg(cfg, img, m, fg),
        ).1,
        same_tone(cfg, grid_fg(cfg, img, m, fg), fg),
    decreases m,
{
    if m <= 0 {
        assert(art_rows(cfg, img, m) + rest =~= rest);
        assert(grid_layout(cfg, img, m, fg) + scan(rest, 0, m, 0, fg).0 =~= scan(rest, 0, m, 0, fg).0);
    } else {
        let w = cfg.width as int;
        let row = row_cells(cfg, img, m - 1, w);
        let p = art_rows(cfg, img, m - 1);
        let tail = seq!['\n'] + rest;
        assert(art_rows(cfg, img, m) + rest =~= p + (row + tail));
        lemma_scan_rows(cfg, img, m - 1, row + tail, fg);
        let g1 = grid_fg(cfg, img, m - 1, fg);
        lemma_scan_row(cfg, img, m - 1, w, tail, g1);
        let g2 = row_fg(cfg, img, m - 1, w, g1);
        lemma_scan_newline(rest, m - 1, w, g2);
        lemma_row_layout_tone(cfg, img, m - 1, w, g1, fg);
        assert(g2 == grid_fg(cfg, img, m, fg));
        let a = grid_layout(cfg, img, m - 1, fg);
        let b = row_layout(cfg, img, m - 1, w, fg);
        let c = scan(rest, 0, m, 0, g2).0;
        assert(a + (b + c) =~= (a + b) + c);
    }
}

/// Scanning the mapping's output, as the render-back does, places exactly
/// the grid's glyphs: the glyph of each cell `(x, y)` that is not a space, at
/// column `x` of row `y`, in the cell's own colour when colour is on, else
/// in the foreground the scan started with.
pub proof fn lemma_layout_recovers_grid(cfg: &AsciiConfig, img: &Image, fg: Rgb)
    requires
        cfg.wf(),
        img.wf(),
        glyphs_single_line(cfg),
    ensures
        scan(art_of(cfg, img), 0, 0, 0, fg).0 == grid_layout(cfg, img, rows_of(cfg, img), fg),
{
    let rows = rows_of(cfg, img);
    let empty = Seq::<char>::empty();
    lemma_scan_rows(cfg, img, rows, empty, fg);
    assert(art_rows(cfg, img, rows) + empty =~= art_of(cfg, img));
    assert(grid_layout(cfg, img, rows, fg) + scan(empty, 0, rows, 0, grid_fg(cfg, img, rows, fg)).0
        =~= grid_layout(cfg, img, rows, fg));
}

} // verus!
