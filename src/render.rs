//! The text side of rendering character art back to a bitmap: where each
//! glyph stands, in which colour, and how large the canvas is.

use vstd::prelude::*;
use crate::config::AsciiConfig;
use crate::error::AsciiError;
use crate::escape::{ansi_color, color_of_range};
use crate::mapper::reset_escape;
use crate::raster::Rgb;
use crate::text::chars_of;

verus! {

/// A glyph to draw: its cell, the character, and its foreground colour.
#[derive(Debug, Clone, Copy, PartialEq, Eq, Structural)]
pub struct GlyphCell {
    pub column: usize,
    pub row: usize,
    pub glyph: char,
    pub color: Rgb,
}

/// Whether a line ends at `j`: a newline, or a carriage return right before one.
pub open spec fn line_break_at(s: Seq<char>, j: int) -> bool {
    s[j] == '\n' || (s[j] == '\r' && j + 1 < s.len() && s[j + 1] == '\n')
}

/// Where an escape sequence whose body starts at `j` ends: just after the
/// first `m`, or at the end of the line.
pub open spec fn escape_end(s: Seq<char>, j: int) -> int
    decreases s.len() - j,
{
    if j < 0 || j >= s.len() || line_break_at(s, j) {
        j
    } else if s[j] == 'm' {
        j + 1
    } else {
        escape_end(s, j + 1)
    }
}

/// The glyphs placed when scanning `s` from `i`, at row `row` and column
/// `col` with foreground `fg`, and the foreground in force at the end.
///
/// A newline starts the next row; a carriage return right before a newline
/// is dropped. An escape character opens a sequence that runs to the first
/// `m` or the end of the line: the reset sequence is dropped, a true-colour
/// sequence sets the foreground and is dropped, and any other leaves the
/// escape character to be placed as an ordinary character, the scan going on
/// right after it. A space advances the column without placing anything;
/// every other character is placed and advances the column.
pub open spec fn scan(s: Seq<char>, i: int, row: int, col: int, fg: Rgb) -> (Seq<GlyphCell>, Rgb)
    decreases s.len() - i,
{
    if i < 0 || i >= s.len() {
        (Seq::empty(), fg)
    } else if s[i] == '\n' {
        scan(s, i + 1, row + 1, 0, fg)
    } else if s[i] == '\r' && i + 1 < s.len() && s[i + 1] == '\n' {
        scan(s, i + 1, row, col, fg)
    } else if s[i] == '\x1b' && escape_end(s, i + 1) > i && escape_end(s, i + 1) <= s.len()
        && s.subrange(i, escape_end(s, i + 1)) == reset_escape() {
        scan(s, escape_end(s, i + 1), row, col, fg)
    } else if s[i] == '\x1b' && escape_end(s, i + 1) > i && escape_end(s, i + 1) <= s.len()
        && ansi_color(
        s.subrange(i, escape_end(s, i + 1)),
    ) is Some {
        scan(s, escape_end(s, i + 1), row, col, ansi_color(s.subrange(i, escape_end(s, i + 1)))->0)
    } else if s[i] == ' ' {
        scan(s, i + 1, row, col + 1, fg)
    } else {
        let rest = scan(s, i + 1, row, col + 1, fg);
        (
            seq![GlyphCell { column: col as usize, row: row as usize, glyph: s[i], color: fg }]
                + rest.0,
            rest.1,
        )
    }
}

/// The number of newlines in `s`.
pub open spec fn newline_count(s: Seq<char>) -> int
    decreases s.len(),
{
    if s.len() == 0 {
        0
    } else {
        newline_count(s.drop_last()) + if s.last() == '\n' {
            1int
        } else {
            0int
        }
    }
}

/// The number of lines of `s`, as `str::lines` counts them: a final line
/// without a newline counts too.
pub open spec fn line_count(s: Seq<char>) -> int {
    newline_count(s) + if s.len() > 0 && s.last() != '\n' {
        1int
    } else {
        0int
    }
}

proof fn lemma_escape_end_bounds(s: Seq<char>, j: int)
    requires
        0 <= j,
    ensures
        j <= escape_end(s, j),
        escape_end(s, j) <= s.len() || escape_end(s, j) == j,
    decreases s.len() - j,
{
    if j < s.len() && !line_break_at(s, j) && s[j] != 'm' {
        lemma_escape_end_bounds(s, j + 1);
    }
}

proof fn lemma_newline_count_bounds(s: Seq<char>)
    ensures
        0 <= newline_count(s) <= s.len(),
    decreases s.len(),
{
    if s.len() > 0 {
        lemma_newline_count_bounds(s.drop_last());
    }
}

/// Counts the newlines of `v`.
fn count_newlines(v: &Vec<char>) -> (n: usize)
    ensures
        n == newline_count(v@),
{
    let mut n: usize = 0;
    let mut i: usize = 0;
    while i < v.len()
        invariant
            i <= v.len(),
            n == newline_count(v@.take(i as int)),
            n <= i,
        decreases v.len() - i,
    {
        assert(v@.take(i + 1).drop_last() =~= v@.take(i as int));
        if v[i] == '\n' {
            n = n + 1;
        }
        i = i + 1;
    }
    assert(v@.take(v.len() as int) =~= v@);
    n
}

/// The number of newlines of a non-empty text, at most `u32::MAX`; 0 for an
/// empty one.
pub fn count_lines(s: &str) -> (r: u32)
    ensures
        s@.len() == 0 ==> r == 0,
        s@.len() > 0 && newline_count(s@) <= u32::MAX ==> r == newline_count(s@),
        s@.len() > 0 && newline_count(s@) > u32::MAX ==> r == u32::MAX,
{
    let v = chars_of(s);
    if v.len() == 0 {
        return 0;
    }
    let n = count_newlines(&v);
    if n as u64 > u32::MAX as u64 {
        u32::MAX
    } else {
        n as u32
    }
}

/// Whether `v[lo..hi]` is the reset sequence.
fn range_is_reset(v: &Vec<char>, lo: usize, hi: usize) -> (r: bool)
    requires
        lo <= hi <= v@.len(),
    ensures
        r == (v@.subrange(lo as int, hi as int) == reset_escape()),
{
    if hi - lo != 4 {
        assert(v@.subrange(lo as int, hi as int).len() != reset_escape().len());
        return false;
    }
    let r = v[lo] == '\x1b' && v[lo + 1] == '[' && v[lo + 2] == '0' && v[lo + 3] == 'm';
    if r {
        assert(v@.subrange(lo as int, hi as int) =~= reset_escape());
    } else {
        let ghost t = v@.subrange(lo as int, hi as int);
        assert(t[0] == v@[lo as int] && t[1] == v@[lo + 1] && t[2] == v@[lo + 2] && t[3] == v@[lo + 3]);
        assert(t != reset_escape());
    }
    r
}

proof fn lemma_push_then_append<A>(a: Seq<A>, x: A, b: Seq<A>)
    ensures
        a.push(x) + b == a + (seq![x] + b),
{
    assert(a.push(x) + b =~= a + (seq![x] + b));
}

/// Scans the characters `v` as [`scan`] describes, from the first one, with
/// foreground `fg`.
pub fn layout_chars(v: &Vec<char>, fg: Rgb) -> (r: (Vec<GlyphCell>, Rgb))
    ensures
        r.0@ == scan(v@, 0, 0, 0, fg).0,
        r.1 == scan(v@, 0, 0, 0, fg).1,
{
    let ghost s = v@;
    let mut cells: Vec<GlyphCell> = Vec::new();
    let mut i: usize = 0;
    let mut row: usize = 0;
    let mut col: usize = 0;
    let mut cur = fg;
    while i < v.len()
        invariant
            s == v@,
            i <= v.len(),
            row <= i,
            col <= i,
            scan(s, 0, 0, 0, fg).0 == cells@ + scan(s, i as int, row as int, col as int, cur).0,
            scan(s, 0, 0, 0, fg).1 == scan(s, i as int, row as int, col as int, cur).1,
        decreases v.len() - i,
    {
        let c = v[i];
        if c == '\n' {
            row = row + 1;
            col = 0;
            i = i + 1;
            continue;
        }
        if c == '\r' && i + 1 < v.len() && v[i + 1] == '\n' {
            i = i + 1;
            continue;
        }
        if c == '\x1b' {
            let mut j: usize = i + 1;
            while j < v.len() && v[j] != '\n' && !(v[j] == '\r' && j + 1 < v.len() && v[j + 1]
                == '\n') && v[j] != 'm'
                invariant
                    s == v@,
                    i < j <= v.len(),
                    escape_end(s, i + 1) == escape_end(s, j as int),
                decreases v.len() - j,
            {
                j = j + 1;
            }
            let e = if j < v.len() && v[j] == 'm' {
                j + 1
            } else {
                j
            };
            assert(e as int == escape_end(s, i + 1));
            proof {
                lemma_escape_end_bounds(s, i + 1);
            }
            if range_is_reset(v, i, e) {
                i = e;
                continue;
            }
            match color_of_range(v, i, e) {
                Some(color) => {
                    cur = color;
                    i = e;
                    continue;
                },
                None => {},
            }
        }
        if c == ' ' {
            col = col + 1;
            i = i + 1;
            continue;
        }
        let placed = GlyphCell { column: col, row, glyph: c, color: cur };
        let ghost before = cells@;
        cells.push(placed);
        proof {
            let rest = scan(s, i + 1, row as int, col + 1, cur).0;
            assert(scan(s, i as int, row as int, col as int, cur).0 == seq![placed] + rest);
            lemma_push_then_append(before, placed, rest);
        }
        col = col + 1;
        i = i + 1;
    }
    (cells, cur)
}

/// The number of lines of `s`, as `str::lines` counts them.
pub fn count_text_lines(s: &str) -> (n: usize)
    ensures
        n == line_count(s@),
{
    let v = chars_of(s);
    let k = count_newlines(&v);
    proof {
        lemma_newline_count_bounds(v@);
    }
    if v.len() > 0 && v[v.len() - 1] != '\n' {
        assert(v@.take(v@.len() - 1) =~= v@.drop_last());
        proof {
            lemma_newline_count_bounds(v@.drop_last());
        }
        k + 1
    } else {
        k
    }
}

/// The cell width for a font size: `0.6` of it, truncated.
pub open spec fn cell_width_of(font_size: int) -> int {
    font_size * 3 / 5
}

/// Lays character art out on a canvas of fixed-size cells, one per column
/// and line, tracking the foreground colour that escape sequences set.
pub struct AsciiToImageRenderer {
    pub config: AsciiConfig,
    pub font_size: u32,
    pub background_color: Rgb,
    pub foreground_color: Rgb,
}

impl AsciiToImageRenderer {
    /// A renderer with a near-black background and a light grey foreground.
    pub fn new(config: AsciiConfig, font_size: u32) -> (r: AsciiToImageRenderer)
        ensures
            r.config == config,
            r.font_size == font_size,
            r.background_color == (Rgb { r: 0x0C, g: 0x0C, b: 0x0C }),
            r.foreground_color == (Rgb { r: 0xCC, g: 0xCC, b: 0xCC }),
    {
        AsciiToImageRenderer {
            config,
            font_size,
            background_color: Rgb { r: 0x0C, g: 0x0C, b: 0x0C },
            foreground_color: Rgb { r: 0xCC, g: 0xCC, b: 0xCC },
        }
    }

    /// The same renderer with other background and foreground colours.
    pub fn with_colors(self, background: Rgb, foreground: Rgb) -> (r: AsciiToImageRenderer)
        ensures
            r.config == self.config,
            r.font_size == self.font_size,
            r.background_color == background,
            r.foreground_color == foreground,
    {
        AsciiToImageRenderer {
            config: self.config,
            font_size: self.font_size,
            background_color: background,
            foreground_color: foreground,
        }
    }

    /// The width of one character cell in pixels.
    pub fn cell_width(&self) -> (w: u32)
        ensures
            w == cell_width_of(self.font_size as int),
    {
        (self.font_size as u64 * 3 / 5) as u32
    }

    /// The canvas for `text`: one cell per configured column across, one cell
    /// per line down. Refused when a side does not fit in 32 bits.
    pub fn canvas_size(&self, text: &str) -> (r: Result<(u32, u32), AsciiError>)
        ensures
            ({
                let w = self.config.width * cell_width_of(self.font_size as int);
                let h = line_count(text@) * self.font_size;
                &&& (w <= u32::MAX && h <= u32::MAX) ==> r == Ok::<(u32, u32), AsciiError>(
                    (w as u32, h as u32),
                )
                &&& !(w <= u32::MAX && h <= u32::MAX) ==> r == Err::<(u32, u32), AsciiError>(
                    AsciiError::EncodeFailure,
                )
            }),
    {
        let cw = self.cell_width();
        let lines = count_text_lines(text);
        assert(self.config.width as int * cw as int <= u64::MAX) by (nonlinear_arith)
            requires
                self.config.width <= u32::MAX,
                cw <= u32::MAX,
        ;
        let w = self.config.width as u64 * cw as u64;
        if w > u32::MAX as u64 {
            return Err(AsciiError::EncodeFailure);
        }
        if lines as u64 > u32::MAX as u64 {
            if self.font_size == 0 {
                assert(line_count(text@) * self.font_size == 0) by (nonlinear_arith)
                    requires
                        self.font_size == 0,
                ;
                return Ok((w as u32, 0));
            }
            assert(line_count(text@) * self.font_size >= line_count(text@)) by (nonlinear_arith)
                requires
                    self.font_size >= 1,
                    line_count(text@) >= 0,
            ;
            return Err(AsciiError::EncodeFailure);
        }
        assert(lines as int * self.font_size as int <= u64::MAX) by (nonlinear_arith)
            requires
                lines <= u32::MAX,
                self.font_size <= u32::MAX,
        ;
        let h = lines as u64 * self.font_size as u64;
        if h > u32::MAX as u64 {
            return Err(AsciiError::EncodeFailure);
        }
        Ok((w as u32, h as u32))
    }

    /// The glyphs of `text` to draw, placed as [`scan`] describes starting
    /// from this renderer's foreground; the foreground that the text leaves
    /// in force becomes the renderer's.
    pub fn layout(&mut self, text: &str) -> (cells: Vec<GlyphCell>)
        ensures
            cells@ == scan(text@, 0, 0, 0, old(self).foreground_color).0,
            final(self).foreground_color == scan(text@, 0, 0, 0, old(self).foreground_color).1,
            final(self).config == old(self).config,
            final(self).font_size == old(self).font_size,
            final(self).background_color == old(self).background_color,
    {
        let v = chars_of(text);
        let (cells, fg) = layout_chars(&v, self.foreground_color);
        self.foreground_color = fg;
        cells
    }
}

} // verus!
