//! The mapping from pixel blocks to glyphs.

use vstd::prelude::*;
use vstd::arithmetic::div_mod::{lemma_fundamental_div_mod, lemma_mod_pos_bound};
use crate::config::{AsciiConfig, glyphs_of};
use crate::error::AsciiError;
use crate::raster::{Image, Rgb, lemma_pixel_index};
use crate::text::{decimal, push_char, push_decimal};

verus! {

/// Perceptual luminance of a colour: `0.299 R + 0.587 G + 0.114 B`, truncated.
pub open spec fn luminance(r: int, g: int, b: int) -> int {
    (299 * r + 587 * g + 114 * b) / 1000
}

/// The ramp position for a corrected luminance: `l * n / 255`, clamped to the ramp.
pub open spec fn glyph_index(l: int, n: int) -> int {
    if l * n / 255 < n {
        l * n / 255
    } else {
        n - 1
    }
}

/// Rows derived from the aspect ratio: `width * source_height / source_width`, rounded.
pub open spec fn derived_rows(width: int, src_w: int, src_h: int) -> int {
    (2 * width * src_h + src_w) / (2 * src_w)
}

/// The rows of the output grid; none when there are no columns.
pub open spec fn rows_of(cfg: &AsciiConfig, img: &Image) -> int {
    if cfg.width == 0 {
        0
    } else if cfg.height == 0 {
        derived_rows(cfg.width as int, img.width as int, img.height as int)
    } else {
        cfg.height as int
    }
}

/// Where the block of output cell `i` starts: `floor(i * src / dst)`.
pub open spec fn block_origin(i: int, src: int, dst: int) -> int {
    i * src / dst
}

/// How many source pixels a block spans: `floor(src / dst)`, at least one.
pub open spec fn block_extent(src: int, dst: int) -> int {
    if src / dst == 0 {
        1
    } else {
        src / dst
    }
}

/// One channel of a pixel: 0 red, 1 green, 2 blue.
pub open spec fn channel(p: Rgb, ch: int) -> int {
    if ch == 0 {
        p.r as int
    } else if ch == 1 {
        p.g as int
    } else {
        p.b as int
    }
}

/// The sum of one channel over `n` pixels of row `y`, from column `x0`.
pub open spec fn row_sum(img: &Image, x0: int, y: int, n: int, ch: int) -> int
    decreases n,
{
    if n <= 0 {
        0
    } else {
        row_sum(img, x0, y, n - 1, ch) + channel(img.pixel(x0 + n - 1, y), ch)
    }
}

/// The sum of one channel over the `w` by `h` block whose corner is `(x0, y0)`.
pub open spec fn block_sum(img: &Image, x0: int, y0: int, w: int, h: int, ch: int) -> int
    decreases h,
{
    if h <= 0 {
        0
    } else {
        block_sum(img, x0, y0, w, h - 1, ch) + row_sum(img, x0, y0 + h - 1, w, ch)
    }
}

/// The mean of one channel over the block of output cell `(x, y)`, truncated.
pub open spec fn cell_mean(cfg: &AsciiConfig, img: &Image, x: int, y: int, ch: int) -> int {
    let rows = rows_of(cfg, img);
    let ew = block_extent(img.width as int, cfg.width as int);
    let eh = block_extent(img.height as int, rows);
    block_sum(
        img,
        block_origin(x, img.width as int, cfg.width as int),
        block_origin(y, img.height as int, rows),
        ew,
        eh,
        ch,
    ) / (ew * eh)
}

/// The glyph of output cell `(x, y)`.
pub open spec fn cell_glyph(cfg: &AsciiConfig, img: &Image, x: int, y: int) -> char {
    let l = luminance(
        cell_mean(cfg, img, x, y, 0),
        cell_mean(cfg, img, x, y, 1),
        cell_mean(cfg, img, x, y, 2),
    );
    let glyphs = glyphs_of(cfg);
    glyphs[glyph_index(cfg.gamma.level(l), glyphs.len() as int)]
}

/// The escape sequence that sets a true-colour foreground.
pub open spec fn color_escape(r: int, g: int, b: int) -> Seq<char> {
    seq!['\x1b', '[', '3', '8', ';', '2', ';'] + decimal(r as nat) + seq![';'] + decimal(
        g as nat,
    ) + seq![';'] + decimal(b as nat) + seq!['m']
}

/// The escape sequence that resets the colour.
pub open spec fn reset_escape() -> Seq<char> {
    seq!['\x1b', '[', '0', 'm']
}

/// The text of output cell `(x, y)`: its glyph, wrapped in its colour when colour is on.
pub open spec fn cell_text(cfg: &AsciiConfig, img: &Image, x: int, y: int) -> Seq<char> {
    let c = cell_glyph(cfg, img, x, y);
    if cfg.color {
        color_escape(cell_mean(cfg, img, x, y, 0), cell_mean(cfg, img, x, y, 1), cell_mean(cfg, img, x, y, 2))
            + seq![c] + reset_escape()
    } else {
        seq![c]
    }
}

/// The first `n` cells of row `y`.
pub open spec fn row_cells(cfg: &AsciiConfig, img: &Image, y: int, n: int) -> Seq<char>
    decreases n,
{
    if n <= 0 {
        Seq::empty()
    } else {
        row_cells(cfg, img, y, n - 1) + cell_text(cfg, img, n - 1, y)
    }
}

/// The first `m` rows of the output, each ended by a newline.
pub open spec fn art_rows(cfg: &AsciiConfig, img: &Image, m: int) -> Seq<char>
    decreases m,
{
    if m <= 0 {
        Seq::empty()
    } else {
        art_rows(cfg, img, m - 1) + row_cells(cfg, img, m - 1, cfg.width as int).push('\n')
    }
}

/// The whole character grid for an image.
pub open spec fn art_of(cfg: &AsciiConfig, img: &Image) -> Seq<char> {
    art_rows(cfg, img, rows_of(cfg, img))
}

/// A block of cell `i` lies inside the source: it ends at or before `src`.
pub proof fn lemma_block_fits(i: int, src: int, dst: int)
    requires
        0 <= i < dst,
        0 < src,
    ensures
        0 <= block_origin(i, src, dst),
        block_origin(i, src, dst) + block_extent(src, dst) <= src,
        1 <= block_extent(src, dst) <= src,
{
    let a = i * src;
    let q1 = a / dst;
    let q2 = src / dst;
    assert(0 <= a) by (nonlinear_arith)
        requires
            a == i * src,
            0 <= i,
            0 < src,
    ;
    lemma_fundamental_div_mod(a, dst);
    lemma_fundamental_div_mod(src, dst);
    lemma_mod_pos_bound(a, dst);
    lemma_mod_pos_bound(src, dst);
    assert(0 <= q1) by (nonlinear_arith)
        requires
            a == dst * q1 + a % dst,
            0 <= a,
            0 <= a % dst < dst,
            0 < dst,
    ;
    assert(0 <= q2) by (nonlinear_arith)
        requires
            0 < src,
            src == dst * q2 + src % dst,
            0 <= src % dst < dst,
            0 < dst,
    ;
    assert(a + src <= dst * src) by (nonlinear_arith)
        requires
            a == i * src,
            i + 1 <= dst,
            0 < src,
    ;
    if q2 == 0 {
        assert(q1 < src) by (nonlinear_arith)
            requires
                a == dst * q1 + a % dst,
                0 <= a % dst,
                a + src <= dst * src,
                0 < src,
                0 < dst,
        ;
    } else {
        assert(q1 + q2 <= src) by (nonlinear_arith)
            requires
                a == dst * q1 + a % dst,
                src == dst * q2 + src % dst,
                0 <= a % dst,
                0 <= src % dst,
                a + src <= dst * src,
                0 < dst,
        ;
    }
}

/// A row sum lies between 0 and 255 per pixel.
pub proof fn lemma_row_sum_bounds(img: &Image, x0: int, y: int, n: int, ch: int)
    requires
        0 <= n,
    ensures
        0 <= row_sum(img, x0, y, n, ch) <= 255 * n,
    decreases n,
{
    if n > 0 {
        lemma_row_sum_bounds(img, x0, y, n - 1, ch);
    }
}

/// A block sum lies between 0 and 255 per pixel.
pub proof fn lemma_block_sum_bounds(img: &Image, x0: int, y0: int, w: int, h: int, ch: int)
    requires
        0 <= w,
        0 <= h,
    ensures
        0 <= block_sum(img, x0, y0, w, h, ch) <= 255 * w * h,
    decreases h,
{
    if h > 0 {
        lemma_block_sum_bounds(img, x0, y0, w, h - 1, ch);
        lemma_row_sum_bounds(img, x0, y0 + h - 1, w, ch);
        assert(255 * w * (h - 1) + 255 * w == 255 * w * h) by (nonlinear_arith);
    }
}

/// The mean over a non-empty block is a channel value.
proof fn lemma_mean_bounds(img: &Image, x0: int, y0: int, w: int, h: int, ch: int)
    requires
        0 < w,
        0 < h,
    ensures
        0 <= block_sum(img, x0, y0, w, h, ch) / (w * h) <= 255,
{
    lemma_block_sum_bounds(img, x0, y0, w, h, ch);
    let s = block_sum(img, x0, y0, w, h, ch);
    assert(0 < w * h) by (nonlinear_arith)
        requires
            0 < w,
            0 < h,
    ;
    assert(s / (w * h) <= 255) by (nonlinear_arith)
        requires
            0 <= s <= 255 * w * h,
            0 < w * h,
    ;
    assert(0 <= s / (w * h)) by (nonlinear_arith)
        requires
            0 <= s,
            0 < w * h,
    ;
}

/// Luminance of an averaged colour.
pub fn rgb_to_luminance(r: u32, g: u32, b: u32) -> (l: u32)
    requires
        r < 256,
        g < 256,
        b < 256,
    ensures
        l == luminance(r as int, g as int, b as int),
        l < 256,
{
    (299 * r + 587 * g + 114 * b) / 1000
}

/// The ramp position of corrected luminance `l` in a ramp of `n` glyphs;
/// any luminance above 255 lands on the last glyph.
pub fn luminance_to_index(l: u32, n: usize) -> (i: usize)
    requires
        0 < n,
    ensures
        i == glyph_index(l as int, n as int),
        i < n,
{
    assert(l as int * n as int <= u32::MAX * usize::MAX) by (nonlinear_arith)
        requires
            l <= u32::MAX,
            n <= usize::MAX,
    ;
    let k = l as u128 * n as u128 / 255;
    if k < n as u128 {
        k as usize
    } else {
        n - 1
    }
}

/// Per-channel means of the `w` by `h` block whose corner is `(x0, y0)`.
fn sample_block(img: &Image, x0: u32, y0: u32, w: u32, h: u32) -> (m: Rgb)
    requires
        img.wf(),
        0 < w,
        0 < h,
        x0 as int + w as int <= img.width,
        y0 as int + h as int <= img.height,
    ensures
        m.r as int == block_sum(img, x0 as int, y0 as int, w as int, h as int, 0) / (w as int * h as int),
        m.g as int == block_sum(img, x0 as int, y0 as int, w as int, h as int, 1) / (w as int * h as int),
        m.b as int == block_sum(img, x0 as int, y0 as int, w as int, h as int, 2) / (w as int * h as int),
{
    let mut tr: u128 = 0;
    let mut tg: u128 = 0;
    let mut tb: u128 = 0;
    let mut yy: u32 = 0;
    while yy < h
        invariant
            img.wf(),
            0 < w,
            x0 as int + w as int <= img.width,
            y0 as int + h as int <= img.height,
            yy <= h,
            tr == block_sum(img, x0 as int, y0 as int, w as int, yy as int, 0),
            tg == block_sum(img, x0 as int, y0 as int, w as int, yy as int, 1),
            tb == block_sum(img, x0 as int, y0 as int, w as int, yy as int, 2),
        decreases h - yy,
    {
        let mut xx: u32 = 0;
        while xx < w
            invariant
                img.wf(),
                x0 as int + w as int <= img.width,
                y0 as int + h as int <= img.height,
                yy < h,
                xx <= w,
                tr == block_sum(img, x0 as int, y0 as int, w as int, yy as int, 0) + row_sum(
                    img, x0 as int, y0 + yy, xx as int, 0),
                tg == block_sum(img, x0 as int, y0 as int, w as int, yy as int, 1) + row_sum(
                    img, x0 as int, y0 + yy, xx as int, 1),
                tb == block_sum(img, x0 as int, y0 as int, w as int, yy as int, 2) + row_sum(
                    img, x0 as int, y0 + yy, xx as int, 2),
            decreases w - xx,
        {
            let p = img.get_pixel(x0 + xx, y0 + yy);
            proof {
                lemma_block_sum_bounds(img, x0 as int, y0 as int, w as int, yy as int, 0);
                lemma_block_sum_bounds(img, x0 as int, y0 as int, w as int, yy as int, 1);
                lemma_block_sum_bounds(img, x0 as int, y0 as int, w as int, yy as int, 2);
                lemma_row_sum_bounds(img, x0 as int, y0 + yy, xx as int, 0);
                lemma_row_sum_bounds(img, x0 as int, y0 + yy, xx as int, 1);
                lemma_row_sum_bounds(img, x0 as int, y0 + yy, xx as int, 2);
                assert(255 * w * yy + 255 * xx + 255 <= 0x1_0000_0000_0000_0000_0000) by (
                nonlinear_arith)
                    requires
                        w <= u32::MAX,
                        yy <= u32::MAX,
                        xx <= u32::MAX,
                ;
            }
            tr = tr + p.r as u128;
            tg = tg + p.g as u128;
            tb = tb + p.b as u128;
            xx = xx + 1;
        }
        yy = yy + 1;
    }
    assert(0 < w as int * h as int <= u64::MAX) by (nonlinear_arith)
        requires
            0 < w <= u32::MAX,
            0 < h <= u32::MAX,
    ;
    let n = w as u128 * h as u128;
    proof {
        lemma_mean_bounds(img, x0 as int, y0 as int, w as int, h as int, 0);
        lemma_mean_bounds(img, x0 as int, y0 as int, w as int, h as int, 1);
        lemma_mean_bounds(img, x0 as int, y0 as int, w as int, h as int, 2);
    }
    Rgb { r: (tr / n) as u8, g: (tg / n) as u8, b: (tb / n) as u8 }
}

/// Converts images into character grids under one set of settings.
pub struct AsciiMapper {
    pub config: AsciiConfig,
}

impl AsciiMapper {
    pub fn new(config: AsciiConfig) -> (r: AsciiMapper)
        ensures
            r.config == config,
    {
        AsciiMapper { config }
    }

    /// The character grid for `img` under this mapper's settings; see
    /// [`convert_image`].
    pub fn image_to_ascii(&self, img: &Image) -> (r: Result<String, AsciiError>)
        requires
            self.config.wf(),
            img.wf(),
        ensures
            rows_of(&self.config, img) <= u32::MAX ==> (r matches Ok(s) && s@ == art_of(
                &self.config,
                img,
            )),
            rows_of(&self.config, img) > u32::MAX ==> r == Err::<String, AsciiError>(
                AsciiError::InvalidConfiguration,
            ),
    {
        convert_image(&self.config, img)
    }

    /// The glyph for a corrected luminance: position `l * n / 255` of the
    /// active ramp of `n` glyphs, clamped to its last, for any luminance.
    pub fn luminance_to_ascii(&self, luminance: u32) -> (c: char)
        requires
            self.config.wf(),
        ensures
            c == glyphs_of(&self.config)[glyph_index(
                luminance as int,
                glyphs_of(&self.config).len() as int,
            )],
    {
        let glyphs = self.config.active_glyphs();
        let i = luminance_to_index(luminance, glyphs.len());
        glyphs[i]
    }
}

/// The rows of the output grid for `img`.
fn dynamic_height(cfg: &AsciiConfig, img: &Image) -> (h: u64)
    requires
        img.wf(),
    ensures
        h == rows_of(cfg, img),
{
    let w = cfg.width;
    if w == 0 {
        return 0;
    }
    if cfg.height != 0 {
        return cfg.height as u64;
    }
    let iw = img.width as u128;
    let ih = img.height as u128;
    proof {
        assert(2 * w * ih + iw <= 0x1_0000_0000_0000_0000_0000) by (nonlinear_arith)
            requires
                w <= u32::MAX,
                ih <= u32::MAX,
                iw <= u32::MAX,
        ;
        let d = (2 * w * ih + iw) / (2 * iw);
        assert(d <= w * ih + 1) by (nonlinear_arith)
            requires
                d == (2 * w * ih + iw) / (2 * iw),
                0 < iw,
                0 <= w,
                0 <= ih,
        ;
        assert(w * ih + 1 <= u64::MAX) by (nonlinear_arith)
            requires
                w <= u32::MAX,
                ih <= u32::MAX,
        ;
    }
    ((2 * w as u128 * ih + iw) / (2 * iw)) as u64
}

/// Appends the text of output cell `(x, y)`.
fn push_cell(
    cfg: &AsciiConfig,
    out: &mut String,
    img: &Image,
    glyphs: &Vec<char>,
    rows: u32,
    x: u32,
    y: u32,
)
    requires
        cfg.wf(),
        img.wf(),
        glyphs@ == glyphs_of(cfg),
        glyphs@.len() > 0,
        rows == rows_of(cfg, img),
        x < cfg.width,
        y < rows,
    ensures
        final(out)@ == old(out)@ + cell_text(cfg, img, x as int, y as int),
{
    let cfg = cfg;
    let w = cfg.width;
    let iw = img.width;
    let ih = img.height;
    proof {
        lemma_block_fits(x as int, iw as int, w as int);
        lemma_block_fits(y as int, ih as int, rows as int);
        assert(x as int * iw as int <= u64::MAX) by (nonlinear_arith)
            requires
                x <= u32::MAX,
                iw <= u32::MAX,
        ;
        assert(y as int * ih as int <= u64::MAX) by (nonlinear_arith)
            requires
                y <= u32::MAX,
                ih <= u32::MAX,
        ;
    }
    let x0 = (x as u64 * iw as u64 / w as u64) as u32;
    let y0 = (y as u64 * ih as u64 / rows as u64) as u32;
    let ew = if iw / w == 0 {
        1
    } else {
        iw / w
    };
    let eh = if ih / rows == 0 {
        1
    } else {
        ih / rows
    };
    let m = sample_block(img, x0, y0, ew, eh);
    let l = rgb_to_luminance(m.r as u32, m.g as u32, m.b as u32);
    let corrected = cfg.gamma.apply(l);
    let idx = luminance_to_index(corrected, glyphs.len());
    let c = glyphs[idx];
    assert(c == cell_glyph(cfg, img, x as int, y as int));
    let ghost start = out@;
    if cfg.color {
        push_char(out, '\x1b');
        push_char(out, '[');
        push_char(out, '3');
        push_char(out, '8');
        push_char(out, ';');
        push_char(out, '2');
        push_char(out, ';');
        push_decimal(out, m.r as u64);
        push_char(out, ';');
        push_decimal(out, m.g as u64);
        push_char(out, ';');
        push_decimal(out, m.b as u64);
        push_char(out, 'm');
        push_char(out, c);
        push_char(out, '\x1b');
        push_char(out, '[');
        push_char(out, '0');
        push_char(out, 'm');
        assert(out@ =~= start + cell_text(cfg, img, x as int, y as int));
    } else {
        push_char(out, c);
        assert(out@ =~= start + cell_text(cfg, img, x as int, y as int));
    }
}

/// The character grid for `img`: one line per output row, one glyph per
/// column, each line ended by a newline. Refused when the derived row count
/// does not fit in 32 bits.
pub fn convert_image(cfg: &AsciiConfig, img: &Image) -> (r: Result<String, AsciiError>)
    requires
        cfg.wf(),
        img.wf(),
    ensures
        rows_of(cfg, img) <= u32::MAX ==> (r matches Ok(s) && s@ == art_of(
            cfg,
            img,
        )),
        rows_of(cfg, img) > u32::MAX ==> r == Err::<String, AsciiError>(
            AsciiError::InvalidConfiguration,
        ),
{
    let h64 = dynamic_height(cfg, img);
    if h64 > u32::MAX as u64 {
        return Err(AsciiError::InvalidConfiguration);
    }
    let rows = h64 as u32;
    let glyphs = cfg.active_glyphs();
    let w = cfg.width;
    let mut out = String::new();
    let mut y: u32 = 0;
    while y < rows
        invariant
            cfg.wf(),
            img.wf(),
            glyphs@ == glyphs_of(cfg),
            glyphs@.len() > 0,
            rows == rows_of(cfg, img),
            w == cfg.width,
            y <= rows,
            out@ == art_rows(cfg, img, y as int),
        decreases rows - y,
    {
        let mut x: u32 = 0;
        while x < w
            invariant
                cfg.wf(),
                img.wf(),
                glyphs@ == glyphs_of(cfg),
                glyphs@.len() > 0,
                rows == rows_of(cfg, img),
                w == cfg.width,
                y < rows,
                x <= w,
                out@ == art_rows(cfg, img, y as int) + row_cells(
                    cfg,
                    img,
                    y as int,
                    x as int,
                ),
            decreases w - x,
        {
            push_cell(cfg, &mut out, img, &glyphs, rows, x, y);
            assert(out@ =~= art_rows(cfg, img, y as int) + row_cells(
                cfg,
                img,
                y as int,
                x + 1,
            ));
            x = x + 1;
        }
        push_char(&mut out, '\n');
        assert(out@ =~= art_rows(cfg, img, y + 1));
        y = y + 1;
    }
    Ok(out)
}

/// The glyph that a pixel of colour `c` maps to on its own.
pub open spec fn glyph_of_color(cfg: &AsciiConfig, c: Rgb) -> char {
    let glyphs = glyphs_of(cfg);
    glyphs[glyph_index(
        cfg.gamma.level(luminance(c.r as int, c.g as int, c.b as int)),
        glyphs.len() as int,
    )]
}

/// Over a run of pixels of one colour, a row sum is that channel times the run.
proof fn lemma_row_sum_solid(img: &Image, c: Rgb, x0: int, y: int, n: int, ch: int)
    requires
        img.wf(),
        forall|i: int| 0 <= i < img.pixels@.len() ==> img.pixels@[i] == c,
        0 <= x0,
        0 <= n,
        x0 + n <= img.width,
        0 <= y < img.height,
    ensures
        row_sum(img, x0, y, n, ch) == n * channel(c, ch),
    decreases n,
{
    if n > 0 {
        lemma_row_sum_solid(img, c, x0, y, n - 1, ch);
        lemma_pixel_index(img.width as int, img.height as int, x0 + n - 1, y);
        assert(img.pixel(x0 + n - 1, y) == c);
        assert((n - 1) * channel(c, ch) + channel(c, ch) == n * channel(c, ch)) by (
        nonlinear_arith);
    } else {
        assert(n * channel(c, ch) == 0) by (nonlinear_arith)
            requires
                n == 0,
        ;
    }
}

/// Over a block of one colour, a block sum is that channel times the block's area.
proof fn lemma_block_sum_solid(img: &Image, c: Rgb, x0: int, y0: int, w: int, h: int, ch: int)
    requires
        img.wf(),
        forall|i: int| 0 <= i < img.pixels@.len() ==> img.pixels@[i] == c,
        0 <= x0,
        0 <= y0,
        0 <= w,
        0 <= h,
        x0 + w <= img.width,
        y0 + h <= img.height,
    ensures
        block_sum(img, x0, y0, w, h, ch) == (w * h) * channel(c, ch),
    decreases h,
{
    if h > 0 {
        lemma_block_sum_solid(img, c, x0, y0, w, h - 1, ch);
        lemma_row_sum_solid(img, c, x0, y0 + h - 1, w, ch);
        assert((w * (h - 1)) * channel(c, ch) + w * channel(c, ch) == (w * h) * channel(c, ch))
            by (nonlinear_arith);
    } else {
        assert((w * h) * channel(c, ch) == 0) by (nonlinear_arith)
            requires
                h == 0,
        ;
    }
}

/// In a source of one colour, every output cell carries that colour's glyph.
pub proof fn lemma_solid_image_single_glyph(cfg: &AsciiConfig, img: &Image, c: Rgb, x: int, y: int)
    requires
        cfg.wf(),
        img.wf(),
        forall|i: int| 0 <= i < img.pixels@.len() ==> img.pixels@[i] == c,
        0 <= x < cfg.width,
        0 <= y < rows_of(cfg, img),
    ensures
        cell_mean(cfg, img, x, y, 0) == c.r,
        cell_mean(cfg, img, x, y, 1) == c.g,
        cell_mean(cfg, img, x, y, 2) == c.b,
        cell_glyph(cfg, img, x, y) == glyph_of_color(cfg, c),
{
    let rows = rows_of(cfg, img);
    lemma_block_fits(x, img.width as int, cfg.width as int);
    lemma_block_fits(y, img.height as int, rows);
    let ew = block_extent(img.width as int, cfg.width as int);
    let eh = block_extent(img.height as int, rows);
    let x0 = block_origin(x, img.width as int, cfg.width as int);
    let y0 = block_origin(y, img.height as int, rows);
    assert(0 < ew * eh) by (nonlinear_arith)
        requires
            0 < ew,
            0 < eh,
    ;
    assert forall|ch: int| 0 <= ch < 3 implies #[trigger] cell_mean(cfg, img, x, y, ch) == channel(
        c,
        ch,
    ) by {
        lemma_block_sum_solid(img, c, x0, y0, ew, eh, ch);
        let v = channel(c, ch);
        let a = ew * eh;
        assert((a * v) / a == v) by (nonlinear_arith)
            requires
                0 < a,
        ;
    }
    assert(cell_mean(cfg, img, x, y, 0) == channel(c, 0));
    assert(cell_mean(cfg, img, x, y, 1) == channel(c, 1));
    assert(cell_mean(cfg, img, x, y, 2) == channel(c, 2));
}

/// The glyph of any cell comes from the ramp.
pub proof fn lemma_cell_glyph_in_ramp(cfg: &AsciiConfig, img: &Image, x: int, y: int)
    requires
        cfg.wf(),
    ensures
        exists|k: int| 0 <= k < glyphs_of(cfg).len() && glyphs_of(cfg)[k] == cell_glyph(cfg, img, x, y),
{
    crate::config::lemma_glyphs_nonempty_and_invert_twice(cfg);
    let glyphs = glyphs_of(cfg);
    let l = luminance(
        cell_mean(cfg, img, x, y, 0),
        cell_mean(cfg, img, x, y, 1),
        cell_mean(cfg, img, x, y, 2),
    );
    let lv = cfg.gamma.level(l);
    let n = glyphs.len() as int;
    assert(0 <= lv * n / 255) by (nonlinear_arith)
        requires
            0 <= lv,
            0 < n,
    ;
    let k = glyph_index(lv, n);
    assert(0 <= k < n);
    assert(glyphs[k] == cell_glyph(cfg, img, x, y));
}

/// The mean of any channel over a cell of the grid is a channel value.
pub proof fn lemma_cell_mean_bounds(cfg: &AsciiConfig, img: &Image, x: int, y: int, ch: int)
    requires
        img.wf(),
        0 <= x < cfg.width,
        0 <= y < rows_of(cfg, img),
    ensures
        0 <= cell_mean(cfg, img, x, y, ch) <= 255,
{
    let rows = rows_of(cfg, img);
    lemma_block_fits(x, img.width as int, cfg.width as int);
    lemma_block_fits(y, img.height as int, rows);
    lemma_mean_bounds(
        img,
        block_origin(x, img.width as int, cfg.width as int),
        block_origin(y, img.height as int, rows),
        block_extent(img.width as int, cfg.width as int),
        block_extent(img.height as int, rows),
        ch,
    );
}

} // verus!
