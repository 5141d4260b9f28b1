//! The shape of the output grid once colour escape sequences are set aside.

use vstd::prelude::*;
use crate::config::{AsciiConfig, glyphs_of};
use crate::escape::{is_digit, lemma_decimal_digits};
use crate::mapper::{
    art_of, art_rows, cell_glyph, cell_mean, cell_text, color_escape, lemma_cell_glyph_in_ramp,
    reset_escape, row_cells, rows_of,
};
use crate::raster::Image;
use crate::text::decimal;

verus! {

/// What follows the first `m` of `s`; nothing when there is none.
pub open spec fn escape_tail(s: Seq<char>) -> Seq<char>
    decreases s.len(),
{
    if s.len() == 0 {
        s
    } else if s[0] == 'm' {
        s.drop_first()
    } else {
        escape_tail(s.drop_first())
    }
}

/// `s` without its escape sequences: each escape character together with
/// everything up to and including the next `m` is left out.
pub open spec fn strip_escapes(s: Seq<char>) -> Seq<char>
    decreases s.len(),
{
    if s.len() == 0 {
        s
    } else if s[0] == '\x1b' && escape_tail(s.drop_first()).len() < s.len() {
        strip_escapes(escape_tail(s.drop_first()))
    } else {
        seq![s[0]] + strip_escapes(s.drop_first())
    }
}

/// Whether every escape character in `s` is followed later in `s` by an `m`.
pub open spec fn closed(s: Seq<char>) -> bool {
    forall|i: int|
        0 <= i < s.len() && s[i] == '\x1b' ==> exists|j: int| i < j < s.len() && s[j] == 'm'
}

/// Whether `s` holds no escape character, no `m` and no line break.
pub open spec fn inert(s: Seq<char>) -> bool {
    forall|i: int|
        0 <= i < s.len() ==> s[i] != '\x1b' && s[i] != 'm' && s[i] != '\n' && s[i] != '\r'
}

proof fn lemma_tail_is_suffix(s: Seq<char>)
    ensures
        escape_tail(s).len() <= s.len(),
        escape_tail(s) == s.subrange(s.len() - escape_tail(s).len(), s.len() as int),
    decreases s.len(),
{
    if s.len() > 0 {
        if s[0] == 'm' {
            assert(s.drop_first() =~= s.subrange(1, s.len() as int));
        } else {
            lemma_tail_is_suffix(s.drop_first());
            let t = escape_tail(s.drop_first());
            assert(s.drop_first().subrange(s.len() - 1 - t.len(), s.len() - 1) =~= s.subrange(
                s.len() - t.len(),
                s.len() as int,
            ));
        }
    }
}

proof fn lemma_tail_concat(a: Seq<char>, b: Seq<char>)
    requires
        exists|j: int| 0 <= j < a.len() && a[j] == 'm',
    ensures
        escape_tail(a + b) == escape_tail(a) + b,
    decreases a.len(),
{
    assert((a + b).drop_first() =~= a.drop_first() + b);
    if a[0] != 'm' {
        let j = choose|j: int| 0 <= j < a.len() && a[j] == 'm';
        assert(a.drop_first()[j - 1] == 'm');
        lemma_tail_concat(a.drop_first(), b);
    }
}

proof fn lemma_closed_suffix(s: Seq<char>, k: int)
    requires
        closed(s),
        0 <= k <= s.len(),
    ensures
        closed(s.subrange(k, s.len() as int)),
{
    let t = s.subrange(k, s.len() as int);
    assert forall|i: int| 0 <= i < t.len() && t[i] == '\x1b' implies exists|j: int|
        i < j < t.len() && t[j] == 'm' by {
        assert(s[k + i] == '\x1b');
        let j = choose|j: int| k + i < j < s.len() && s[j] == 'm';
        assert(t[j - k] == 'm');
    }
}

/// Stripping a closed prefix does not reach into what follows it.
pub proof fn lemma_strip_concat(a: Seq<char>, b: Seq<char>)
    requires
        closed(a),
    ensures
        strip_escapes(a + b) == strip_escapes(a) + strip_escapes(b),
    decreases a.len(),
{
    if a.len() == 0 {
        assert(a + b =~= b);
        assert(strip_escapes(a) + strip_escapes(b) =~= strip_escapes(b));
    } else {
        let ab = a + b;
        assert(ab[0] == a[0]);
        assert(ab.drop_first() =~= a.drop_first() + b);
        lemma_closed_suffix(a, 1);
        assert(a.drop_first() =~= a.subrange(1, a.len() as int));
        if a[0] == '\x1b' {
            let j = choose|j: int| 0 < j < a.len() && a[j] == 'm';
            assert(a.drop_first()[j - 1] == 'm');
            lemma_tail_concat(a.drop_first(), b);
            lemma_tail_is_suffix(a.drop_first());
            let t = escape_tail(a.drop_first());
            assert(t.len() < a.len());
            assert(escape_tail(ab.drop_first()) == t + b);
            assert(escape_tail(ab.drop_first()).len() < ab.len());
            lemma_closed_suffix(a.drop_first(), a.len() - 1 - t.len());
            lemma_strip_concat(t, b);
        } else {
            lemma_strip_concat(a.drop_first(), b);
            assert(seq![a[0]] + (strip_escapes(a.drop_first()) + strip_escapes(b)) =~= (seq![a[0]]
                + strip_escapes(a.drop_first())) + strip_escapes(b));
        }
    }
}

/// Joining closed pieces gives a closed whole.
pub proof fn lemma_closed_concat(a: Seq<char>, b: Seq<char>)
    requires
        closed(a),
        closed(b),
    ensures
        closed(a + b),
{
    let s = a + b;
    assert forall|i: int| 0 <= i < s.len() && s[i] == '\x1b' implies exists|j: int|
        i < j < s.len() && s[j] == 'm' by {
        if i < a.len() {
            assert(a[i] == '\x1b');
            let j = choose|j: int| i < j < a.len() && a[j] == 'm';
            assert(s[j] == 'm');
        } else {
            assert(b[i - a.len()] == '\x1b');
            let j = choose|j: int| i - a.len() < j < b.len() && b[j] == 'm';
            assert(s[j + a.len()] == 'm');
        }
    }
}

proof fn lemma_tail_of_inert(body: Seq<char>)
    requires
        inert(body),
    ensures
        escape_tail(body + seq!['m']) == Seq::<char>::empty(),
    decreases body.len(),
{
    let s = body + seq!['m'];
    if body.len() == 0 {
        assert(s[0] == 'm');
        assert(s.drop_first() =~= Seq::<char>::empty());
    } else {
        assert(s[0] == body[0]);
        assert(s.drop_first() =~= body.drop_first() + seq!['m']);
        lemma_tail_of_inert(body.drop_first());
    }
}

/// An escape sequence around an inert body is closed and strips to nothing.
pub proof fn lemma_escape_strips(body: Seq<char>)
    requires
        inert(body),
    ensures
        closed(seq!['\x1b'] + body + seq!['m']),
        strip_escapes(seq!['\x1b'] + body + seq!['m']) == Seq::<char>::empty(),
{
    let e = seq!['\x1b'] + body + seq!['m'];
    assert(e.drop_first() =~= body + seq!['m']);
    lemma_tail_of_inert(body);
    assert(e[e.len() - 1] == 'm');
    assert forall|i: int| 0 <= i < e.len() && e[i] == '\x1b' implies exists|j: int|
        i < j < e.len() && e[j] == 'm' by {
        if i > 0 {
            assert(e[i] == body[i - 1]);
        }
        assert(e[e.len() - 1] == 'm');
    }
    assert(strip_escapes(Seq::<char>::empty()) =~= Seq::<char>::empty());
}

/// Text without escape characters is left as it is.
pub proof fn lemma_strip_plain(s: Seq<char>)
    requires
        forall|i: int| 0 <= i < s.len() ==> s[i] != '\x1b',
    ensures
        strip_escapes(s) == s,
        closed(s),
    decreases s.len(),
{
    if s.len() > 0 {
        lemma_strip_plain(s.drop_first());
        assert(seq![s[0]] + s.drop_first() =~= s);
    }
}

/// Inert pieces join into an inert whole.
pub proof fn lemma_inert_concat(a: Seq<char>, b: Seq<char>)
    requires
        inert(a),
        inert(b),
    ensures
        inert(a + b),
{
    assert forall|i: int| 0 <= i < (a + b).len() implies (a + b)[i] != '\x1b' && (a + b)[i] != 'm'
        && (a + b)[i] != '\n' && (a + b)[i] != '\r' by {
        if i < a.len() {
            assert((a + b)[i] == a[i]);
        } else {
            assert((a + b)[i] == b[i - a.len()]);
        }
    }
}

/// Decimal digits are inert.
pub proof fn lemma_decimal_inert(n: nat)
    ensures
        inert(decimal(n)),
{
    lemma_decimal_digits(n);
    assert forall|i: int| 0 <= i < decimal(n).len() implies decimal(n)[i] != '\x1b' && decimal(n)[i]
        != 'm' && decimal(n)[i] != '\n' && decimal(n)[i] != '\r' by {
        assert(is_digit(decimal(n)[i]));
    }
}

/// Whether no glyph of the ramp is a newline or an escape character.
pub open spec fn glyphs_printable(cfg: &AsciiConfig) -> bool {
    forall|k: int|
        0 <= k < glyphs_of(cfg).len() ==> glyphs_of(cfg)[k] != '\n' && glyphs_of(cfg)[k] != '\x1b'
}

/// The glyphs of the first `n` cells of row `y`.
pub open spec fn glyph_row(cfg: &AsciiConfig, img: &Image, y: int, n: int) -> Seq<char>
    decreases n,
{
    if n <= 0 {
        Seq::empty()
    } else {
        glyph_row(cfg, img, y, n - 1).push(cell_glyph(cfg, img, n - 1, y))
    }
}

/// The first `m` rows of glyphs, each ended by a newline.
pub open spec fn glyph_rows(cfg: &AsciiConfig, img: &Image, m: int) -> Seq<char>
    decreases m,
{
    if m <= 0 {
        Seq::empty()
    } else {
        glyph_rows(cfg, img, m - 1) + glyph_row(cfg, img, m - 1, cfg.width as int).push('\n')
    }
}

pub proof fn lemma_glyph_printable(cfg: &AsciiConfig, img: &Image, x: int, y: int)
    requires
        cfg.wf(),
        glyphs_printable(cfg),
    ensures
        cell_glyph(cfg, img, x, y) != '\n',
        cell_glyph(cfg, img, x, y) != '\x1b',
{
    lemma_cell_glyph_in_ramp(cfg, img, x, y);
    let k = choose|k: int| 0 <= k < glyphs_of(cfg).len() && glyphs_of(cfg)[k] == cell_glyph(cfg, img, x, y);
}

/// The body of a colour sequence, between its escape character and its `m`.
pub open spec fn color_body(r: int, g: int, b: int) -> Seq<char> {
    seq!['[', '3', '8', ';', '2', ';'] + decimal(r as nat) + seq![';'] + decimal(g as nat) + seq![';']
        + decimal(b as nat)
}

pub proof fn lemma_color_escape_strips(r: int, g: int, b: int)
    ensures
        closed(color_escape(r, g, b)),
        strip_escapes(color_escape(r, g, b)) == Seq::<char>::empty(),
        inert(color_body(r, g, b)),
        color_escape(r, g, b) == seq!['\x1b'] + color_body(r, g, b) + seq!['m'],
{
    let body = color_body(r, g, b);
    let head = seq!['[', '3', '8', ';', '2', ';'];
    let semi = seq![';'];
    assert(inert(head));
    assert(inert(semi));
    lemma_decimal_inert(r as nat);
    lemma_decimal_inert(g as nat);
    lemma_decimal_inert(b as nat);
    lemma_inert_concat(head, decimal(r as nat));
    lemma_inert_concat(head + decimal(r as nat), semi);
    lemma_inert_concat(head + decimal(r as nat) + semi, decimal(g as nat));
    lemma_inert_concat(head + decimal(r as nat) + semi + decimal(g as nat), semi);
    lemma_inert_concat(head + decimal(r as nat) + semi + decimal(g as nat) + semi, decimal(b as nat));
    assert(color_escape(r, g, b) =~= seq!['\x1b'] + body + seq!['m']);
    lemma_escape_strips(body);
}

pub proof fn lemma_reset_strips()
    ensures
        closed(reset_escape()),
        strip_escapes(reset_escape()) == Seq::<char>::empty(),
        inert(seq!['[', '0']),
        reset_escape() == seq!['\x1b'] + seq!['[', '0'] + seq!['m'],
{
    let body = seq!['[', '0'];
    assert(inert(body));
    assert(reset_escape() =~= seq!['\x1b'] + body + seq!['m']);
    lemma_escape_strips(body);
}

/// A cell's text is closed and strips to its glyph.
proof fn lemma_cell_strips(cfg: &AsciiConfig, img: &Image, x: int, y: int)
    requires
        cfg.wf(),
        glyphs_printable(cfg),
    ensures
        closed(cell_text(cfg, img, x, y)),
        strip_escapes(cell_text(cfg, img, x, y)) == seq![cell_glyph(cfg, img, x, y)],
{
    let c = cell_glyph(cfg, img, x, y);
    lemma_glyph_printable(cfg, img, x, y);
    lemma_strip_plain(seq![c]);
    if cfg.color {
        let e = color_escape(cell_mean(cfg, img, x, y, 0), cell_mean(cfg, img, x, y, 1), cell_mean(cfg, img, x, y, 2));
        let r = reset_escape();
        lemma_color_escape_strips(cell_mean(cfg, img, x, y, 0), cell_mean(cfg, img, x, y, 1), cell_mean(cfg, img, x, y, 2));
        lemma_reset_strips();
        assert(cell_text(cfg, img, x, y) == e + seq![c] + r);
        lemma_closed_concat(e, seq![c]);
        lemma_closed_concat(e + seq![c], r);
        assert(e + seq![c] + r =~= e + (seq![c] + r));
        lemma_strip_concat(e, seq![c] + r);
        lemma_strip_concat(seq![c], r);
        assert(strip_escapes(e) + (strip_escapes(seq![c]) + strip_escapes(r)) =~= seq![c]);
    }
}

proof fn lemma_row_strips(cfg: &AsciiConfig, img: &Image, y: int, n: int)
    requires
        cfg.wf(),
        glyphs_printable(cfg),
    ensures
        closed(row_cells(cfg, img, y, n)),
        strip_escapes(row_cells(cfg, img, y, n)) == glyph_row(cfg, img, y, n),
    decreases n,
{
    if n <= 0 {
        lemma_strip_plain(Seq::<char>::empty());
    } else {
        lemma_row_strips(cfg, img, y, n - 1);
        lemma_cell_strips(cfg, img, n - 1, y);
        let p = row_cells(cfg, img, y, n - 1);
        let c = cell_text(cfg, img, n - 1, y);
        lemma_closed_concat(p, c);
        lemma_strip_concat(p, c);
        assert(glyph_row(cfg, img, y, n - 1) + seq![cell_glyph(cfg, img, n - 1, y)] =~= glyph_row(cfg, img, y, n));
    }
}

proof fn lemma_rows_strip(cfg: &AsciiConfig, img: &Image, m: int)
    requires
        cfg.wf(),
        glyphs_printable(cfg),
    ensures
        closed(art_rows(cfg, img, m)),
        strip_escapes(art_rows(cfg, img, m)) == glyph_rows(cfg, img, m),
    decreases m,
{
    if m <= 0 {
        lemma_strip_plain(Seq::<char>::empty());
    } else {
        lemma_rows_strip(cfg, img, m - 1);
        let w = cfg.width as int;
        lemma_row_strips(cfg, img, m - 1, w);
        let p = art_rows(cfg, img, m - 1);
        let row = row_cells(cfg, img, m - 1, w);
        let nl = seq!['\n'];
        lemma_strip_plain(nl);
        assert(row.push('\n') =~= row + nl);
        lemma_closed_concat(row, nl);
        lemma_strip_concat(row, nl);
        lemma_closed_concat(p, row + nl);
        lemma_strip_concat(p, row + nl);
        assert(glyph_row(cfg, img, m - 1, w) + nl =~= glyph_row(cfg, img, m - 1, w).push('\n'));
    }
}

proof fn lemma_glyph_row_shape(cfg: &AsciiConfig, img: &Image, y: int, n: int)
    requires
        cfg.wf(),
        glyphs_printable(cfg),
        0 <= n,
    ensures
        glyph_row(cfg, img, y, n).len() == n,
        forall|j: int| 0 <= j < n ==> #[trigger] glyph_row(cfg, img, y, n)[j] == cell_glyph(cfg, img, j, y),
        forall|j: int| 0 <= j < n ==> glyph_row(cfg, img, y, n)[j] != '\n',
    decreases n,
{
    if n > 0 {
        lemma_glyph_row_shape(cfg, img, y, n - 1);
        lemma_glyph_printable(cfg, img, n - 1, y);
        assert forall|j: int| 0 <= j < n - 1 implies glyph_row(cfg, img, y, n)[j] != '\n' by {
            assert(glyph_row(cfg, img, y, n)[j] == glyph_row(cfg, img, y, n - 1)[j]);
        }
    }
}

proof fn lemma_index_in_row(r: int, j: int, m: int, w: int)
    requires
        0 <= r < m,
        0 <= j < w,
    ensures
        0 <= r * w + j < m * w,
{
    assert(r * w + j < m * w) by (nonlinear_arith)
        requires
            r < m,
            0 <= j < w,
    ;
    assert(0 <= r * w) by (nonlinear_arith)
        requires
            0 <= r,
            0 < w,
    ;
}

proof fn lemma_glyph_rows_shape(cfg: &AsciiConfig, img: &Image, m: int)
    requires
        cfg.wf(),
        glyphs_printable(cfg),
        0 <= m,
    ensures
        glyph_rows(cfg, img, m).len() == m * (cfg.width + 1),
        forall|r: int, j: int|
            0 <= r < m && 0 <= j < cfg.width ==> #[trigger] glyph_rows(cfg, img, m)[r * (cfg.width + 1)
                + j] == cell_glyph(cfg, img, j, r),
        forall|r: int, j: int|
            0 <= r < m && 0 <= j <= cfg.width ==> (#[trigger] glyph_rows(cfg, img, m)[r * (
            cfg.width + 1) + j] == '\n' <==> j == cfg.width),
    decreases m,
{
    let w = cfg.width + 1;
    if m > 0 {
        lemma_glyph_rows_shape(cfg, img, m - 1);
        lemma_glyph_row_shape(cfg, img, m - 1, cfg.width as int);
        let prev = glyph_rows(cfg, img, m - 1);
        let line = glyph_row(cfg, img, m - 1, cfg.width as int).push('\n');
        assert(glyph_rows(cfg, img, m) == prev + line);
        assert((m - 1) * w + w == m * w) by (nonlinear_arith);
        assert forall|r: int, j: int| 0 <= r < m && 0 <= j < cfg.width implies
            #[trigger] glyph_rows(cfg, img, m)[r * w + j] == cell_glyph(cfg, img, j, r) by {
            if r < m - 1 {
                lemma_index_in_row(r, j, m - 1, w);
                assert(glyph_rows(cfg, img, m)[r * w + j] == prev[r * w + j]);
            } else {
                assert(glyph_rows(cfg, img, m)[r * w + j] == line[j]);
            }
        }
        assert forall|r: int, j: int| 0 <= r < m && 0 <= j <= cfg.width implies
            (#[trigger] glyph_rows(cfg, img, m)[r * w + j] == '\n' <==> j == cfg.width) by {
            if r < m - 1 {
                lemma_index_in_row(r, j, m - 1, w);
                assert(glyph_rows(cfg, img, m)[r * w + j] == prev[r * w + j]);
            } else {
                assert(glyph_rows(cfg, img, m)[r * w + j] == line[j]);
            }
        }
    } else {
        assert(m * w == 0) by (nonlinear_arith)
            requires
                m == 0,
        ;
    }
}

/// Setting colour escape sequences aside, the output is `rows` lines of
/// exactly `width` glyphs each, every line ended by its one newline, and the
/// glyph in column `j` of line `r` is that of cell `(j, r)`.
pub proof fn lemma_grid_shape(cfg: &AsciiConfig, img: &Image)
    requires
        cfg.wf(),
        img.wf(),
        glyphs_printable(cfg),
    ensures
        ({
            let v = strip_escapes(art_of(cfg, img));
            let rows = rows_of(cfg, img);
            &&& v.len() == rows * (cfg.width + 1)
            &&& forall|r: int, j: int|
                0 <= r < rows && 0 <= j < cfg.width ==> #[trigger] v[r * (cfg.width + 1) + j]
                    == cell_glyph(cfg, img, j, r)
            &&& forall|r: int, j: int|
                0 <= r < rows && 0 <= j <= cfg.width ==> (#[trigger] v[r * (cfg.width + 1) + j]
                    == '\n' <==> j == cfg.width)
        }),
{
    let rows = rows_of(cfg, img);
    lemma_rows_strip(cfg, img, rows);
    lemma_glyph_rows_shape(cfg, img, rows);
}

} // verus!
