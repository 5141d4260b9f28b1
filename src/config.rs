//! The conversion settings and the glyph ramp that they select.

use vstd::prelude::*;
use crate::charset::{Charset, builtin_glyphs};
use crate::error::AsciiError;
use crate::text::chars_of;

verus! {

/// Whether `v` holds 256 levels, from 0 up to 255, never decreasing.
pub open spec fn levels_valid(v: Seq<u8>) -> bool {
    &&& v.len() == 256
    &&& v[0] == 0
    &&& v[255] == 255
    &&& forall|i: int| 0 <= i < 255 ==> #[trigger] v[i] <= v[i + 1]
}

/// A tone curve on luminance: the level that each of the 256 luminance values becomes.
///
/// The levels of a power curve are computed by whoever builds the settings; the
/// mapping itself only looks them up.
pub struct GammaCurve {
    pub levels: Vec<u8>,
}

impl GammaCurve {
    /// A curve over all 256 luminance values that keeps black at 0, white at
    /// 255, and never darkens a brighter input below a darker one, as every
    /// power curve with a positive exponent does.
    pub open spec fn wf(&self) -> bool {
        levels_valid(self.levels@)
    }

    /// The corrected level of luminance `l`.
    pub open spec fn level(&self, l: int) -> int {
        self.levels@[l] as int
    }

    /// The curve of gamma 1: every luminance keeps its value.
    pub fn identity() -> (r: GammaCurve)
        ensures
            r.wf(),
            forall|l: int| 0 <= l < 256 ==> #[trigger] r.level(l) == l,
    {
        let mut levels: Vec<u8> = Vec::new();
        let mut i: u32 = 0;
        while i < 256
            invariant
                i <= 256,
                levels@.len() == i,
                forall|l: int| 0 <= l < i ==> levels@[l] as int == l,
            decreases 256 - i,
        {
            levels.push(i as u8);
            i = i + 1;
        }
        let r = GammaCurve { levels };
        assert forall|i: int| 0 <= i < 255 implies #[trigger] r.levels@[i] <= r.levels@[i + 1] by {
            assert(r.levels@[i] as int == i && r.levels@[i + 1] as int == i + 1);
        }
        r
    }

    /// A curve from its 256 levels; a table of another size, or one that does
    /// not rise from 0 to 255 without decreasing, is refused.
    pub fn from_levels(levels: Vec<u8>) -> (r: Result<GammaCurve, AsciiError>)
        ensures
            levels_valid(levels@) ==> (r matches Ok(g) && g.levels@ == levels@),
            !levels_valid(levels@) ==> r == Err::<GammaCurve, AsciiError>(
                AsciiError::InvalidConfiguration,
            ),
    {
        if levels.len() != 256 || levels[0] != 0 || levels[255] != 255 {
            return Err(AsciiError::InvalidConfiguration);
        }
        let mut i: usize = 0;
        while i < 255
            invariant
                levels@.len() == 256,
                i <= 255,
                forall|k: int| 0 <= k < i ==> #[trigger] levels@[k] <= levels@[k + 1],
            decreases 255 - i,
        {
            if levels[i] > levels[i + 1] {
                assert(!levels_valid(levels@));
                return Err(AsciiError::InvalidConfiguration);
            }
            i = i + 1;
        }
        Ok(GammaCurve { levels })
    }

    /// The corrected level of luminance `l`.
    pub fn apply(&self, l: u32) -> (r: u32)
        requires
            self.wf(),
            l < 256,
        ensures
            r == self.level(l as int),
            r < 256,
    {
        self.levels[l as usize] as u32
    }
}

/// Corrected luminance never decreases as luminance grows, and keeps black
/// and white where they are.
pub proof fn lemma_gamma_monotone(g: &GammaCurve, l1: int, l2: int)
    requires
        g.wf(),
        0 <= l1 <= l2 < 256,
    ensures
        g.level(l1) <= g.level(l2),
        g.level(0) == 0,
        g.level(255) == 255,
    decreases l2 - l1,
{
    if l1 < l2 {
        lemma_gamma_monotone(g, l1, l2 - 1);
        assert(g.levels@[l2 - 1] <= g.levels@[l2 - 1 + 1]);
    }
}

/// The settings of one conversion.
pub struct AsciiConfig {
    /// Output columns.
    pub width: u32,
    /// Output rows; 0 derives them from the source's aspect ratio.
    pub height: u32,
    /// The tone curve applied to luminance.
    pub gamma: GammaCurve,
    /// The named ramp, or `CUSTOM` to use `custom_charset`.
    pub charset: Charset,
    /// The glyphs of a custom ramp, already sorted by density.
    pub custom_charset: String,
    /// Whether each cell carries its colour as an escape sequence.
    pub color: bool,
    /// Whether the ramp is read from its light end.
    pub invert: bool,
}

/// The ramp before inversion: the custom glyphs, or the named built-in ramp.
pub open spec fn base_glyphs(cfg: &AsciiConfig) -> Seq<char> {
    if cfg.charset == Charset::CUSTOM {
        cfg.custom_charset@
    } else {
        builtin_glyphs(cfg.charset)
    }
}

/// The ramp that a conversion with these settings reads, darkest cell first.
pub open spec fn glyphs_of(cfg: &AsciiConfig) -> Seq<char> {
    if cfg.invert {
        base_glyphs(cfg).reverse()
    } else {
        base_glyphs(cfg)
    }
}

impl AsciiConfig {
    /// Settings that a conversion can run with: a full tone curve, and glyphs
    /// for a custom ramp.
    pub open spec fn wf(&self) -> bool {
        &&& self.gamma.wf()
        &&& (self.charset == Charset::CUSTOM ==> self.custom_charset@.len() > 0)
    }

    /// 80 columns, derived height, gamma 1, the long ramp, no colour, no inversion.
    pub fn default_config() -> (r: AsciiConfig)
        ensures
            r.wf(),
            r.width == 80,
            r.height == 0,
            forall|l: int| 0 <= l < 256 ==> #[trigger] r.gamma.level(l) == l,
            r.charset == Charset::DEFAULT,
            r.custom_charset@.len() == 0,
            !r.color,
            !r.invert,
    {
        AsciiConfig {
            width: 80,
            height: 0,
            gamma: GammaCurve::identity(),
            charset: Charset::DEFAULT,
            custom_charset: String::new(),
            color: false,
            invert: false,
        }
    }

    /// The glyph ramp of these settings, darkest cell first.
    pub fn active_glyphs(&self) -> (r: Vec<char>)
        requires
            self.wf(),
        ensures
            r@ == glyphs_of(self),
            r@.len() > 0,
    {
        let base = if self.charset == Charset::CUSTOM {
            chars_of(self.custom_charset.as_str())
        } else {
            chars_of(self.charset.as_str())
        };
        proof {
            lemma_builtin_nonempty(self.charset);
        }
        if self.invert {
            let r = reversed(&base);
            r
        } else {
            base
        }
    }
}

impl Default for AsciiConfig {
    fn default() -> (r: AsciiConfig)
        ensures
            r.wf(),
            r.width == 80,
            r.height == 0,
            forall|l: int| 0 <= l < 256 ==> #[trigger] r.gamma.level(l) == l,
            r.charset == Charset::DEFAULT,
            r.custom_charset@.len() == 0,
            !r.color,
            !r.invert,
    {
        AsciiConfig::default_config()
    }
}

/// The elements of `v` from last to first.
fn reversed(v: &Vec<char>) -> (r: Vec<char>)
    ensures
        r@ == v@.reverse(),
{
    let mut r: Vec<char> = Vec::new();
    let mut i: usize = v.len();
    while i > 0
        invariant
            i <= v.len(),
            r@.len() == v.len() - i,
            forall|k: int| 0 <= k < r@.len() ==> r@[k] == v@[v.len() - 1 - k],
        decreases i,
    {
        i = i - 1;
        r.push(v[i]);
    }
    assert(r@ =~= v@.reverse());
    r
}

/// Every named ramp has glyphs.
proof fn lemma_builtin_nonempty(c: Charset)
    ensures
        c != Charset::CUSTOM ==> builtin_glyphs(c).len() > 0,
{
}

/// The ramp of any usable settings has at least one glyph, and reading a ramp
/// backwards twice gives it back unchanged.
pub proof fn lemma_glyphs_nonempty_and_invert_twice(cfg: &AsciiConfig)
    requires
        cfg.wf(),
    ensures
        glyphs_of(cfg).len() > 0,
        glyphs_of(cfg).reverse().reverse() == glyphs_of(cfg),
        cfg.invert ==> glyphs_of(cfg).reverse() == base_glyphs(cfg),
{
    lemma_builtin_nonempty(cfg.charset);
    let g = glyphs_of(cfg);
    assert(g.reverse().reverse() =~= g);
    let b = base_glyphs(cfg);
    assert(b.reverse().reverse() =~= b);
}

} // verus!
