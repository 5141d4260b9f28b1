//! The animation pipeline: converting every frame, restoring frame order after
//! parallel rendering, and pacing playback.

use vstd::prelude::*;
use crate::config::AsciiConfig;
use crate::error::AsciiError;
use crate::mapper::{art_of, convert_image, rows_of};
use crate::raster::Image;

verus! {

/// One decoded frame of an animation and how long it stays on screen.
pub struct Frame {
    pub image: Image,
    pub delay_ms: u64,
}

/// Whether every frame holds a usable image.
pub open spec fn frames_wf(frames: Seq<Frame>) -> bool {
    forall|i: int| 0 <= i < frames.len() ==> (#[trigger] frames[i]).image.wf()
}

/// Whether every frame's row count fits in 32 bits under these settings.
pub open spec fn frames_fit(cfg: &AsciiConfig, frames: Seq<Frame>) -> bool {
    forall|i: int| 0 <= i < frames.len() ==> rows_of(cfg, &(#[trigger] frames[i]).image) <= u32::MAX
}

/// The delays of the frames, in order.
pub open spec fn delays_of(frames: Seq<Frame>) -> Seq<u64> {
    Seq::new(frames.len(), |i: int| frames[i].delay_ms)
}

/// Converts every frame of an animation under one set of settings.
pub struct GifAsciiHandler {
    pub config: AsciiConfig,
}

impl GifAsciiHandler {
    pub fn new(config: AsciiConfig) -> (r: GifAsciiHandler)
        ensures
            r.config == config,
    {
        GifAsciiHandler { config }
    }

    /// The character grid of each frame, in source order, with each frame's
    /// delay unchanged. Refused when some frame's derived row count does not
    /// fit in 32 bits; then no frame is returned.
    pub fn gif_to_ascii(&self, frames: &Vec<Frame>) -> (r: Result<(Vec<String>, Vec<u64>), AsciiError>)
        requires
            self.config.wf(),
            frames_wf(frames@),
        ensures
            frames_fit(&self.config, frames@) ==> (r matches Ok((texts, delays)) && texts@.len()
                == frames@.len() && delays@ == delays_of(frames@) && forall|i: int|
                0 <= i < frames@.len() ==> #[trigger] texts@[i]@ == art_of(
                    &self.config,
                    &frames@[i].image,
                )),
            !frames_fit(&self.config, frames@) ==> r == Err::<
                (Vec<String>, Vec<u64>),
                AsciiError,
            >(AsciiError::InvalidConfiguration),
    {
        let mut texts: Vec<String> = Vec::new();
        let mut delays: Vec<u64> = Vec::new();
        let mut i: usize = 0;
        while i < frames.len()
            invariant
                self.config.wf(),
                frames_wf(frames@),
                i <= frames.len(),
                texts@.len() == i,
                delays@ == delays_of(frames@).take(i as int),
                forall|k: int| 0 <= k < i ==> #[trigger] texts@[k]@ == art_of(
                    &self.config,
                    &frames@[k].image,
                ),
                forall|k: int| 0 <= k < i ==> rows_of(&self.config, &(#[trigger] frames@[k]).image)
                    <= u32::MAX,
            decreases frames.len() - i,
        {
            let f = &frames[i];
            match convert_image(&self.config, &f.image) {
                Ok(text) => {
                    texts.push(text);
                    delays.push(f.delay_ms);
                    assert(delays@ =~= delays_of(frames@).take(i + 1));
                },
                Err(e) => {
                    assert(!frames_fit(&self.config, frames@));
                    return Err(e);
                },
            }
            i = i + 1;
        }
        assert(delays@ =~= delays_of(frames@));
        Ok((texts, delays))
    }
}

/// Whether `indexed` carries each index below `n` exactly once.
pub open spec fn covers_indices<T>(indexed: Seq<(usize, T)>, n: int) -> bool {
    &&& indexed.len() == n
    &&& forall|k: int| 0 <= k < n ==> (#[trigger] indexed[k]).0 < n
    &&& forall|k1: int, k2: int|
        0 <= k1 < n && 0 <= k2 < n && k1 != k2 ==> (#[trigger] indexed[k1]).0 != (
        #[trigger] indexed[k2]).0
}

/// Puts results that arrive tagged with their frame index back in frame order,
/// each beside its frame's delay. Refused when the tags are not each index
/// below `delays.len()` exactly once.
pub fn restore_frame_order<T>(indexed: Vec<(usize, T)>, delays: &Vec<u64>) -> (r: Option<
    Vec<(T, u64)>,
>)
    ensures
        covers_indices(indexed@, delays@.len() as int) ==> (r matches Some(v) && v@.len()
            == delays@.len() && forall|k: int|
            0 <= k < delays@.len() ==> v@[#[trigger] indexed@[k].0 as int] == (
            indexed@[k].1,
            delays@[indexed@[k].0 as int],
        )),
        !covers_indices(indexed@, delays@.len() as int) ==> r is None,
{
    let n = delays.len();
    if indexed.len() != n {
        return None;
    }
    let ghost orig = indexed@;
    let mut slots: Vec<Option<T>> = Vec::new();
    let mut i: usize = 0;
    while i < n
        invariant
            i <= n,
            slots@.len() == i,
            forall|j: int| 0 <= j < i ==> slots@[j] is None,
        decreases n - i,
    {
        slots.push(None);
        i = i + 1;
    }
    let mut rest = indexed;
    while rest.len() > 0
        invariant
            orig.len() == n,
            orig == indexed@,
            n == delays@.len(),
            rest@.len() <= n,
            rest@ == orig.take(rest@.len() as int),
            slots@.len() == n,
            forall|k: int| rest@.len() <= k < n ==> (#[trigger] orig[k]).0 < n,
            forall|k1: int, k2: int|
                rest@.len() <= k1 < n && rest@.len() <= k2 < n && k1 != k2 ==> (
                #[trigger] orig[k1]).0 != (#[trigger] orig[k2]).0,
            forall|k: int| rest@.len() <= k < n ==> slots@[(#[trigger] orig[k]).0 as int] == Some(
                orig[k].1,
            ),
            forall|j: int|
                0 <= j < n && (#[trigger] slots@[j]) is Some ==> exists|k: int|
                    rest@.len() <= k < n && (#[trigger] orig[k]).0 == j,
        decreases rest.len(),
    {
        let ghost before = rest@;
        let (idx, item) = rest.pop().unwrap();
        let ghost kk = rest@.len() as int;
        assert(before == rest@.push((idx, item)));
        assert(orig[kk] == before[kk]);
        if idx >= n {
            assert(orig[kk].0 >= n);
            assert(!covers_indices(orig, n as int));
            return None;
        }
        if slots[idx].is_some() {
            proof {
                let k2 = choose|k: int| kk + 1 <= k < n && (#[trigger] orig[k]).0 == idx;
                assert(orig[kk].0 == orig[k2].0);
                assert(!covers_indices(orig, n as int));
            }
            return None;
        }
        slots.set(idx, Some(item));
        assert(rest@ =~= orig.take(rest@.len() as int));
        assert forall|j: int| 0 <= j < n && (#[trigger] slots@[j]) is Some implies exists|k: int|
            kk <= k < n && (#[trigger] orig[k]).0 == j by {
            if j == idx {
                assert(orig[kk].0 == j);
            }
        }
    }
    proof {
        lemma_indices_fill(orig, n as int);
    }
    let ghost filled = slots@;
    assert forall|x: int| 0 <= x < n implies (#[trigger] filled[x]) is Some by {
        assert(tagged(orig, n as int, x));
        let k = choose|k: int| 0 <= k < n && (#[trigger] orig[k]).0 == x;
        assert(filled[orig[k].0 as int] == Some(orig[k].1));
    }
    let mut out: Vec<(T, u64)> = Vec::new();
    let mut j: usize = 0;
    while j < n
        invariant
            orig.len() == n,
            n == delays@.len(),
            j <= n,
            filled.len() == n,
            slots@ == filled.skip(j as int),
            out@.len() == j,
            forall|x: int| 0 <= x < n ==> (#[trigger] filled[x]) is Some,
            forall|x: int| 0 <= x < j ==> Some((#[trigger] out@[x]).0) == filled[x] && out@[x].1 == delays@[x],
        decreases n - j,
    {
        let slot = slots.remove(0);
        assert(slot == filled[j as int]);
        match slot {
            Some(item) => {
                out.push((item, delays[j]));
            },
            None => {
                return None;
            },
        }
        assert(slots@ =~= filled.skip(j + 1));
        j = j + 1;
    }
    assert forall|k: int| 0 <= k < n implies out@[#[trigger] orig[k].0 as int] == (
        orig[k].1,
        delays@[orig[k].0 as int],
    ) by {
        let x = orig[k].0 as int;
        assert(filled[x] == Some(orig[k].1));
    }
    Some(out)
}

/// Whether some result among the first `n` is tagged with index `j`.
spec fn tagged<T>(orig: Seq<(usize, T)>, n: int, j: int) -> bool {
    exists|k: int| 0 <= k < n && (#[trigger] orig[k]).0 == j
}

/// Tags that are each index below `n` exactly once reach every index below `n`.
proof fn lemma_indices_fill<T>(orig: Seq<(usize, T)>, n: int)
    requires
        covers_indices(orig, n),
    ensures
        forall|j: int| 0 <= j < n ==> #[trigger] tagged(orig, n, j),
{
    let idx = Seq::new(n as nat, |k: int| orig[k].0 as int);
    assert(idx.no_duplicates()) by {
        assert forall|a: int, b: int| 0 <= a < idx.len() && 0 <= b < idx.len() && a != b implies idx[a] != idx[b] by {
            assert(orig[a].0 != orig[b].0);
        }
    }
    idx.unique_seq_to_set();
    let range = vstd::set_lib::set_int_range(0, n);
    vstd::set_lib::lemma_int_range(0, n);
    assert(idx.to_set().subset_of(range)) by {
        assert forall|v: int| idx.to_set().contains(v) implies range.contains(v) by {
            let k = choose|k: int| 0 <= k < idx.len() && idx[k] == v;
            assert(orig[k].0 < n);
        }
    }
    vstd::seq_lib::seq_to_set_is_finite(idx);
    vstd::set_lib::lemma_subset_equality(idx.to_set(), range);
    assert forall|j: int| 0 <= j < n implies #[trigger] tagged(orig, n, j) by {
        assert(range.contains(j));
        assert(idx.to_set().contains(j));
        let k = choose|k: int| 0 <= k < idx.len() && idx[k] == j;
        assert(orig[k].0 == j);
    }
}

/// What workers hand back when the result for frame `p[k]` is the `k`-th to
/// finish: each result tagged with its frame index, in finishing order.
pub open spec fn scheduled<T>(p: Seq<usize>, b: Seq<T>) -> Seq<(usize, T)> {
    Seq::new(p.len(), |k: int| (p[k], b[p[k] as int]))
}

/// Whether `p` lists each index below `n` exactly once.
pub open spec fn is_schedule(p: Seq<usize>, n: int) -> bool {
    &&& p.len() == n
    &&& forall|k: int| 0 <= k < n ==> (#[trigger] p[k]) < n
    &&& forall|k1: int, k2: int| 0 <= k1 < n && 0 <= k2 < n && k1 != k2 ==> p[k1] != p[k2]
}

/// Frame results beside their delays, in source order.
pub open spec fn in_source_order<T>(b: Seq<T>, d: Seq<u64>) -> Seq<(T, u64)> {
    Seq::new(b.len(), |i: int| (b[i], d[i]))
}

/// Whatever order the per-frame results finish in, restoring puts back
/// exactly the `n` results in source order, each with its own frame's delay.
pub proof fn lemma_restore_ignores_schedule<T>(
    p: Seq<usize>,
    b: Seq<T>,
    d: Seq<u64>,
    v: Seq<(T, u64)>,
)
    requires
        b.len() == d.len(),
        is_schedule(p, b.len() as int),
        v.len() == d.len(),
        forall|k: int|
            0 <= k < d.len() ==> v[#[trigger] scheduled(p, b)[k].0 as int] == (
                scheduled(p, b)[k].1,
                d[scheduled(p, b)[k].0 as int],
            ),
    ensures
        covers_indices(scheduled(p, b), d.len() as int),
        v == in_source_order(b, d),
{
    let s = scheduled(p, b);
    let n = d.len() as int;
    assert forall|k1: int, k2: int|
        0 <= k1 < n && 0 <= k2 < n && k1 != k2 implies (#[trigger] s[k1]).0 != (
        #[trigger] s[k2]).0 by {
        assert(p[k1] != p[k2]);
    }
    assert forall|k: int| 0 <= k < n implies (#[trigger] s[k]).0 < n by {
        assert(p[k] < n);
    }
    lemma_indices_fill(s, n);
    assert forall|i: int| 0 <= i < n implies v[i] == (b[i], d[i]) by {
        assert(tagged(s, n, i));
        let k = choose|k: int| 0 <= k < n && (#[trigger] s[k]).0 == i;
        assert(v[s[k].0 as int] == (s[k].1, d[s[k].0 as int]));
    }
    assert(v =~= in_source_order(b, d));
}

/// Where live playback stands: the pass over the frames, and the frame shown.
#[derive(Debug, Clone, Copy, PartialEq, Eq, Structural)]
pub struct PlaybackCursor {
    pub pass: u32,
    pub frame: usize,
}

/// The first frame to show, if any: none when there are no frames or no passes.
pub fn first_frame(frame_count: usize, loops: Option<u32>) -> (r: Option<PlaybackCursor>)
    ensures
        (frame_count == 0 || loops == Some(0u32)) ==> r is None,
        !(frame_count == 0 || loops == Some(0u32)) ==> r == Some(PlaybackCursor { pass: 0, frame: 0 }),
{
    if frame_count == 0 {
        return None;
    }
    match loops {
        Some(n) => {
            if n == 0 {
                None
            } else {
                Some(PlaybackCursor { pass: 0, frame: 0 })
            }
        },
        None => Some(PlaybackCursor { pass: 0, frame: 0 }),
    }
}

/// The frame to show after `cur`: the next one in the pass; after the last
/// frame, the first one of the next pass while passes remain. Without a pass
/// count playback never ends.
pub fn next_frame(cur: PlaybackCursor, frame_count: usize, loops: Option<u32>) -> (r: Option<
    PlaybackCursor,
>)
    requires
        cur.frame < frame_count,
    ensures
        cur.frame + 1 < frame_count ==> r == Some(
            PlaybackCursor { pass: cur.pass, frame: (cur.frame + 1) as usize },
        ),
        cur.frame + 1 == frame_count && loops is None ==> r == Some(
            PlaybackCursor { pass: cur.pass, frame: 0 },
        ),
        cur.frame + 1 == frame_count && loops is Some && cur.pass + 1 < loops->0 ==> r == Some(
            PlaybackCursor { pass: (cur.pass + 1) as u32, frame: 0 },
        ),
        cur.frame + 1 == frame_count && loops is Some && cur.pass + 1 >= loops->0 ==> r is None,
{
    if cur.frame + 1 < frame_count {
        return Some(PlaybackCursor { pass: cur.pass, frame: cur.frame + 1 });
    }
    match loops {
        None => Some(PlaybackCursor { pass: cur.pass, frame: 0 }),
        Some(n) => {
            if (cur.pass as u64) + 1 < n as u64 {
                Some(PlaybackCursor { pass: cur.pass + 1, frame: 0 })
            } else {
                None
            }
        },
    }
}

} // verus!
