//! Ordering a custom charset by ink density, so that it reads as a ramp.

use vstd::prelude::*;
use crate::text::{chars_of, push_char};

verus! {

/// Each glyph paired with its measured density.
pub open spec fn with_densities(cs: Seq<char>, ds: Seq<u32>) -> Seq<(char, u32)> {
    Seq::new(cs.len(), |i: int| (cs[i], ds[i]))
}

/// The glyphs of a sequence of pairs.
pub open spec fn glyphs_only(s: Seq<(char, u32)>) -> Seq<char> {
    Seq::new(s.len(), |i: int| s[i].0)
}

/// Whether densities never decrease along the sequence.
pub open spec fn density_sorted(s: Seq<(char, u32)>) -> bool {
    forall|i: int, j: int| 0 <= i < j < s.len() ==> s[i].1 <= s[j].1
}

/// Where `e` goes in `s`: after every pair from the back whose density is
/// not greater, so that equal densities keep their order.
pub open spec fn insert_pos(s: Seq<(char, u32)>, e: (char, u32)) -> int
    decreases s.len(),
{
    if s.len() == 0 {
        0
    } else if s.last().1 <= e.1 {
        s.len() as int
    } else {
        insert_pos(s.drop_last(), e)
    }
}

/// The stable ordering of `s` by ascending density: each pair in turn is
/// placed after all pairs before it whose density is not greater.
pub open spec fn density_order(s: Seq<(char, u32)>) -> Seq<(char, u32)>
    decreases s.len(),
{
    if s.len() == 0 {
        s
    } else {
        let prefix = density_order(s.drop_last());
        prefix.insert(insert_pos(prefix, s.last()), s.last())
    }
}

proof fn lemma_insert_pos_bounds(s: Seq<(char, u32)>, e: (char, u32))
    ensures
        0 <= insert_pos(s, e) <= s.len(),
        forall|k: int| insert_pos(s, e) <= k < s.len() ==> s[k].1 > e.1,
        insert_pos(s, e) > 0 ==> s[insert_pos(s, e) - 1].1 <= e.1,
    decreases s.len(),
{
    if s.len() > 0 && s.last().1 > e.1 {
        let d = s.drop_last();
        lemma_insert_pos_bounds(d, e);
        assert forall|k: int| insert_pos(s, e) <= k < s.len() implies s[k].1 > e.1 by {
            if k < d.len() {
                assert(s[k] == d[k]);
            }
        }
    }
}

/// Pairs denser than `e` at the back do not move where `e` goes.
proof fn lemma_insert_pos_skip(s: Seq<(char, u32)>, e: (char, u32), j: int)
    requires
        0 <= j <= s.len(),
        forall|k: int| j <= k < s.len() ==> s[k].1 > e.1,
    ensures
        insert_pos(s, e) == insert_pos(s.take(j), e),
    decreases s.len(),
{
    if s.len() > j {
        assert(s.drop_last().take(j) =~= s.take(j));
        lemma_insert_pos_skip(s.drop_last(), e, j);
    } else {
        assert(s.take(j) =~= s);
    }
}

proof fn lemma_density_order_len(s: Seq<(char, u32)>)
    ensures
        density_order(s).len() == s.len(),
    decreases s.len(),
{
    if s.len() > 0 {
        lemma_density_order_len(s.drop_last());
        lemma_insert_pos_bounds(density_order(s.drop_last()), s.last());
    }
}

/// The ordering is sorted by density.
pub proof fn lemma_density_order_sorted(s: Seq<(char, u32)>)
    ensures
        density_sorted(density_order(s)),
    decreases s.len(),
{
    if s.len() > 0 {
        let prefix = density_order(s.drop_last());
        let e = s.last();
        lemma_density_order_sorted(s.drop_last());
        lemma_insert_pos_bounds(prefix, e);
        let p = insert_pos(prefix, e);
        let r = prefix.insert(p, e);
        assert forall|i: int, j: int| 0 <= i < j < r.len() implies r[i].1 <= r[j].1 by {
            if j < p {
            } else if j == p {
                assert(r[i] == prefix[i]);
                assert(prefix[i].1 <= prefix[p - 1].1);
            } else if i < p {
                assert(r[j] == prefix[j - 1]);
            } else if i == p {
                assert(r[j] == prefix[j - 1]);
            } else {
                assert(r[i] == prefix[i - 1]);
                assert(r[j] == prefix[j - 1]);
            }
        }
    }
}

/// A sequence already sorted by density comes back unchanged.
pub proof fn lemma_density_order_sorted_unchanged(s: Seq<(char, u32)>)
    requires
        density_sorted(s),
    ensures
        density_order(s) == s,
    decreases s.len(),
{
    if s.len() > 0 {
        let d = s.drop_last();
        assert(density_sorted(d));
        lemma_density_order_sorted_unchanged(d);
        if d.len() > 0 {
            assert(d.last().1 <= s.last().1);
        }
        assert(insert_pos(d, s.last()) == d.len());
        assert(d.insert(d.len() as int, s.last()) =~= s);
    }
}

/// The ordering keeps every glyph, with its count.
pub proof fn lemma_density_order_same_glyphs(s: Seq<(char, u32)>)
    ensures
        glyphs_only(density_order(s)).to_multiset() == glyphs_only(s).to_multiset(),
    decreases s.len(),
{
    broadcast use vstd::seq_lib::group_to_multiset_ensures;

    if s.len() > 0 {
        let d = s.drop_last();
        let e = s.last();
        let prefix = density_order(d);
        lemma_density_order_same_glyphs(d);
        lemma_insert_pos_bounds(prefix, e);
        let p = insert_pos(prefix, e);
        assert(glyphs_only(prefix.insert(p, e)) =~= glyphs_only(prefix).insert(p, e.0));
        vstd::seq_lib::to_multiset_insert(glyphs_only(prefix), p, e.0);
        assert(glyphs_only(s) =~= glyphs_only(d).push(e.0));
        vstd::seq_lib::to_multiset_build(glyphs_only(d), e.0);
    }
}

/// Ordering by density twice gives what ordering once gave, and the ordering
/// keeps every glyph of the charset with its count.
pub proof fn lemma_density_sort_idempotent(cs: Seq<char>, ds: Seq<u32>)
    requires
        cs.len() == ds.len(),
    ensures
        density_order(density_order(with_densities(cs, ds))) == density_order(
            with_densities(cs, ds),
        ),
        glyphs_only(density_order(with_densities(cs, ds))).to_multiset() == cs.to_multiset(),
{
    let s = with_densities(cs, ds);
    lemma_density_order_sorted(s);
    lemma_density_order_sorted_unchanged(density_order(s));
    lemma_density_order_same_glyphs(s);
    assert(glyphs_only(s) =~= cs);
}

/// Whether each pair carries the density that `d` gives its glyph.
pub open spec fn densities_from(s: Seq<(char, u32)>, d: spec_fn(char) -> u32) -> bool {
    forall|i: int| 0 <= i < s.len() ==> (#[trigger] s[i]).1 == d(s[i].0)
}

/// The densities that `d` gives the glyphs of `cs`.
pub open spec fn densities_of(cs: Seq<char>, d: spec_fn(char) -> u32) -> Seq<u32> {
    Seq::new(cs.len(), |i: int| d(cs[i]))
}

proof fn lemma_density_order_keeps_densities(s: Seq<(char, u32)>, d: spec_fn(char) -> u32)
    requires
        densities_from(s, d),
    ensures
        densities_from(density_order(s), d),
    decreases s.len(),
{
    if s.len() > 0 {
        let p = s.drop_last();
        assert(densities_from(p, d)) by {
            assert forall|i: int| 0 <= i < p.len() implies (#[trigger] p[i]).1 == d(p[i].0) by {
                assert(p[i] == s[i]);
            }
        }
        lemma_density_order_keeps_densities(p, d);
        let prefix = density_order(p);
        lemma_insert_pos_bounds(prefix, s.last());
        let k = insert_pos(prefix, s.last());
        let r = prefix.insert(k, s.last());
        assert forall|i: int| 0 <= i < r.len() implies (#[trigger] r[i]).1 == d(r[i].0) by {
            if i < k {
                assert(r[i] == prefix[i]);
            } else if i > k {
                assert(r[i] == prefix[i - 1]);
            }
        }
    }
}

/// With densities that come from one function of the glyph, sorting the
/// sorted charset again gives it back unchanged.
pub proof fn lemma_density_sort_twice(cs: Seq<char>, d: spec_fn(char) -> u32)
    ensures
        ({
            let once = glyphs_only(density_order(with_densities(cs, densities_of(cs, d))));
            glyphs_only(density_order(with_densities(once, densities_of(once, d)))) == once
        }),
{
    let s = with_densities(cs, densities_of(cs, d));
    assert(densities_from(s, d));
    lemma_density_order_keeps_densities(s, d);
    lemma_density_order_len(s);
    let o = density_order(s);
    let once = glyphs_only(o);
    assert(with_densities(once, densities_of(once, d)) =~= o);
    lemma_density_order_sorted(s);
    lemma_density_order_sorted_unchanged(o);
}

/// Orders the glyphs of `charset` by ascending density, `densities[i]` being
/// the density of the `i`-th glyph. Glyphs of equal density keep their order,
/// and duplicates are kept.
pub fn sort_charset_by_density(charset: String, densities: Vec<u32>) -> (r: String)
    requires
        densities@.len() == charset@.len(),
    ensures
        r@ == glyphs_only(density_order(with_densities(charset@, densities@))),
        r@.to_multiset() == charset@.to_multiset(),
{
    proof {
        lemma_density_sort_idempotent(charset@, densities@);
    }
    let cs = chars_of(charset.as_str());
    let ghost all = with_densities(charset@, densities@);
    let mut v: Vec<(char, u32)> = Vec::new();
    let mut i: usize = 0;
    while i < cs.len()
        invariant
            cs@ == charset@,
            densities@.len() == cs@.len(),
            all == with_densities(charset@, densities@),
            i <= cs.len(),
            v@ == density_order(all.take(i as int)),
        decreases cs.len() - i,
    {
        let e = (cs[i], densities[i]);
        assert(all.take(i + 1).drop_last() =~= all.take(i as int));
        assert(all.take(i + 1).last() == e);
        proof {
            lemma_density_order_len(all.take(i as int));
        }
        let mut j: usize = v.len();
        while j > 0 && v[j - 1].1 > e.1
            invariant
                j <= v.len(),
                forall|k: int| j <= k < v@.len() ==> v@[k].1 > e.1,
            decreases j,
        {
            j = j - 1;
        }
        proof {
            lemma_insert_pos_skip(v@, e, j as int);
            let t = v@.take(j as int);
            if j > 0 {
                assert(t.last().1 <= e.1);
            }
            assert(insert_pos(t, e) == j);
        }
        v.insert(j, e);
        i = i + 1;
    }
    assert(all.take(cs.len() as int) =~= all);
    let mut r = String::new();
    let mut k: usize = 0;
    while k < v.len()
        invariant
            k <= v.len(),
            r@ == glyphs_only(v@).take(k as int),
        decreases v.len() - k,
    {
        push_char(&mut r, v[k].0);
        assert(glyphs_only(v@).take(k + 1) =~= glyphs_only(v@).take(k as int).push(v@[k as int].0));
        k = k + 1;
    }
    assert(glyphs_only(v@).take(v.len() as int) =~= glyphs_only(v@));
    r
}

} // verus!
