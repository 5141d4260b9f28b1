//! Recognising the colour escape sequences that the mapping writes into its text.

use vstd::prelude::*;
use crate::raster::Rgb;
use crate::mapper::{color_escape, reset_escape};
use crate::text::{chars_of, decimal, digit, same_chars};

verus! {

/// The pieces of `s` between semicolons, as `str::split(';')` gives them.
pub open spec fn fields(s: Seq<char>) -> Seq<Seq<char>>
    decreases s.len(),
{
    if s.len() == 0 {
        seq![Seq::empty()]
    } else if s.last() == ';' {
        fields(s.drop_last()).push(Seq::empty())
    } else {
        let f = fields(s.drop_last());
        f.update(f.len() - 1, f.last().push(s.last()))
    }
}

pub open spec fn is_digit(c: char) -> bool {
    '0' <= c && c <= '9'
}

/// The value of a string of decimal digits.
pub open spec fn digits_value(d: Seq<char>) -> int
    decreases d.len(),
{
    if d.len() == 0 {
        0
    } else {
        digits_value(d.drop_last()) * 10 + (d.last() as int - 48)
    }
}

/// `s` without a leading plus sign.
pub open spec fn unsigned_part(s: Seq<char>) -> Seq<char> {
    if s.len() > 0 && s[0] == '+' {
        s.drop_first()
    } else {
        s
    }
}

/// Whether every character of `d` is a decimal digit.
pub open spec fn all_digits(d: Seq<char>) -> bool {
    forall|i: int| 0 <= i < d.len() ==> is_digit(#[trigger] d[i])
}

/// What `u8::from_str` reads from `s`: an optional `+`, then at least one
/// decimal digit, the value at most 255.
pub open spec fn u8_value(s: Seq<char>) -> Option<u8> {
    let d = unsigned_part(s);
    if d.len() > 0 && all_digits(d) && digits_value(d) <= 255 {
        Some(digits_value(d) as u8)
    } else {
        None
    }
}

/// The colour that a true-colour foreground sequence `ESC[38;2;R;G;Bm` sets,
/// if `s` is one.
pub open spec fn ansi_color(s: Seq<char>) -> Option<Rgb> {
    let f = fields(s);
    if f.len() == 5 && f[0] == seq!['\x1b', '[', '3', '8'] && f[1] == seq!['2'] && f[4].len() > 0
        && f[4].last() == 'm' && u8_value(f[2]) is Some && u8_value(f[3]) is Some && u8_value(
        f[4].drop_last(),
    ) is Some {
        Some(
            Rgb {
                r: u8_value(f[2])->0,
                g: u8_value(f[3])->0,
                b: u8_value(f[4].drop_last())->0,
            },
        )
    } else {
        None
    }
}

proof fn lemma_fields_nonempty(s: Seq<char>)
    ensures
        fields(s).len() >= 1,
    decreases s.len(),
{
    if s.len() > 0 {
        lemma_fields_nonempty(s.drop_last());
    }
}

/// A longer run of digits is worth at least as much as its prefix.
proof fn lemma_digits_value_grows(d: Seq<char>, i: int)
    requires
        0 <= i <= d.len(),
        forall|k: int| 0 <= k < d.len() ==> is_digit(#[trigger] d[k]),
    ensures
        digits_value(d.take(i)) <= digits_value(d),
        0 <= digits_value(d),
    decreases d.len(),
{
    if d.len() > 0 {
        let p = d.drop_last();
        if i < d.len() {
            assert(p.take(i) =~= d.take(i));
            lemma_digits_value_grows(p, i);
        } else {
            assert(d.take(i) =~= d);
            lemma_digits_value_grows(p, 0);
        }
        assert(digits_value(d) == digits_value(p) * 10 + (d.last() as int - 48));
    }
}

/// The `u8` that the characters `v[lo..hi]` spell, as `u8::from_str` reads it.
fn u8_of_range(v: &Vec<char>, lo: usize, hi: usize) -> (r: Option<u8>)
    requires
        lo <= hi <= v@.len(),
    ensures
        r == u8_value(v@.subrange(lo as int, hi as int)),
{
    let ghost s = v@.subrange(lo as int, hi as int);
    let mut start = lo;
    if lo < hi && v[lo] == '+' {
        start = lo + 1;
    }
    let ghost d = v@.subrange(start as int, hi as int);
    assert(d == unsigned_part(s));
    if start == hi {
        return None;
    }
    let mut val: u32 = 0;
    let mut i: usize = start;
    while i < hi
        invariant
            lo <= start <= i <= hi <= v@.len(),
            d == v@.subrange(start as int, hi as int),
            s == v@.subrange(lo as int, hi as int),
            d == unsigned_part(s),
            forall|k: int| start <= k < i ==> is_digit(#[trigger] v@[k]),
            val as int == digits_value(d.take(i - start)),
            val <= 255,
        decreases hi - i,
    {
        let c = v[i];
        if !('0' <= c && c <= '9') {
            assert(!is_digit(d[i - start]));
            assert(!all_digits(d));
            assert(u8_value(s) is None);
            return None;
        }
        assert(d.take(i - start + 1).drop_last() =~= d.take(i - start));
        let next = val * 10 + (c as u32 - 48);
        assert(d.take(i - start + 1).last() == c);
        assert(next as int == digits_value(d.take(i - start + 1)));
        if next > 255 {
            proof {
                let e = d.take(i - start + 1);
                assert forall|k: int| 0 <= k < e.len() implies is_digit(#[trigger] e[k]) by {
                    assert(e[k] == v@[start + k]);
                }
                if all_digits(d) {
                    lemma_digits_value_grows(d, i - start + 1);
                }
                assert(u8_value(s) is None);
            }
            return None;
        }
        val = next;
        i = i + 1;
    }
    assert(d.take(hi - start) =~= d);
    assert forall|k: int| 0 <= k < d.len() implies is_digit(#[trigger] d[k]) by {
        assert(d[k] == v@[start + k]);
    }
    Some(val as u8)
}

/// Splits `v[lo..hi]` at semicolons.
fn split_fields(v: &Vec<char>, lo: usize, hi: usize) -> (fs: Vec<Vec<char>>)
    requires
        lo <= hi <= v@.len(),
    ensures
        fs@.len() == fields(v@.subrange(lo as int, hi as int)).len(),
        forall|k: int| 0 <= k < fs@.len() ==> #[trigger] fs@[k]@ == fields(v@.subrange(lo as int, hi as int))[k],
{
    let ghost s = v@.subrange(lo as int, hi as int);
    let mut fs: Vec<Vec<char>> = Vec::new();
    fs.push(Vec::new());
    assert(s.take(0) =~= Seq::<char>::empty());
    let mut i: usize = lo;
    while i < hi
        invariant
            lo <= i <= hi <= v@.len(),
            s == v@.subrange(lo as int, hi as int),
            fs@.len() == fields(s.take(i - lo)).len(),
            fs@.len() >= 1,
            forall|k: int| 0 <= k < fs@.len() ==> #[trigger] fs@[k]@ == fields(s.take(i - lo))[k],
        decreases hi - i,
    {
        let c = v[i];
        let ghost t = s.take(i - lo + 1);
        assert(t.drop_last() =~= s.take(i - lo));
        assert(t.last() == c);
        if c == ';' {
            fs.push(Vec::new());
        } else {
            let mut last = fs.pop().unwrap();
            last.push(c);
            fs.push(last);
        }
        i = i + 1;
        proof {
            lemma_fields_nonempty(s.take(i - lo));
            assert forall|k: int| 0 <= k < fs@.len() implies #[trigger] fs@[k]@ == fields(s.take(i - lo))[k] by {
            }
        }
    }
    assert(s.take(hi - lo) =~= s);
    fs
}

/// The colour that the sequence `v[lo..hi]` sets, if it is a true-colour
/// foreground sequence.
pub(crate) fn color_of_range(v: &Vec<char>, lo: usize, hi: usize) -> (r: Option<Rgb>)
    requires
        lo <= hi <= v@.len(),
    ensures
        r == ansi_color(v@.subrange(lo as int, hi as int)),
{
    let ghost s = v@.subrange(lo as int, hi as int);
    let fs = split_fields(v, lo, hi);
    if fs.len() != 5 {
        return None;
    }
    let head = chars_of("\x1b[38");
    let two = chars_of("2");
    proof {
        reveal_strlit("\x1b[38");
        reveal_strlit("2");
    }
    assert(head@ =~= seq!['\x1b', '[', '3', '8']);
    assert(two@ =~= seq!['2']);
    assert(fs@[0]@ == fields(s)[0]);
    assert(fs@[1]@ == fields(s)[1]);
    assert(fs@[2]@ == fields(s)[2]);
    assert(fs@[3]@ == fields(s)[3]);
    assert(fs@[4]@ == fields(s)[4]);
    if !same_chars(&fs[0], &head) || !same_chars(&fs[1], &two) {
        return None;
    }
    let last = &fs[4];
    if last.len() == 0 || last[last.len() - 1] != 'm' {
        return None;
    }
    assert(fs@[2]@.subrange(0, fs@[2]@.len() as int) =~= fs@[2]@);
    assert(fs@[3]@.subrange(0, fs@[3]@.len() as int) =~= fs@[3]@);
    assert(last@.subrange(0, last@.len() - 1) =~= last@.drop_last());
    let r = u8_of_range(&fs[2], 0, fs[2].len());
    let g = u8_of_range(&fs[3], 0, fs[3].len());
    let b = u8_of_range(last, 0, last.len() - 1);
    match (r, g, b) {
        (Some(r), Some(g), Some(b)) => Some(Rgb { r, g, b }),
        _ => None,
    }
}

/// The colour that a true-colour foreground sequence `ESC[38;2;R;G;Bm` sets,
/// if `seq` is one.
pub fn parse_ansi_color(seq: &str) -> (r: Option<Rgb>)
    ensures
        r == ansi_color(seq@),
{
    let v = chars_of(seq);
    assert(v@.subrange(0, v@.len() as int) =~= v@);
    color_of_range(&v, 0, v.len())
}

/// Whether `seq` is the colour reset sequence `ESC[0m`.
pub fn is_reset_sequence(seq: &str) -> (r: bool)
    ensures
        r == (seq@ == reset_escape()),
{
    let v = chars_of(seq);
    let reset = chars_of("\x1b[0m");
    proof {
        reveal_strlit("\x1b[0m");
    }
    assert(reset@ =~= reset_escape());
    same_chars(&v, &reset)
}

/// Appending text without semicolons extends the last field.
proof fn lemma_fields_extend(s: Seq<char>, t: Seq<char>)
    requires
        forall|i: int| 0 <= i < t.len() ==> t[i] != ';',
    ensures
        fields(s + t) == fields(s).update(fields(s).len() - 1, fields(s).last() + t),
    decreases t.len(),
{
    lemma_fields_nonempty(s);
    let f = fields(s);
    if t.len() == 0 {
        assert(s + t =~= s);
        assert(f.last() + t =~= f.last());
        assert(f.update(f.len() - 1, f.last()) =~= f);
    } else {
        let u = t.drop_last();
        lemma_fields_extend(s, u);
        assert((s + t).drop_last() =~= s + u);
        assert((s + t).last() == t.last());
        let c = t.last();
        assert(c != ';');
        let g = fields(s + u);
        assert(g == f.update(f.len() - 1, f.last() + u));
        assert(g.len() == f.len());
        assert(g.last() == f.last() + u);
        assert(fields(s + t) == g.update(g.len() - 1, g.last().push(c)));
        assert((f.last() + u).push(c) =~= f.last() + t);
        assert(fields(s + t) =~= f.update(f.len() - 1, f.last() + t));
    }
}

/// Appending a semicolon opens an empty field.
proof fn lemma_fields_semi(s: Seq<char>)
    ensures
        fields(s.push(';')) == fields(s).push(Seq::empty()),
{
    assert(s.push(';').drop_last() =~= s);
}

proof fn lemma_digits_value_of_decimal(n: nat)
    ensures
        digits_value(decimal(n)) == n,
        decimal(n).len() > 0,
    decreases n,
{
    let k = (n % 10) as int;
    lemma_digit_code(k);
    if n >= 10 {
        lemma_digits_value_of_decimal(n / 10);
        let p = decimal(n / 10);
        assert(decimal(n).drop_last() =~= p);
        assert(decimal(n).last() == digit(k));
        assert(digits_value(decimal(n)) == digits_value(p) * 10 + (digit(k) as int - 48));
        assert((n / 10) as int * 10 + k == n);
    } else {
        assert(decimal(n).drop_last() =~= Seq::<char>::empty());
        assert(decimal(n).last() == digit(k));
        assert(digits_value(decimal(n)) == digits_value(Seq::<char>::empty()) * 10 + (digit(k) as int
            - 48));
    }
}

proof fn lemma_digit_code(k: int)
    requires
        0 <= k < 10,
    ensures
        digit(k) as int == 48 + k,
{
}

/// The decimal digits of a number are digits.
pub proof fn lemma_decimal_digits(n: nat)
    ensures
        all_digits(decimal(n)),
    decreases n,
{
    if n >= 10 {
        lemma_decimal_digits(n / 10);
        let p = decimal(n / 10);
        assert forall|i: int| 0 <= i < decimal(n).len() implies is_digit(#[trigger] decimal(n)[i]) by {
            if i < p.len() {
                assert(decimal(n)[i] == p[i]);
            }
        }
    }
}

/// The decimal digits of a channel value read back as that value.
proof fn lemma_u8_of_decimal(v: u8)
    ensures
        u8_value(decimal(v as nat)) == Some(v),
{
    lemma_digits_value_of_decimal(v as nat);
    lemma_decimal_digits(v as nat);
    let d = decimal(v as nat);
    assert(is_digit(d[0]));
    assert(unsigned_part(d) == d);
}

proof fn lemma_no_semicolon_in_decimal(n: nat)
    ensures
        forall|i: int| 0 <= i < decimal(n).len() ==> decimal(n)[i] != ';',
{
    lemma_decimal_digits(n);
    assert forall|i: int| 0 <= i < decimal(n).len() implies decimal(n)[i] != ';' by {
        assert(is_digit(decimal(n)[i]));
    }
}

/// The colour sequence that the mapping writes for a cell reads back as that
/// cell's colour.
pub proof fn lemma_color_escape_round_trip(r: u8, g: u8, b: u8)
    ensures
        ansi_color(color_escape(r as int, g as int, b as int)) == Some(Rgb { r, g, b }),
{
    let head = seq!['\x1b', '[', '3', '8'];
    let dr = decimal(r as nat);
    let dg = decimal(g as nat);
    let db = decimal(b as nat);
    lemma_no_semicolon_in_decimal(r as nat);
    lemma_no_semicolon_in_decimal(g as nat);
    lemma_no_semicolon_in_decimal(b as nat);
    let e = color_escape(r as int, g as int, b as int);
    let s0 = Seq::<char>::empty();
    assert(fields(s0) == seq![Seq::<char>::empty()]);
    lemma_fields_extend(s0, head);
    assert(s0 + head =~= head);
    assert(fields(head) =~= seq![head]);
    lemma_fields_semi(head);
    let s1 = head.push(';');
    lemma_fields_extend(s1, seq!['2']);
    let s2 = (s1 + seq!['2']).push(';');
    lemma_fields_semi(s1 + seq!['2']);
    assert(fields(s2) =~= seq![head, seq!['2'], Seq::<char>::empty()]);
    lemma_fields_extend(s2, dr);
    let s3 = (s2 + dr).push(';');
    lemma_fields_semi(s2 + dr);
    assert(fields(s3) =~= seq![head, seq!['2'], dr, Seq::<char>::empty()]);
    lemma_fields_extend(s3, dg);
    let s4 = (s3 + dg).push(';');
    lemma_fields_semi(s3 + dg);
    assert(fields(s4) =~= seq![head, seq!['2'], dr, dg, Seq::<char>::empty()]);
    let tail = db.push('m');
    assert forall|i: int| 0 <= i < tail.len() implies tail[i] != ';' by {
        if i < db.len() {
            assert(tail[i] == db[i]);
        }
    }
    lemma_fields_extend(s4, tail);
    assert(e =~= s4 + tail);
    assert(fields(e) =~= seq![head, seq!['2'], dr, dg, tail]);
    assert(tail.drop_last() =~= db);
    lemma_u8_of_decimal(r);
    lemma_u8_of_decimal(g);
    lemma_u8_of_decimal(b);
}

} // verus!
