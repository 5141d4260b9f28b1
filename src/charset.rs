//! The built-in glyph ramps and the names that select them.

use vstd::prelude::*;
use crate::error::AsciiError;
use crate::text::{chars_of, same_chars};

verus! {

/// The short built-in ramp, from darkest cell to lightest.
pub open spec fn simple_ramp() -> Seq<char> {
    seq![' ', '.', ':', '-', '=', '+', '*', '#', '%', '@']
}

/// The long built-in ramp, from darkest cell to lightest.
pub open spec fn default_ramp() -> Seq<char> {
    seq![
        ' ', '.', '\'', '`', '^', '"', ',', ':', ';', 'I', 'l', '!', 'i', '>', '<', '~', '+',
        '_', '-', '?', ']', '[', '}', '{', '1', ')', '(', '|', '\\', '/', 't', 'f', 'j', 'r',
        'x', 'n', 'u', 'v', 'c', 'z', 'X', 'Y', 'U', 'J', 'C', 'L', 'Q', '0', 'O', 'Z', 'm',
        'w', 'q', 'p', 'd', 'b', 'k', 'h', 'a', 'o', '*', '#', 'M', 'W', '&', '8', '%', 'B',
        '@', '$',
    ]
}

/// A named glyph ramp, or the mark that the configuration carries its own.
#[derive(Debug, Clone, Copy, PartialEq, Eq, Structural)]
#[allow(non_camel_case_types, clippy::upper_case_acronyms)]
pub enum Charset {
    SIMPLE,
    DEFAULT,
    CUSTOM,
}

/// The glyphs of a named ramp; empty for `CUSTOM`, whose glyphs live in the configuration.
pub open spec fn builtin_glyphs(c: Charset) -> Seq<char> {
    match c {
        Charset::SIMPLE => simple_ramp(),
        Charset::DEFAULT => default_ramp(),
        Charset::CUSTOM => Seq::empty(),
    }
}

/// What a charset name means once it has been upper-cased.
pub open spec fn charset_of_upper(u: Seq<char>) -> Result<Charset, AsciiError> {
    if u == seq!['D', 'E', 'F', 'A', 'U', 'L', 'T'] {
        Ok(Charset::DEFAULT)
    } else if u == seq!['S', 'I', 'M', 'P', 'L', 'E'] {
        Ok(Charset::SIMPLE)
    } else {
        Err(AsciiError::InvalidConfiguration)
    }
}

/// The upper-case form of a string, as `str::to_uppercase` gives it.
pub uninterp spec fn upper_of(s: Seq<char>) -> Seq<char>;

/// Relies on `str::to_uppercase`: the result depends on the characters alone.
#[verifier::external_body]
fn uppercase(s: &str) -> (r: String)
    ensures
        r@ == upper_of(s@),
{
    s.to_uppercase()
}

impl Charset {
    /// The glyphs of a named ramp as a string.
    pub fn as_str(&self) -> (r: &'static str)
        ensures
            r@ == builtin_glyphs(*self),
            *self != Charset::CUSTOM ==> r@.len() > 0,
    {
        match self {
            Charset::SIMPLE => {
                let s = " .:-=+*#%@";
                proof {
                    reveal_strlit(" .:-=+*#%@");
                }
                assert(s@ =~= simple_ramp());
                s
            },
            Charset::DEFAULT => {
                let s =
                    " .'`^\",:;Il!i><~+_-?][}{1)(|\\/tfjrxnuvczXYUJCLQ0OZmwqpdbkhao*#MW&8%B@$";
                proof {
                    reveal_strlit(
                        " .'`^\",:;Il!i><~+_-?][}{1)(|\\/tfjrxnuvczXYUJCLQ0OZmwqpdbkhao*#MW&8%B@$",
                    );
                }
                assert(s@ =~= default_ramp());
                s
            },
            Charset::CUSTOM => {
                let s = "";
                proof {
                    reveal_strlit("");
                }
                assert(s@ =~= Seq::<char>::empty());
                s
            },
        }
    }

    /// Reads an upper-case charset name: `DEFAULT` or `SIMPLE`.
    pub fn from_upper(u: &str) -> (r: Result<Charset, AsciiError>)
        ensures
            r == charset_of_upper(u@),
    {
        let v = chars_of(u);
        let d = chars_of("DEFAULT");
        let s = chars_of("SIMPLE");
        proof {
            reveal_strlit("DEFAULT");
            reveal_strlit("SIMPLE");
        }
        assert(d@ =~= seq!['D', 'E', 'F', 'A', 'U', 'L', 'T']);
        assert(s@ =~= seq!['S', 'I', 'M', 'P', 'L', 'E']);
        if same_chars(&v, &d) {
            Ok(Charset::DEFAULT)
        } else if same_chars(&v, &s) {
            Ok(Charset::SIMPLE)
        } else {
            Err(AsciiError::InvalidConfiguration)
        }
    }

    /// Reads a charset name in any letter case.
    pub fn from_name(s: &str) -> (r: Result<Charset, AsciiError>)
        ensures
            r == charset_of_upper(upper_of(s@)),
    {
        let u = uppercase(s);
        Charset::from_upper(u.as_str())
    }
}

/// The charset that a name and a custom glyph string select: `CUSTOM`
/// whenever custom glyphs are given, else the named ramp in any letter case.
pub fn select_charset(name: &str, custom_charset: &str) -> (r: Result<Charset, AsciiError>)
    ensures
        custom_charset@.len() > 0 ==> r == Ok::<Charset, AsciiError>(Charset::CUSTOM),
        custom_charset@.len() == 0 ==> r == charset_of_upper(upper_of(name@)),
{
    let custom = chars_of(custom_charset);
    if custom.len() > 0 {
        Ok(Charset::CUSTOM)
    } else {
        Charset::from_name(name)
    }
}

impl std::str::FromStr for Charset {
    type Err = AsciiError;

    fn from_str(s: &str) -> (r: Result<Charset, AsciiError>)
        ensures
            r == charset_of_upper(upper_of(s@)),
    {
        Charset::from_name(s)
    }
}

} // verus!
