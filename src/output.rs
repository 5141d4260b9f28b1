//! The output formats, chosen by file extension, and the text-based documents.

use vstd::prelude::*;
use crate::charset::{Charset, builtin_glyphs};
use crate::config::AsciiConfig;
use crate::error::AsciiError;
use crate::text::{chars_of, push_char, same_chars};
use crate::render::{count_lines, newline_count};

verus! {

/// Plain text with a footer.
#[derive(Debug, Clone, Copy, PartialEq, Eq, Structural)]
pub struct TxtFormat;

/// A JSON document with the settings and the text.
#[derive(Debug, Clone, Copy, PartialEq, Eq, Structural)]
pub struct JsonFormat;

/// A styled HTML page.
#[derive(Debug, Clone, Copy, PartialEq, Eq, Structural)]
pub struct HtmlFormat;

/// A PNG or JPEG rendering of the text.
pub struct ImageFormat {
    pub extension: String,
}

pub open spec fn txt_ext() -> Seq<char> {
    seq!['t', 'x', 't']
}

pub open spec fn json_ext() -> Seq<char> {
    seq!['j', 's', 'o', 'n']
}

pub open spec fn html_ext() -> Seq<char> {
    seq!['h', 't', 'm', 'l']
}

pub open spec fn png_ext() -> Seq<char> {
    seq!['p', 'n', 'g']
}

pub open spec fn jpg_ext() -> Seq<char> {
    seq!['j', 'p', 'g']
}

pub open spec fn jpeg_ext() -> Seq<char> {
    seq!['j', 'p', 'e', 'g']
}

/// The extension an image is written with: its own when it is `jpg`, `jpeg`
/// or `png`, else `png`.
pub open spec fn image_ext_of(e: Seq<char>) -> Seq<char> {
    if e == jpg_ext() || e == jpeg_ext() {
        e
    } else {
        png_ext()
    }
}

/// Whether `s` spells exactly the characters of `lit`.
fn is_word(s: &str, lit: &str) -> (r: bool)
    ensures
        r == (s@ == lit@),
{
    let a = chars_of(s);
    let b = chars_of(lit);
    same_chars(&a, &b)
}

impl TxtFormat {
    pub fn file_extension(&self) -> (r: &'static str)
        ensures
            r@ == txt_ext(),
    {
        proof {
            reveal_strlit("txt");
        }
        let r = "txt";
        assert(r@ =~= txt_ext());
        r
    }
}

impl JsonFormat {
    pub fn file_extension(&self) -> (r: &'static str)
        ensures
            r@ == json_ext(),
    {
        proof {
            reveal_strlit("json");
        }
        let r = "json";
        assert(r@ =~= json_ext());
        r
    }
}

impl HtmlFormat {
    pub fn file_extension(&self) -> (r: &'static str)
        ensures
            r@ == html_ext(),
    {
        proof {
            reveal_strlit("html");
        }
        let r = "html";
        assert(r@ =~= html_ext());
        r
    }
}

impl ImageFormat {
    pub fn file_extension(&self) -> (r: &'static str)
        ensures
            r@ == image_ext_of(self.extension@),
    {
        proof {
            reveal_strlit("jpg");
            reveal_strlit("jpeg");
            reveal_strlit("png");
        }
        if is_word(self.extension.as_str(), "jpg") {
            assert("jpg"@ =~= jpg_ext());
            "jpg"
        } else if is_word(self.extension.as_str(), "jpeg") {
            assert("jpeg"@ =~= jpeg_ext());
            "jpeg"
        } else {
            assert("jpg"@ =~= jpg_ext());
            assert("jpeg"@ =~= jpeg_ext());
            assert("png"@ =~= png_ext());
            "png"
        }
    }
}

/// The closed set of output formats.
pub enum OutputFormat {
    Txt(TxtFormat),
    Json(JsonFormat),
    Html(HtmlFormat),
    Image(ImageFormat),
}

/// Which format an extension selects; `None` stands for a path without one.
pub open spec fn format_kind(ext: Option<Seq<char>>) -> Result<int, Seq<char>> {
    match ext {
        None => Ok(0),
        Some(e) => if e == txt_ext() {
            Ok(0)
        } else if e == json_ext() {
            Ok(1)
        } else if e == html_ext() {
            Ok(2)
        } else if e == png_ext() || e == jpg_ext() || e == jpeg_ext() {
            Ok(3)
        } else {
            Err(e)
        },
    }
}

impl OutputFormat {
    pub open spec fn kind(&self) -> int {
        match self {
            OutputFormat::Txt(_) => 0,
            OutputFormat::Json(_) => 1,
            OutputFormat::Html(_) => 2,
            OutputFormat::Image(_) => 3,
        }
    }

    /// The format that a path's extension selects: text without one; text,
    /// JSON, HTML, or an image for `txt`, `json`, `html`, `png`, `jpg` and
    /// `jpeg`; any other is refused, naming it.
    pub fn for_extension(ext: Option<&str>) -> (r: Result<OutputFormat, AsciiError>)
        ensures
            ext is None ==> (r matches Ok(f) && f.kind() == 0),
            ext matches Some(e) ==> match format_kind(Some(e@)) {
                Ok(k) => r matches Ok(f) && f.kind() == k && (k == 3 ==> (f matches OutputFormat::Image(i) && i.extension@ == e@)),
                Err(bad) => r matches Err(AsciiError::UnsupportedOutputExtension(n)) && n@ == bad,
            },
    {
        proof {
            reveal_strlit("txt");
            reveal_strlit("json");
            reveal_strlit("html");
            reveal_strlit("png");
            reveal_strlit("jpg");
            reveal_strlit("jpeg");
        }
        assert("txt"@ =~= txt_ext());
        assert("json"@ =~= json_ext());
        assert("html"@ =~= html_ext());
        assert("png"@ =~= png_ext());
        assert("jpg"@ =~= jpg_ext());
        assert("jpeg"@ =~= jpeg_ext());
        match ext {
            None => Ok(OutputFormat::Txt(TxtFormat)),
            Some(e) => {
                if is_word(e, "txt") {
                    Ok(OutputFormat::Txt(TxtFormat))
                } else if is_word(e, "json") {
                    Ok(OutputFormat::Json(JsonFormat))
                } else if is_word(e, "html") {
                    Ok(OutputFormat::Html(HtmlFormat))
                } else if is_word(e, "png") || is_word(e, "jpg") || is_word(e, "jpeg") {
                    Ok(OutputFormat::Image(ImageFormat { extension: String::from_str(e) }))
                } else {
                    Err(AsciiError::UnsupportedOutputExtension(String::from_str(e)))
                }
            },
        }
    }
}

/// A path's extension, as `Path::extension` finds it.
pub uninterp spec fn extension_of(p: Seq<char>) -> Option<Seq<char>>;

/// A path with its extension set to `e`, as `PathBuf::set_extension` makes it.
pub uninterp spec fn path_with_extension_of(p: Seq<char>, e: Seq<char>) -> Seq<char>;

/// The characters of an optional string.
pub open spec fn opt_view(o: Option<String>) -> Option<Seq<char>> {
    match o {
        Some(s) => Some(s@),
        None => None,
    }
}

/// Relies on `std::path::Path::extension`: the part of the file name after
/// its last dot, if the name has one past its first character.
#[verifier::external_body]
fn path_extension(p: &str) -> (r: Option<String>)
    ensures
        opt_view(r) == extension_of(p@),
{
    match std::path::Path::new(p).extension() {
        Some(e) => Some(e.to_string_lossy().into_owned()),
        None => None,
    }
}

/// Relies on `std::path::PathBuf::set_extension`: the path with extension `e`.
/// The call panics on an extension holding a path separator, which is kept out.
#[verifier::external_body]
fn path_with_extension(p: &str, e: &str) -> (r: String)
    requires
        forall|i: int| 0 <= i < e@.len() ==> e@[i] != '/' && e@[i] != '\\',
    ensures
        r@ == path_with_extension_of(p@, e@),
{
    let mut path = std::path::PathBuf::from(p);
    path.set_extension(e);
    path.to_string_lossy().into_owned()
}

/// Writes character art in one of the output formats.
pub struct OutputHandler {
    pub format: OutputFormat,
}

impl OutputHandler {
    pub fn new(format: OutputFormat) -> (r: OutputHandler)
        ensures
            r.format == format,
    {
        OutputHandler { format }
    }

    /// The handler for an output path and the path to write: a path without
    /// an extension gets `.txt` and the text format; otherwise the extension
    /// selects the format, as [`OutputFormat::for_extension`] says.
    pub fn from_path(output_path: String) -> (r: Result<(OutputHandler, String), AsciiError>)
        ensures
            extension_of(output_path@) is None ==> (r matches Ok((h, p)) && h.format.kind() == 0
                && p@ == path_with_extension_of(output_path@, txt_ext())),
            extension_of(output_path@) matches Some(e) ==> match format_kind(Some(e)) {
                Ok(k) => r matches Ok((h, p)) && h.format.kind() == k && p@ == output_path@,
                Err(bad) => r matches Err(AsciiError::UnsupportedOutputExtension(n)) && n@ == bad,
            },
    {
        let ext = path_extension(output_path.as_str());
        match ext {
            None => {
                let t = TxtFormat;
                let ext = t.file_extension();
                assert(forall|i: int| 0 <= i < ext@.len() ==> ext@[i] != '/' && ext@[i] != '\\');
                let path = path_with_extension(output_path.as_str(), ext);
                Ok((OutputHandler { format: OutputFormat::Txt(t) }, path))
            },
            Some(e) => {
                match OutputFormat::for_extension(Some(e.as_str())) {
                    Ok(format) => Ok((OutputHandler { format }, output_path)),
                    Err(err) => Err(err),
                }
            },
        }
    }
}

/// The glyphs a configuration names: its custom glyphs, or its built-in ramp.
pub open spec fn charset_text(cfg: &AsciiConfig) -> Seq<char> {
    if cfg.charset == Charset::CUSTOM {
        cfg.custom_charset@
    } else {
        builtin_glyphs(cfg.charset)
    }
}

/// How a flag reads in a document.
pub open spec fn bool_text(b: bool) -> Seq<char> {
    if b {
        seq!['t', 'r', 'u', 'e']
    } else {
        seq!['f', 'a', 'l', 's', 'e']
    }
}

/// `n` dashes.
pub open spec fn dashes(n: nat) -> Seq<char> {
    Seq::new(n, |i: int| '-')
}

/// The plain-text document: the art, a separator line of 50 dashes, the
/// generator's name and version, and the charset, colour and inversion.
pub open spec fn txt_document(art: Seq<char>, cfg: &AsciiConfig, version: Seq<char>) -> Seq<char> {
    art + seq!['\n'] + dashes(50) + seq!['\n'] + "Generated by ASCII Art Generator v"@ + version
        + seq!['\n'] + "Charset: "@ + charset_text(cfg) + ", Enable Color: "@ + bool_text(cfg.color)
        + ", Invert Output: "@ + bool_text(cfg.invert) + seq!['\n']
}

/// Appends how a flag reads.
fn push_bool(s: &mut String, b: bool)
    ensures
        final(s)@ == old(s)@ + bool_text(b),
{
    let ghost s0 = s@;
    if b {
        push_char(s, 't');
        push_char(s, 'r');
        push_char(s, 'u');
        push_char(s, 'e');
    } else {
        push_char(s, 'f');
        push_char(s, 'a');
        push_char(s, 'l');
        push_char(s, 's');
        push_char(s, 'e');
    }
    assert(s@ =~= s0 + bool_text(b));
}

impl TxtFormat {
    /// The plain-text document for `ascii_art`; see [`txt_document`].
    pub fn document(&self, ascii_art: &str, config: &AsciiConfig, version: &str) -> (r: String)
        ensures
            r@ == txt_document(ascii_art@, config, version@),
    {
        let mut s = String::from_str(ascii_art);
        push_char(&mut s, '\n');
        let mut k: u32 = 0;
        let ghost head = s@;
        while k < 50
            invariant
                k <= 50,
                s@ == head + dashes(k as nat),
            decreases 50 - k,
        {
            push_char(&mut s, '-');
            assert(s@ =~= head + dashes((k + 1) as nat));
            k = k + 1;
        }
        push_char(&mut s, '\n');
        s.append("Generated by ASCII Art Generator v");
        s.append(version);
        push_char(&mut s, '\n');
        s.append("Charset: ");
        if config.charset == Charset::CUSTOM {
            s.append(config.custom_charset.as_str());
        } else {
            s.append(config.charset.as_str());
        }
        s.append(", Enable Color: ");
        push_bool(&mut s, config.color);
        s.append(", Invert Output: ");
        push_bool(&mut s, config.invert);
        push_char(&mut s, '\n');
        assert(s@ =~= txt_document(ascii_art@, config, version@));
        s
    }
}

/// How one character reads in HTML text: `&`, `<` and `>` become entities.
pub open spec fn html_char(c: char) -> Seq<char> {
    if c == '&' {
        seq!['&', 'a', 'm', 'p', ';']
    } else if c == '<' {
        seq!['&', 'l', 't', ';']
    } else if c == '>' {
        seq!['&', 'g', 't', ';']
    } else {
        seq![c]
    }
}

/// Text made safe to stand between HTML tags.
pub open spec fn html_text(s: Seq<char>) -> Seq<char>
    decreases s.len(),
{
    if s.len() == 0 {
        Seq::empty()
    } else {
        html_text(s.drop_last()) + html_char(s.last())
    }
}

/// What `ansi_to_html` makes of coloured text, with escaping and tag
/// optimisation on; `None` where it reports an error.
pub uninterp spec fn ansi_html_of(s: Seq<char>) -> Option<Seq<char>>;

/// Relies on `html_escape::encode_text`: `&`, `<` and `>` become `&amp;`,
/// `&lt;` and `&gt;`; every other character stays.
#[verifier::external_body]
fn encode_html_text(s: &str) -> (r: String)
    ensures
        r@ == html_text(s@),
{
    html_escape::encode_text(s).into_owned()
}

/// Relies on `ansi_to_html::Converter::convert` with the default options:
/// the HTML for text with ANSI escape sequences, or an error.
#[verifier::external_body]
fn ansi_to_html_text(s: &str) -> (r: Option<String>)
    ensures
        opt_view(r) == ansi_html_of(s@),
{
    match ansi_to_html::Converter::new().skip_escape(false).skip_optimize(false).convert(s) {
        Ok(h) => Some(h),
        Err(_) => None,
    }
}

impl HtmlFormat {
    /// The body of the HTML page: coloured art converted to styled HTML, or
    /// plain art with its special characters escaped. Refused when the
    /// conversion reports an error.
    pub fn body(&self, ascii_art: &str, color: bool) -> (r: Result<String, AsciiError>)
        ensures
            !color ==> (r matches Ok(s) && s@ == html_text(ascii_art@)),
            color && ansi_html_of(ascii_art@) is Some ==> (r matches Ok(s) && s@ == ansi_html_of(
                ascii_art@,
            )->0),
            color && ansi_html_of(ascii_art@) is None ==> r == Err::<String, AsciiError>(
                AsciiError::EncodeFailure,
            ),
    {
        if color {
            match ansi_to_html_text(ascii_art) {
                Some(h) => Ok(h),
                None => Err(AsciiError::EncodeFailure),
            }
        } else {
            Ok(encode_html_text(ascii_art))
        }
    }
}

/// The height a document reports: the configured one, or when it is derived,
/// the lines of the art as [`count_lines`] counts them.
pub fn reported_height(ascii_art: &str, config: &AsciiConfig) -> (h: u32)
    ensures
        config.height != 0 ==> h == config.height,
        config.height == 0 && ascii_art@.len() == 0 ==> h == 0,
        config.height == 0 && ascii_art@.len() > 0 && newline_count(ascii_art@) <= u32::MAX ==> h
            == newline_count(ascii_art@),
{
    if config.height == 0 {
        count_lines(ascii_art)
    } else {
        config.height
    }
}

} // verus!
