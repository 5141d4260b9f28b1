use ascii_art::charset::Charset;
use ascii_art::config::AsciiConfig;
use ascii_art::error::AsciiError;
use ascii_art::output::{reported_height, HtmlFormat, ImageFormat, OutputFormat, OutputHandler, TxtFormat};
use ascii_art::progress::format_duration;

#[test]
fn extensions_select_formats() {
    assert!(matches!(OutputFormat::for_extension(None), Ok(OutputFormat::Txt(_))));
    assert!(matches!(OutputFormat::for_extension(Some("json")), Ok(OutputFormat::Json(_))));
    assert!(matches!(OutputFormat::for_extension(Some("html")), Ok(OutputFormat::Html(_))));
    match OutputFormat::for_extension(Some("jpeg")) {
        Ok(OutputFormat::Image(i)) => assert_eq!(i.file_extension(), "jpeg"),
        _ => panic!("expected an image format"),
    }
    match OutputFormat::for_extension(Some("bmp")) {
        Err(AsciiError::UnsupportedOutputExtension(e)) => assert_eq!(e, "bmp"),
        _ => panic!("expected a refusal"),
    }
}

#[test]
fn path_without_extension_becomes_text() {
    let (h, p) = OutputHandler::from_path(String::from("out/art")).unwrap();
    assert!(matches!(h.format, OutputFormat::Txt(_)));
    assert_eq!(p, "out/art.txt");
    let (h, p) = OutputHandler::from_path(String::from("art.png")).unwrap();
    assert!(matches!(h.format, OutputFormat::Image(_)));
    assert_eq!(p, "art.png");
    assert!(matches!(
        OutputHandler::from_path(String::from("art.gifx")),
        Err(AsciiError::UnsupportedOutputExtension(_))
    ));
}

#[test]
fn image_extension_defaults_to_png() {
    let f = ImageFormat { extension: String::from("webp") };
    assert_eq!(f.file_extension(), "png");
    assert_eq!(TxtFormat.file_extension(), "txt");
}

#[test]
fn text_document_has_footer() {
    let mut c = AsciiConfig::default();
    c.charset = Charset::SIMPLE;
    c.color = true;
    let doc = TxtFormat.document("ab\n", &c, "1.2.3");
    let expected = format!(
        "ab\n\n{}\nGenerated by ASCII Art Generator v1.2.3\nCharset:  .:-=+*#%@, Enable Color: true, Invert Output: false\n",
        "-".repeat(50)
    );
    assert_eq!(doc, expected);
}

#[test]
fn html_body_escapes_plain_text() {
    assert_eq!(HtmlFormat.body("<a&b>", false).unwrap(), "&lt;a&amp;b&gt;");
}

#[test]
fn html_body_converts_colour() {
    let body = HtmlFormat.body("\x1b[38;2;255;0;0mx\x1b[0m", true).unwrap();
    assert!(body.contains('x'));
    assert!(!body.contains('\x1b'));
}

#[test]
fn reported_height_prefers_configured() {
    let mut c = AsciiConfig::default();
    assert_eq!(reported_height("a\nb\n", &c), 2);
    c.height = 7;
    assert_eq!(reported_height("a\nb\n", &c), 7);
}

#[test]
fn durations_read_naturally() {
    assert_eq!(format_duration(75, 500_000_000), "1m15.50s");
    assert_eq!(format_duration(120, 0), "2m");
    assert_eq!(format_duration(3, 125_000_000), "3.12s");
    assert_eq!(format_duration(3, 126_000_000), "3.13s");
    assert_eq!(format_duration(0, 1_500_000), "1.50ms");
    assert_eq!(format_duration(0, 2_000), "2\u{3bc}s");
    assert_eq!(format_duration(0, 7), "7ns");
    assert_eq!(format_duration(2, 500_000_000), "2.50s");
}
