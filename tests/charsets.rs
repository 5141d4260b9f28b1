use ascii_art::charset::{select_charset, Charset};
use ascii_art::config::AsciiConfig;
use ascii_art::density::sort_charset_by_density;
use ascii_art::error::AsciiError;

#[test]
fn builtin_ramps() {
    assert_eq!(Charset::SIMPLE.as_str(), " .:-=+*#%@");
    assert_eq!(Charset::DEFAULT.as_str().chars().count(), 70);
    assert_eq!(Charset::DEFAULT.as_str().chars().last(), Some('$'));
}

#[test]
fn active_glyphs_are_never_empty_and_invert_reverses() {
    let mut c = AsciiConfig::default();
    let plain = c.active_glyphs();
    assert!(!plain.is_empty());
    c.invert = true;
    let inverted = c.active_glyphs();
    let mut back = inverted.clone();
    back.reverse();
    assert_eq!(back, plain);
    assert_eq!(inverted[0], '$');
    c.invert = false;
    assert_eq!(c.active_glyphs(), plain);
}

#[test]
fn custom_glyphs_override_named_ramp() {
    let mut c = AsciiConfig::default();
    c.charset = Charset::CUSTOM;
    c.custom_charset = String::from("ab");
    assert_eq!(c.active_glyphs(), vec!['a', 'b']);
}

#[test]
fn charset_names_ignore_case() {
    assert_eq!(Charset::from_name("simple"), Ok(Charset::SIMPLE));
    assert_eq!(Charset::from_name("Default"), Ok(Charset::DEFAULT));
    assert_eq!("SIMPLE".parse::<Charset>(), Ok(Charset::SIMPLE));
    assert_eq!(Charset::from_name("block"), Err(AsciiError::InvalidConfiguration));
    assert_eq!(Charset::from_upper("simple"), Err(AsciiError::InvalidConfiguration));
}

#[test]
fn custom_glyphs_select_custom_charset() {
    assert_eq!(select_charset("nonsense", "#. "), Ok(Charset::CUSTOM));
    assert_eq!(select_charset("simple", ""), Ok(Charset::SIMPLE));
    assert_eq!(select_charset("pixel", ""), Err(AsciiError::InvalidConfiguration));
}

#[test]
fn density_sort_is_ascending() {
    let sorted = sort_charset_by_density(String::from("#. "), vec![120, 12, 0]);
    assert_eq!(sorted, " .#");
}

#[test]
fn density_sort_is_stable_and_keeps_duplicates() {
    let sorted = sort_charset_by_density(String::from("ab.cb"), vec![5, 3, 1, 3, 3]);
    assert_eq!(sorted, ".bcba");
}

#[test]
fn density_sort_is_idempotent() {
    let once = sort_charset_by_density(String::from("%-o@."), vec![50, 8, 30, 60, 4]);
    assert_eq!(once, ".-o%@");
    let twice = sort_charset_by_density(once.clone(), vec![4, 8, 30, 50, 60]);
    assert_eq!(twice, once);
}

#[test]
fn density_sort_of_empty_charset() {
    assert_eq!(sort_charset_by_density(String::new(), Vec::new()), "");
}

#[test]
fn default_config_has_identity_gamma_and_no_custom_glyphs() {
    let c = AsciiConfig::default();
    assert_eq!(c.width, 80);
    assert_eq!(c.height, 0);
    assert_eq!(c.charset, Charset::DEFAULT);
    assert!(c.custom_charset.is_empty());
    for l in 0..256u32 {
        assert_eq!(c.gamma.apply(l), l);
    }
}
