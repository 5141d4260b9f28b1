use ascii_art::charset::Charset;
use ascii_art::config::{AsciiConfig, GammaCurve};
use ascii_art::error::AsciiError;
use ascii_art::mapper::{convert_image, luminance_to_index, rgb_to_luminance, AsciiMapper};
use ascii_art::raster::{Image, Rgb};

fn white() -> Rgb {
    Rgb { r: 255, g: 255, b: 255 }
}

fn config(width: u32, height: u32) -> AsciiConfig {
    let mut c = AsciiConfig::default();
    c.width = width;
    c.height = height;
    c
}

#[test]
fn white_square_maps_to_lightest_glyph() {
    let img = Image::solid(2, 2, white());
    let mapper = AsciiMapper::new(config(2, 2));
    assert_eq!(mapper.image_to_ascii(&img).unwrap(), "$$\n$$\n");
}

#[test]
fn inverted_white_square_maps_to_space() {
    let img = Image::solid(2, 2, white());
    let mut c = config(2, 2);
    c.invert = true;
    let mapper = AsciiMapper::new(c);
    assert_eq!(mapper.image_to_ascii(&img).unwrap(), "  \n  \n");
}

#[test]
fn solid_image_gives_one_glyph_everywhere() {
    let img = Image::solid(7, 5, Rgb { r: 90, g: 140, b: 30 });
    let out = convert_image(&config(4, 3), &img).unwrap();
    let lines: Vec<&str> = out.lines().collect();
    assert_eq!(lines.len(), 3);
    let first = lines[0].chars().next().unwrap();
    for line in &lines {
        assert_eq!(line.chars().count(), 4);
        assert!(line.chars().all(|c| c == first));
    }
}

#[test]
fn rows_and_columns_match_grid() {
    let mut pixels = Vec::new();
    for i in 0..(9 * 6) {
        let v = (i * 4) as u8;
        pixels.push(Rgb { r: v, g: 255 - v, b: v / 2 });
    }
    let img = Image::from_pixels(9, 6, pixels).unwrap();
    let out = convert_image(&config(5, 4), &img).unwrap();
    assert_eq!(out.matches('\n').count(), 4);
    for line in out.lines() {
        assert_eq!(line.chars().count(), 5);
    }
}

#[test]
fn coloured_rows_hold_width_glyphs_between_escapes() {
    let img = Image::solid(3, 3, Rgb { r: 10, g: 200, b: 30 });
    let mut c = config(3, 2);
    c.color = true;
    let out = convert_image(&c, &img).unwrap();
    assert_eq!(out.matches('\n').count(), 2);
    for line in out.lines() {
        assert_eq!(line.matches("\x1b[0m").count(), 3);
        assert_eq!(line.matches("\x1b[38;2;10;200;30m").count(), 3);
    }
}

#[test]
fn colour_escape_wraps_each_cell() {
    let img = Image::solid(1, 1, Rgb { r: 255, g: 0, b: 0 });
    let mut c = config(1, 1);
    c.color = true;
    let out = convert_image(&c, &img).unwrap();
    let lum = rgb_to_luminance(255, 0, 0) as usize;
    let glyph = c.active_glyphs()[luminance_to_index(lum as u32, 70)];
    assert_eq!(out, format!("\x1b[38;2;255;0;0m{}\x1b[0m\n", glyph));
}

#[test]
fn luminance_weights_channels() {
    assert_eq!(rgb_to_luminance(255, 255, 255), 255);
    assert_eq!(rgb_to_luminance(255, 0, 0), 76);
    assert_eq!(rgb_to_luminance(0, 255, 0), 149);
    assert_eq!(rgb_to_luminance(0, 0, 255), 29);
    assert_eq!(rgb_to_luminance(0, 0, 0), 0);
}

#[test]
fn luminance_index_is_clamped() {
    assert_eq!(luminance_to_index(0, 10), 0);
    assert_eq!(luminance_to_index(128, 10), 5);
    assert_eq!(luminance_to_index(255, 10), 9);
    assert_eq!(luminance_to_index(255, 70), 69);
}

#[test]
fn height_derives_from_aspect_ratio() {
    let img = Image::solid(4, 2, white());
    let out = convert_image(&config(8, 0), &img).unwrap();
    assert_eq!(out.matches('\n').count(), 4);
    let img = Image::solid(3, 1, white());
    let out = convert_image(&config(2, 0), &img).unwrap();
    assert_eq!(out.matches('\n').count(), 1);
}

#[test]
fn zero_width_gives_empty_text() {
    let img = Image::solid(4, 4, white());
    assert_eq!(convert_image(&config(0, 3), &img).unwrap(), "");
}

#[test]
fn upscaling_samples_single_pixels() {
    let pixels = vec![Rgb { r: 0, g: 0, b: 0 }, white()];
    let img = Image::from_pixels(2, 1, pixels).unwrap();
    let out = convert_image(&config(4, 1), &img).unwrap();
    assert_eq!(out, "  $$\n");
}

#[test]
fn block_average_truncates() {
    let pixels = vec![Rgb { r: 0, g: 0, b: 0 }, Rgb { r: 255, g: 255, b: 255 }];
    let img = Image::from_pixels(2, 1, pixels).unwrap();
    let mut c = config(1, 1);
    c.color = true;
    let out = convert_image(&c, &img).unwrap();
    assert!(out.starts_with("\x1b[38;2;127;127;127m"));
}

#[test]
fn identity_gamma_keeps_luminance() {
    let g = GammaCurve::identity();
    for l in 0..256u32 {
        assert_eq!(g.apply(l), l);
    }
}

#[test]
fn gamma_levels_change_the_glyph() {
    let img = Image::solid(1, 1, Rgb { r: 128, g: 128, b: 128 });
    let mut levels = vec![0u8];
    for _ in 1..256 {
        levels.push(255u8);
    }
    let mut c = config(1, 1);
    c.gamma = GammaCurve::from_levels(levels).unwrap();
    assert_eq!(convert_image(&c, &img).unwrap(), "$\n");
}

#[test]
fn gamma_curve_must_rise_from_black_to_white() {
    let mut falling: Vec<u8> = (0..=255u8).collect();
    falling.swap(10, 11);
    assert!(matches!(GammaCurve::from_levels(falling), Err(AsciiError::InvalidConfiguration)));
    let mut no_white: Vec<u8> = (0..=255u8).collect();
    no_white[255] = 254;
    assert!(matches!(GammaCurve::from_levels(no_white), Err(AsciiError::InvalidConfiguration)));
    let mut no_black: Vec<u8> = (0..=255u8).collect();
    no_black[0] = 1;
    assert!(matches!(GammaCurve::from_levels(no_black), Err(AsciiError::InvalidConfiguration)));
    let ok: Vec<u8> = (0..=255u8).collect();
    assert!(GammaCurve::from_levels(ok).is_ok());
}

#[test]
fn gamma_curve_needs_256_levels() {
    assert!(matches!(
        GammaCurve::from_levels(vec![0u8; 10]),
        Err(AsciiError::InvalidConfiguration)
    ));
}

#[test]
fn image_buffer_must_match_size() {
    assert!(Image::from_pixels(2, 2, vec![white(); 3]).is_none());
    assert!(Image::from_pixels(0, 2, Vec::new()).is_none());
    let img = Image::from_pixels(2, 1, vec![white(), Rgb { r: 1, g: 2, b: 3 }]).unwrap();
    assert_eq!(img.get_pixel(1, 0), Rgb { r: 1, g: 2, b: 3 });
}

#[test]
fn simple_charset_mapping() {
    let img = Image::solid(1, 1, white());
    let mut c = config(1, 1);
    c.charset = Charset::SIMPLE;
    assert_eq!(convert_image(&c, &img).unwrap(), "@\n");
}

#[test]
fn custom_charset_mapping() {
    let img = Image::solid(2, 1, Rgb { r: 0, g: 0, b: 0 });
    let mut c = config(2, 1);
    c.charset = Charset::CUSTOM;
    c.custom_charset = String::from("xy");
    assert_eq!(convert_image(&c, &img).unwrap(), "xx\n");
}

#[test]
fn luminance_above_range_clamps_to_last_glyph() {
    assert_eq!(luminance_to_index(1000, 10), 9);
    assert_eq!(luminance_to_index(u32::MAX, 70), 69);
    let mapper = AsciiMapper::new(config(1, 1));
    assert_eq!(mapper.luminance_to_ascii(4000), '$');
    assert_eq!(mapper.luminance_to_ascii(0), ' ');
}
