use video_editor::encode::{encoder_frame_rate, encoder_pts, parse_bitrate, ExportConfig};

#[test]
fn test_parse_bitrate_numeric() {
    assert_eq!(parse_bitrate("5000000"), 5_000_000);
}

#[test]
fn test_parse_bitrate_m_suffix() {
    assert_eq!(parse_bitrate("16M"), 16_000_000);
}

#[test]
fn test_parse_bitrate_k_suffix() {
    assert_eq!(parse_bitrate("192k"), 192_000);
}

#[test]
fn test_parse_bitrate_float_m() {
    assert_eq!(parse_bitrate("2.5M"), 2_500_000);
}

#[test]
fn test_parse_bitrate_float_k() {
    assert_eq!(parse_bitrate("128k"), 128_000);
}

#[test]
fn test_parse_bitrate_invalid_fallback() {
    assert_eq!(parse_bitrate("not_a_number"), 1_000_000);
}

#[test]
fn test_parse_bitrate_empty_fallback() {
    assert_eq!(parse_bitrate(""), 1_000_000);
}

#[test]
fn test_export_config_youtube_1080p() {
    let cfg = ExportConfig::youtube_1080p("/out.mp4");
    assert_eq!(cfg.width, 1920);
    assert_eq!(cfg.height, 1080);
    assert_eq!(cfg.video_bitrate, "16M");
    assert_eq!(cfg.audio_bitrate, "192k");
}

#[test]
fn test_export_config_tiktok() {
    let cfg = ExportConfig::tiktok("/out.mp4");
    assert_eq!(cfg.width, 1080);
    assert_eq!(cfg.height, 1920);
    assert_eq!(cfg.video_bitrate, "8M");
}

#[test]
fn presets_share_codecs_and_frame_rate() {
    let a = ExportConfig::youtube_1080p("/a.mp4");
    let b = ExportConfig::tiktok("/b.mp4");
    assert_eq!(a.frame_rate, 30_000);
    assert_eq!(b.frame_rate, 30_000);
    assert_eq!(a.video_codec, "libx264");
    assert_eq!(b.audio_codec, "aac");
    assert_eq!(b.audio_bitrate, "128k");
    assert_eq!(a.container, "mp4");
    assert_eq!(a.output_path, "/a.mp4");
    assert_eq!(b.output_path, "/b.mp4");
}

#[test]
fn bitrate_numbers_read_like_floats() {
    assert_eq!(parse_bitrate("1e3k"), 1_000_000);
    assert_eq!(parse_bitrate(".5M"), 500_000);
    assert_eq!(parse_bitrate("3.M"), 3_000_000);
    assert_eq!(parse_bitrate("+2M"), 2_000_000);
    assert_eq!(parse_bitrate("1.0005k"), 1_000);
    assert_eq!(parse_bitrate("2.5E-1M"), 250_000);
    assert_eq!(parse_bitrate("0.0000001M"), 0);
}

#[test]
fn bitrate_special_values_convert_like_casts() {
    assert_eq!(parse_bitrate("-2M"), 0);
    assert_eq!(parse_bitrate("infM"), usize::MAX);
    assert_eq!(parse_bitrate("InfinityM"), usize::MAX);
    assert_eq!(parse_bitrate("-infk"), 0);
    assert_eq!(parse_bitrate("NaNM"), 0);
    assert_eq!(parse_bitrate("1e400M"), usize::MAX);
    assert_eq!(parse_bitrate("1e-400M"), 0);
}

#[test]
fn bitrate_unreadable_numbers_fall_back() {
    assert_eq!(parse_bitrate("M"), 1_000_000);
    assert_eq!(parse_bitrate("k"), 1_000);
    assert_eq!(parse_bitrate("1e5xk"), 1_000);
    assert_eq!(parse_bitrate(".M"), 1_000_000);
    assert_eq!(parse_bitrate("1eM"), 1_000_000);
    assert_eq!(parse_bitrate("1.2.3k"), 1_000);
    assert_eq!(parse_bitrate(" 5M"), 1_000_000);
    assert_eq!(parse_bitrate("16m"), 1_000_000);
}

#[test]
fn bitrate_plain_integers() {
    assert_eq!(parse_bitrate("+7"), 7);
    assert_eq!(parse_bitrate("-7"), 1_000_000);
    assert_eq!(parse_bitrate("+"), 1_000_000);
    assert_eq!(parse_bitrate("0"), 0);
    assert_eq!(parse_bitrate("99999999999999999999999999"), 1_000_000);
    assert_eq!(parse_bitrate(&usize::MAX.to_string()), usize::MAX);
}

#[test]
fn encoder_fractions() {
    assert_eq!(encoder_frame_rate(29_970), (29_970, 1000));
    assert_eq!(encoder_frame_rate(u32::MAX), (i32::MAX, 1000));
    assert_eq!(encoder_pts(1_999_999), 1_999);
    assert_eq!(encoder_pts(-1_500), -1);
    assert_eq!(encoder_pts(i64::MIN), i64::MIN / 1000);
}

/// The bit rate as `f64` arithmetic computes it.
fn float_bitrate(s: &str) -> usize {
    if let Some(p) = s.strip_suffix('M') {
        (p.parse::<f64>().unwrap_or(1.0) * 1_000_000.0) as usize
    } else if let Some(p) = s.strip_suffix('k') {
        (p.parse::<f64>().unwrap_or(1.0) * 1_000.0) as usize
    } else {
        s.parse().unwrap_or(1_000_000)
    }
}

#[test]
fn bitrate_products_round_as_f64_does() {
    assert_eq!(parse_bitrate("4.1M"), 4_099_999);
    assert_eq!(parse_bitrate("8.2M"), 8_199_999);
    assert_eq!(parse_bitrate("2.01k"), 2_009);
    assert_eq!(parse_bitrate("0.1k"), 100);
    assert_eq!(parse_bitrate("-5M"), 0);
    assert_eq!(parse_bitrate("xk"), 1_000);
    assert_eq!(parse_bitrate("1e30M"), usize::MAX);
    assert_eq!(parse_bitrate("infM"), usize::MAX);
    assert_eq!(parse_bitrate("NaNk"), 0);
}

#[test]
fn bitrate_matches_float_arithmetic_on_many_settings() {
    let numbers = [
        "0", "1", "2.5", "4.1", "8.2", "2.01", "0.3", "0.7", "1.1", "1.15", "3.3", "12.34",
        "99.99", "0.000001", "0.0000005", "0.0000015", "1e-6", "1.5e-6", "9.999999e-7",
        "1e-13", "2e-13", "123456789.123456789", "9007199254740993", "9007199254740992.5",
        "18446744073709.551615", "18446744073709551.615", "1e19", "9.99e19", "1e20", "0.1e21",
        "4503599627370497.5", "00000012.5000", "1.00000000000000000000000000001",
        "0.29999999999999998889776975", "6.02214076e23", "1e-400", "1e400", "-0", "-0.5",
        ".000000000000000000000000000000000000001e40", "31.4159265358979323846e-1",
    ];
    for n in numbers.iter() {
        for suffix in ["M", "k"].iter() {
            let s = format!("{}{}", n, suffix);
            assert_eq!(parse_bitrate(&s), float_bitrate(&s), "setting {}", s);
        }
    }
    let mut x: u64 = 12345;
    for _ in 0..2000 {
        x = x.wrapping_mul(6364136223846793005).wrapping_add(1442695040888963407);
        let whole = (x >> 40) % 100_000;
        let frac = (x >> 8) % 1_000_000;
        let s = format!("{}.{:06}{}", whole, frac, if x & 1 == 0 { "M" } else { "k" });
        assert_eq!(parse_bitrate(&s), float_bitrate(&s), "setting {}", s);
    }
}
