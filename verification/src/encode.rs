use vstd::prelude::*;

use crate::binary64::lemma_whole_amounts_exact;
use crate::numtext::{
    all_digits, chars_of, digits_value, float_text, lemma_digits_read_as_float, lemma_pow10_small,
    parse_scaled_float, parse_usize_text, scaled_amount, usize_text_value,
};
use crate::timeline::Time;

verus! {

/// How a timeline is written out: frame size, frame rate (in frames per
/// thousand seconds), bit rates, codecs, container and output file.
#[derive(Debug)]
pub struct ExportConfig {
    pub width: u32,
    pub height: u32,
    pub frame_rate: u32,
    pub video_bitrate: String,
    pub audio_bitrate: String,
    pub video_codec: String,
    pub audio_codec: String,
    pub container: String,
    pub output_path: String,
}

impl Clone for ExportConfig {
    fn clone(&self) -> (r: Self)
        ensures
            r == *self,
    {
        ExportConfig {
            width: self.width,
            height: self.height,
            frame_rate: self.frame_rate,
            video_bitrate: self.video_bitrate.clone(),
            audio_bitrate: self.audio_bitrate.clone(),
            video_codec: self.video_codec.clone(),
            audio_codec: self.audio_codec.clone(),
            container: self.container.clone(),
            output_path: self.output_path.clone(),
        }
    }
}

impl ExportConfig {
    /// 1920x1080 at 30 frames per second, H.264 at 16M with AAC at 192k, in MP4.
    pub fn youtube_1080p(output_path: &str) -> (r: Self)
        ensures
            r.width == 1920,
            r.height == 1080,
            r.frame_rate == 30_000,
            r.video_bitrate@ == "16M"@,
            r.audio_bitrate@ == "192k"@,
            r.video_codec@ == "libx264"@,
            r.audio_codec@ == "aac"@,
            r.container@ == "mp4"@,
            r.output_path@ == output_path@,
    {
        ExportConfig {
            width: 1920,
            height: 1080,
            frame_rate: 30_000,
            video_bitrate: String::from_str("16M"),
            audio_bitrate: String::from_str("192k"),
            video_codec: String::from_str("libx264"),
            audio_codec: String::from_str("aac"),
            container: String::from_str("mp4"),
            output_path: String::from_str(output_path),
        }
    }

    /// 1080x1920 (vertical) at 30 frames per second, H.264 at 8M with AAC at
    /// 128k, in MP4.
    pub fn tiktok(output_path: &str) -> (r: Self)
        ensures
            r.width == 1080,
            r.height == 1920,
            r.frame_rate == 30_000,
            r.video_bitrate@ == "8M"@,
            r.audio_bitrate@ == "128k"@,
            r.video_codec@ == "libx264"@,
            r.audio_codec@ == "aac"@,
            r.container@ == "mp4"@,
            r.output_path@ == output_path@,
    {
        ExportConfig {
            width: 1080,
            height: 1920,
            frame_rate: 30_000,
            video_bitrate: String::from_str("8M"),
            audio_bitrate: String::from_str("128k"),
            video_codec: String::from_str("libx264"),
            audio_codec: String::from_str("aac"),
            container: String::from_str("mp4"),
            output_path: String::from_str(output_path),
        }
    }
}

#[derive(Debug)]
pub enum EncodeError {
    OpenFailed(String),
    WriteFailed(String),
    FinalizeFailed(String),
}

/// The bit rate that a setting such as "16M", "192k" or "5000000" names:
/// a number followed by 'M' counts millions, one followed by 'k' counts
/// thousands, and a bare unsigned integer counts bits per second. The
/// number before 'M' or 'k' is read as `f64`'s `from_str` reads it and
/// multiplied by 1e6 or 1e3 in `f64` arithmetic, then converted to `usize`
/// (see `scaled_amount`): "4.1M" names 4_099_999, since the `f64` product
/// is 4099999.9999999995. Text that does not read as a number falls back
/// to 1 (million or thousand), and a bare setting that does not read as an
/// integer to 1_000_000.
pub open spec fn bitrate_value(s: Seq<char>) -> nat {
    if s.len() > 0 && s.last() == 'M' {
        match float_text(s.drop_last()) {
            Some(t) => scaled_amount(t, 6),
            None => 1_000_000,
        }
    } else if s.len() > 0 && s.last() == 'k' {
        match float_text(s.drop_last()) {
            Some(t) => scaled_amount(t, 3),
            None => 1_000,
        }
    } else {
        match usize_text_value(s) {
            Some(v) => v,
            None => 1_000_000,
        }
    }
}

/// The bit rate that a setting names (see `bitrate_value`). No string is
/// longer than `isize::MAX` bytes.
pub fn parse_bitrate(s: &str) -> (r: usize)
    requires
        s@.len() <= isize::MAX,
    ensures
        r == bitrate_value(s@),
{
    let cs = chars_of(s);
    let n = cs.len();
    if n > 0 && cs[n - 1] == 'M' {
        assert(cs@.subrange(0, n - 1) =~= s@.drop_last());
        match parse_scaled_float(&cs, 0, n - 1, 6) {
            Some(v) => v,
            None => 1_000_000,
        }
    } else if n > 0 && cs[n - 1] == 'k' {
        assert(cs@.subrange(0, n - 1) =~= s@.drop_last());
        match parse_scaled_float(&cs, 0, n - 1, 3) {
            Some(v) => v,
            None => 1_000,
        }
    } else {
        assert(cs@.subrange(0, n as int) =~= s@);
        match parse_usize_text(&cs, 0, n) {
            Some(v) => v,
            None => 1_000_000,
        }
    }
}

/// The encoder's frame rate as a fraction: frames per thousand seconds over
/// one thousand, the numerator held to what an `i32` can hold.
pub fn encoder_frame_rate(frame_rate: u32) -> (r: (i32, i32))
    ensures
        r.0 == (if frame_rate > i32::MAX {
            i32::MAX as int
        } else {
            frame_rate as int
        }),
        r.1 == 1000,
{
    if frame_rate > i32::MAX as u32 {
        (i32::MAX, 1000)
    } else {
        (frame_rate as i32, 1000)
    }
}

/// `t / d` rounded toward zero.
pub open spec fn div_toward_zero(t: int, d: int) -> int {
    if t >= 0 {
        t / d
    } else {
        -((-t) / d)
    }
}

/// A frame's time stamp for the encoder: its microseconds as milliseconds,
/// rounded toward zero.
pub fn encoder_pts(pts: Time) -> (r: i64)
    ensures
        r == div_toward_zero(pts as int, 1000),
{
    if pts >= 0 {
        pts / 1000
    } else {
        let n: u64 = (-(pts as i128)) as u64;
        let q = n / 1000;
        -(q as i64)
    }
}

/// The encoder's time stamp of a frame at `pts` microseconds is its time in
/// whole milliseconds, rounded toward zero: `|r|` whole milliseconds fit in
/// `|pts|` microseconds, one more does not, and `r` has the sign of `pts`.
pub proof fn lemma_encoder_pts_millis(pts: int)
    ensures
        ({
            let r = div_toward_zero(pts, 1000);
            let m = if pts >= 0 {
                pts
            } else {
                -pts
            };
            let a = if r >= 0 {
                r
            } else {
                -r
            };
            &&& a * 1000 <= m < (a + 1) * 1000
            &&& pts >= 0 ==> r >= 0
            &&& pts < 0 ==> r <= 0
        }),
{
    let m = if pts >= 0 {
        pts
    } else {
        -pts
    };
    vstd::arithmetic::div_mod::lemma_fundamental_div_mod(m, 1000);
    vstd::arithmetic::div_mod::lemma_mod_bound(m, 1000);
}

/// A whole number of millions ("16M") or thousands ("192k") names exactly
/// that many bits per second (up to `usize::MAX`) while the product stays
/// below `2^53`, where `f64` holds every whole number; bare digits name
/// that many bits per second, and 1_000_000 when they overflow `usize`.
pub proof fn lemma_whole_bitrates(d: Seq<char>)
    requires
        d.len() > 0,
        all_digits(d),
    ensures
        digits_value(d) * 1_000_000 < 0x20_0000_0000_0000 ==> bitrate_value(d.push('M')) == (if digits_value(d)
            * 1_000_000 <= usize::MAX {
            digits_value(d) * 1_000_000
        } else {
            usize::MAX as nat
        }),
        digits_value(d) * 1_000 < 0x20_0000_0000_0000 ==> bitrate_value(d.push('k')) == (if digits_value(d)
            * 1_000 <= usize::MAX {
            digits_value(d) * 1_000
        } else {
            usize::MAX as nat
        }),
        digits_value(d) <= usize::MAX ==> bitrate_value(d) == digits_value(d),
        digits_value(d) > usize::MAX ==> bitrate_value(d) == 1_000_000,
{
    assert(crate::numtext::is_digit(d[0]) && crate::numtext::is_digit(d[d.len() - 1]));
    assert(d.push('M').drop_last() =~= d);
    assert(d.push('k').drop_last() =~= d);
    lemma_digits_read_as_float(d);
    lemma_pow10_small();
    crate::binary64::lemma_two_pow_53();
    if digits_value(d) * 1_000_000 < 0x20_0000_0000_0000 {
        lemma_whole_amounts_exact(digits_value(d), 6);
    }
    if digits_value(d) * 1_000 < 0x20_0000_0000_0000 {
        lemma_whole_amounts_exact(digits_value(d), 3);
    }
}

} // verus!
