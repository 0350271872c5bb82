use vstd::prelude::*;

use crate::timeline::Time;

verus! {

/// A decoded picture: RGBA bytes, row by row, and its time stamp in
/// microseconds.
#[derive(Debug)]
pub struct DecodedFrame {
    pub data: Vec<u8>,
    pub width: u32,
    pub height: u32,
    pub pts: Time,
}

impl Clone for DecodedFrame {
    fn clone(&self) -> (r: Self)
        ensures
            r.data@ == self.data@,
            r.width == self.width,
            r.height == self.height,
            r.pts == self.pts,
    {
        DecodedFrame { data: self.data.clone(), width: self.width, height: self.height, pts: self.pts }
    }
}

#[derive(Debug)]
pub enum DecodeError {
    FileNotFound(String),
    NoVideoStream,
    Failed(String),
}

/// The frame rate that a stream announces as `num / den` frames per second,
/// in frames per thousand seconds rounded to the nearest (halves up) and
/// held to the range of `u32`; 30 frames per second when `den` is not
/// positive.
pub open spec fn stream_rate_millis(num: int, den: int) -> int {
    if den > 0 {
        let r = (num * 2000 + den) / (2 * den);
        if r < 0 {
            0
        } else if r > u32::MAX {
            u32::MAX as int
        } else {
            r
        }
    } else {
        30_000
    }
}

pub fn stream_frame_rate(num: i32, den: i32) -> (r: u32)
    ensures
        r == stream_rate_millis(num as int, den as int),
{
    if den > 0 {
        let a: i64 = num as i64 * 2000 + den as i64;
        let b: i64 = 2 * den as i64;
        if a < 0 {
            // a / b rounds down below 0 for a negative numerator.
            assert(a / b < 0) by (nonlinear_arith)
                requires
                    a < 0,
                    b > 0,
            ;
            0
        } else {
            let q = a / b;
            if q > u32::MAX as i64 {
                u32::MAX
            } else {
                q as u32
            }
        }
    } else {
        30_000
    }
}

/// `a / b` rounded toward zero.
pub open spec fn div_trunc(a: int, b: int) -> int {
    let q = if a >= 0 {
        a
    } else {
        -a
    } / if b >= 0 {
        b
    } else {
        -b
    };
    if (a >= 0) == (b >= 0) {
        q
    } else {
        -q
    }
}

pub open spec fn clamp_i64(x: int) -> int {
    if x > i64::MAX {
        i64::MAX as int
    } else if x < i64::MIN {
        i64::MIN as int
    } else {
        x
    }
}

/// The stream time stamp at `time` (microseconds) for a stream whose time
/// base is `num / den` seconds: rounded toward zero and held to the range
/// of `i64`. A time base of `x / 0` is infinite (or, for `0 / 0`, not a
/// number), and any time stamp divided by it gives 0. A time base of
/// `0 / den` is a zero whose sign is that of `den`: a nonzero time divided by
/// it is infinite, the farthest time stamp on that side, and time 0 gives 0.
pub open spec fn seek_pts(time: int, num: int, den: int) -> int {
    if den == 0 {
        0
    } else if num == 0 {
        if time == 0 {
            0
        } else if (time > 0) == (den > 0) {
            i64::MAX as int
        } else {
            i64::MIN as int
        }
    } else {
        clamp_i64(div_trunc(time * den, num * 1_000_000))
    }
}

fn div_trunc_i128(a: i128, b: i128) -> (r: i128)
    requires
        b != 0,
        -0x100_0000_0000_0000_0000_0000_0000_0000 < a < 0x100_0000_0000_0000_0000_0000_0000_0000,
        -0x1_0000_0000_0000_0000_0000_0000_0000 < b < 0x1_0000_0000_0000_0000_0000_0000_0000,
    ensures
        r == div_trunc(a as int, b as int),
{
    let ua: i128 = if a >= 0 {
        a
    } else {
        -a
    };
    let ub: i128 = if b >= 0 {
        b
    } else {
        -b
    };
    let q = ua / ub;
    assert(0 <= q <= ua) by (nonlinear_arith)
        requires
            q == ua / ub,
            ua >= 0,
            ub > 0,
    ;
    if (a >= 0) == (b >= 0) {
        q
    } else {
        -q
    }
}

proof fn lemma_product_bound(x: int, y: int)
    requires
        i64::MIN <= x <= i64::MAX,
        i32::MIN <= y <= i32::MAX,
    ensures
        -0x4000_0000_0000_0000_0000_0000 <= x * y <= 0x4000_0000_0000_0000_0000_0000,
{
    assert(-0x4000_0000_0000_0000_0000_0000 <= x * y <= 0x4000_0000_0000_0000_0000_0000) by (nonlinear_arith)
        requires
            -0x8000_0000_0000_0000 <= x <= 0x8000_0000_0000_0000,
            -0x8000_0000 <= y <= 0x8000_0000,
    ;
}

fn clamp_to_i64(x: i128) -> (r: i64)
    ensures
        r == clamp_i64(x as int),
{
    if x > i64::MAX as i128 {
        i64::MAX
    } else if x < i64::MIN as i128 {
        i64::MIN
    } else {
        x as i64
    }
}

/// The stream time stamp to seek to for `time` (see `seek_pts`).
pub fn seek_target(time: Time, num: i32, den: i32) -> (r: i64)
    ensures
        r == seek_pts(time as int, num as int, den as int),
{
    if den == 0 {
        0
    } else if num == 0 {
        if time == 0 {
            0
        } else if (time > 0) == (den > 0) {
            i64::MAX
        } else {
            i64::MIN
        }
    } else {
        proof {
            lemma_product_bound(time as int, den as int);
        }
        let a: i128 = time as i128 * den as i128;
        let b: i128 = num as i128 * 1_000_000;
        clamp_to_i64(div_trunc_i128(a, b))
    }
}

/// The time in microseconds of stream time stamp `pts` for a stream whose
/// time base is `num / den` seconds, rounded toward zero and held to the
/// range of `Time`. A time base of `num / 0` is infinite: a nonzero time
/// stamp times it is the farthest time on the side of `pts * num`, and a
/// zero time stamp (or a `0 / 0` time base, not a number) gives 0.
pub open spec fn pts_time(pts: int, num: int, den: int) -> int {
    if den == 0 {
        if pts == 0 || num == 0 {
            0
        } else if (pts > 0) == (num > 0) {
            i64::MAX as int
        } else {
            i64::MIN as int
        }
    } else {
        clamp_i64(div_trunc(pts * num * 1_000_000, den))
    }
}

pub fn frame_time(pts: i64, num: i32, den: i32) -> (r: Time)
    ensures
        r == pts_time(pts as int, num as int, den as int),
{
    if den == 0 {
        if pts == 0 || num == 0 {
            0
        } else if (pts > 0) == (num > 0) {
            i64::MAX
        } else {
            i64::MIN
        }
    } else {
        proof {
            lemma_product_bound(pts as int, num as int);
        }
        let a: i128 = pts as i128 * num as i128;
        let a = a * 1_000_000;
        clamp_to_i64(div_trunc_i128(a, den as i128))
    }
}

/// What the decoder answers when asked for a frame while seeking.
#[derive(Debug)]
pub enum Received {
    /// A frame, with its time stamp where it has one.
    Frame(Option<i64>),
    /// It needs the next packet first (`EAGAIN`).
    NeedsPacket,
    /// Any other error.
    Failed,
}

/// What seeking does next.
#[derive(Debug, PartialEq, Eq, Structural)]
pub enum SeekStep {
    /// The frame reaches the target: convert it and return it.
    Deliver,
    /// The frame lies before the target: ask for the next one.
    Skip,
    /// Send the decoder the next packet of the video stream.
    NextPacket,
    /// Give up: no frame is returned.
    Stop,
}

/// A frame's time stamp, 0 where it has none.
pub open spec fn stamp_or_zero(pts: Option<i64>) -> i64 {
    match pts {
        Some(p) => p,
        None => 0,
    }
}

/// One decision of a seek to stream time stamp `target`: the first frame
/// whose time stamp (0 where it has none) reaches the target is delivered,
/// earlier frames are skipped, a decoder that needs input gets the next
/// packet, and any other decoder error ends the seek without a frame.
pub fn seek_step(target: i64, received: &Received) -> (r: SeekStep)
    ensures
        *received matches Received::Frame(pts) ==> r == (if stamp_or_zero(pts) >= target {
            SeekStep::Deliver
        } else {
            SeekStep::Skip
        }),
        *received is NeedsPacket ==> r == SeekStep::NextPacket,
        *received is Failed ==> r == SeekStep::Stop,
{
    match received {
        Received::Frame(pts) => {
            let p = match pts {
                Some(p) => *p,
                None => 0,
            };
            if p >= target {
                SeekStep::Deliver
            } else {
                SeekStep::Skip
            }
        },
        Received::NeedsPacket => SeekStep::NextPacket,
        Received::Failed => SeekStep::Stop,
    }
}

pub open spec fn abs_int(x: int) -> int {
    if x >= 0 {
        x
    } else {
        -x
    }
}

/// `div_trunc(a, b)` is `a / b` rounded toward zero: its magnitude is the
/// number of whole `|b|` in `|a|`, and its sign that of `a / b`.
proof fn lemma_div_trunc(a: int, b: int)
    requires
        b != 0,
    ensures
        abs_int(div_trunc(a, b)) * abs_int(b) <= abs_int(a) < (abs_int(div_trunc(a, b)) + 1) * abs_int(b),
        div_trunc(a, b) * b * a >= 0,
        abs_int(a) < (i64::MAX + 1) * abs_int(b) ==> clamp_i64(div_trunc(a, b)) == div_trunc(a, b),
        abs_int(a) >= (i64::MAX + 1) * abs_int(b) ==> clamp_i64(div_trunc(a, b)) == (if (a >= 0) == (b >= 0) {
            i64::MAX as int
        } else {
            i64::MIN as int
        }),
{
    let ua = abs_int(a);
    let ub = abs_int(b);
    let q = ua / ub;
    vstd::arithmetic::div_mod::lemma_fundamental_div_mod(ua, ub);
    vstd::arithmetic::div_mod::lemma_mod_pos_bound(ua, ub);
    vstd::arithmetic::div_mod::lemma_div_pos_is_pos(ua, ub);
    let r = ua % ub;
    assert(q * ub <= ua < (q + 1) * ub) by (nonlinear_arith)
        requires
            ua == ub * q + r,
            0 <= r < ub,
    ;
    assert(div_trunc(a, b) == (if (a >= 0) == (b >= 0) {
        q
    } else {
        -q
    }));
    assert(abs_int(div_trunc(a, b)) == q);
    assert(q * ub * ua >= 0) by (nonlinear_arith)
        requires
            q >= 0,
            ub > 0,
            ua >= 0,
    ;
    assert(div_trunc(a, b) * b * a == q * ub * ua) by (nonlinear_arith)
        requires
            ua == abs_int(a),
            ub == abs_int(b),
            div_trunc(a, b) == (if (a >= 0) == (b >= 0) {
                q
            } else {
                -q
            }),
            a == 0 ==> q == 0,
    ;
    if ua < (i64::MAX + 1) * ub {
        assert(q <= i64::MAX) by (nonlinear_arith)
            requires
                q * ub <= ua,
                ua < (i64::MAX + 1) * ub,
                ub > 0,
        ;
    } else {
        assert(q >= i64::MAX + 1) by (nonlinear_arith)
            requires
                ua < (q + 1) * ub,
                ua >= (i64::MAX + 1) * ub,
                ub > 0,
        ;
    }
}

/// Seeking to a time: for a time base `num / den` seconds with nonzero
/// parts, the target time stamp `q` is the time (in seconds) divided by the
/// time base, rounded toward zero: `|q|` whole time bases of
/// `|num| * 10^6 / |den|` microseconds fit in `|time|`, one more does not,
/// and `q` has the sign of `time / (num / den)`. Past the range of `i64` it
/// is the end of that range on its side.
pub proof fn lemma_seek_target_divides(time: int, num: int, den: int)
    requires
        num != 0,
        den != 0,
    ensures
        abs_int(time * den) < (i64::MAX + 1) * abs_int(num * 1_000_000) ==> {
            let q = seek_pts(time, num, den);
            &&& abs_int(q) * abs_int(num * 1_000_000) <= abs_int(time * den)
            &&& abs_int(time * den) < (abs_int(q) + 1) * abs_int(num * 1_000_000)
            &&& q * (num * 1_000_000) * (time * den) >= 0
        },
        abs_int(time * den) >= (i64::MAX + 1) * abs_int(num * 1_000_000) ==> seek_pts(time, num, den) == (
        if (time * den >= 0) == (num > 0) {
            i64::MAX as int
        } else {
            i64::MIN as int
        }),
{
    lemma_div_trunc(time * den, num * 1_000_000);
}

/// A frame's time: for a time base `num / den` seconds with `den != 0`, the
/// time `t` in microseconds of time stamp `pts` is `pts` times the time base,
/// rounded toward zero: `|t|` whole `|den|` fit in `|pts * num * 10^6|`, one
/// more does not, and `t` has the sign of `pts * num / den`. Past the range
/// of `i64` it is the end of that range on its side.
pub proof fn lemma_frame_time_scales(pts: int, num: int, den: int)
    requires
        den != 0,
    ensures
        abs_int(pts * num * 1_000_000) < (i64::MAX + 1) * abs_int(den) ==> {
            let t = pts_time(pts, num, den);
            &&& abs_int(t) * abs_int(den) <= abs_int(pts * num * 1_000_000)
            &&& abs_int(pts * num * 1_000_000) < (abs_int(t) + 1) * abs_int(den)
            &&& t * den * (pts * num * 1_000_000) >= 0
        },
        abs_int(pts * num * 1_000_000) >= (i64::MAX + 1) * abs_int(den) ==> pts_time(pts, num, den) == (
        if (pts * num * 1_000_000 >= 0) == (den > 0) {
            i64::MAX as int
        } else {
            i64::MIN as int
        }),
{
    lemma_div_trunc(pts * num * 1_000_000, den);
}

/// Degenerate time bases act as `f64` division does: dividing by an
/// infinite time base (`num / 0`) or by `0 / 0` (not a number) gives time
/// stamp 0; dividing a nonzero time by a zero time base (`0 / den`) gives
/// the end of the `i64` range on the side of `time` times the sign of `den`,
/// and time 0 gives 0. A time stamp times an infinite time base is the end
/// of the range on the side of `pts * num`; times `0 / 0`, or a zero time
/// stamp times `num / 0`, it is 0.
pub proof fn lemma_degenerate_time_bases(time: int, pts: int, num: int, den: int)
    ensures
        seek_pts(time, num, 0) == 0,
        den != 0 && time == 0 ==> seek_pts(time, 0, den) == 0,
        den != 0 && time * den > 0 ==> seek_pts(time, 0, den) == i64::MAX,
        den != 0 && time * den < 0 ==> seek_pts(time, 0, den) == i64::MIN,
        pts * num == 0 ==> pts_time(pts, num, 0) == 0,
        pts * num > 0 ==> pts_time(pts, num, 0) == i64::MAX,
        pts * num < 0 ==> pts_time(pts, num, 0) == i64::MIN,
{
    if den != 0 && time != 0 {
        assert((time * den > 0) == ((time > 0) == (den > 0))) by (nonlinear_arith)
            requires
                time != 0,
                den != 0,
        ;
    }
    assert((pts * num == 0) == (pts == 0 || num == 0)) by (nonlinear_arith);
    if pts != 0 && num != 0 {
        assert((pts * num > 0) == ((pts > 0) == (num > 0))) by (nonlinear_arith)
            requires
                pts != 0,
                num != 0,
        ;
    }
}

/// A stream's frame rate in frames per thousand seconds is `num / den`
/// frames per second times 1000, rounded to the nearest (a half up): for
/// `den > 0` and a value in the range of `u32`, `r` is the whole number with
/// `2 * r * den <= 2000 * num + den < 2 * (r + 1) * den`; below 0 it is 0,
/// above `u32::MAX` it is `u32::MAX`, and without a positive denominator it
/// is 30 frames per second.
pub proof fn lemma_stream_rate_rounds(num: int, den: int)
    ensures
        den > 0 && 0 <= 2000 * num + den && 2000 * num + den < (u32::MAX + 1) * 2 * den ==> {
            let r = stream_rate_millis(num, den);
            &&& 2 * r * den <= 2000 * num + den
            &&& 2000 * num + den < 2 * (r + 1) * den
        },
        den > 0 && 2000 * num + den < 0 ==> stream_rate_millis(num, den) == 0,
        den > 0 && 2000 * num + den >= (u32::MAX + 1) * 2 * den ==> stream_rate_millis(num, den) == u32::MAX,
        den <= 0 ==> stream_rate_millis(num, den) == 30_000,
{
    if den > 0 {
        let a = num * 2000 + den;
        let b = 2 * den;
        let q = a / b;
        assert((u32::MAX + 1) * 2 * den == (u32::MAX + 1) * b) by (nonlinear_arith)
            requires
                b == 2 * den,
        ;
        assert(2000 * num + den == a);
        assert(stream_rate_millis(num, den) == (if q < 0 {
            0
        } else if q > u32::MAX {
            u32::MAX as int
        } else {
            q
        }));
        vstd::arithmetic::div_mod::lemma_fundamental_div_mod(a, b);
        vstd::arithmetic::div_mod::lemma_mod_bound(a, b);
        let r = a % b;
        assert(q * b <= a < (q + 1) * b) by (nonlinear_arith)
            requires
                a == b * q + r,
                0 <= r < b,
        ;
        if 0 <= a && a < (u32::MAX + 1) * b {
            assert(0 <= q <= u32::MAX) by (nonlinear_arith)
                requires
                    q * b <= a < (q + 1) * b,
                    0 <= a < (u32::MAX + 1) * b,
                    b > 0,
            ;
            assert(2 * q * den == q * b) by (nonlinear_arith)
                requires
                    b == 2 * den,
            ;
            assert(2 * (q + 1) * den == (q + 1) * b) by (nonlinear_arith)
                requires
                    b == 2 * den,
            ;
        } else if a < 0 {
            assert(q < 0) by (nonlinear_arith)
                requires
                    q * b <= a,
                    a < 0,
                    b > 0,
            ;
        } else {
            assert(q >= u32::MAX + 1) by (nonlinear_arith)
                requires
                    a < (q + 1) * b,
                    a >= (u32::MAX + 1) * b,
                    b > 0,
            ;
        }
    }
}

} // verus!
