use vstd::prelude::*;

use crate::encode::EncodeError;
use crate::timeline::Time;

verus! {

#[derive(Debug)]
pub enum ExportError {
    Encode(EncodeError),
    Composite(String),
    NoFrames,
}

/// How many frames an export of `duration` microseconds writes at
/// `frame_rate` frames per thousand seconds: the duration in frames rounded
/// up, held to the range of `u64`.
pub open spec fn frame_count(duration: int, frame_rate: int) -> int {
    let n = (duration * frame_rate + 999_999_999) / 1_000_000_000;
    if n > u64::MAX {
        u64::MAX as int
    } else {
        n
    }
}

/// The number of frames to export, or `NoFrames` when the timeline has no
/// positive duration.
pub fn export_frame_count(duration: Time, frame_rate: u32) -> (r: Result<u64, ExportError>)
    ensures
        duration <= 0 ==> r matches Err(ExportError::NoFrames),
        duration > 0 ==> r == Ok::<u64, ExportError>(frame_count(duration as int, frame_rate as int) as u64),
{
    if duration <= 0 {
        return Err(ExportError::NoFrames);
    }
    assert(0 <= duration * frame_rate <= 0x1_0000_0000_0000_0000_0000_0000) by (nonlinear_arith)
        requires
            0 < duration <= i64::MAX,
            0 <= frame_rate <= u32::MAX,
    ;
    let product: u128 = duration as u128 * frame_rate as u128;
    let n = (product + 999_999_999) / 1_000_000_000;
    if n > u64::MAX as u128 {
        Ok(u64::MAX)
    } else {
        Ok(n as u64)
    }
}

/// When frame `index` shows, in microseconds: `index` frames at
/// `frame_rate` frames per thousand seconds, rounded down, held to the range
/// of `Time`.
pub open spec fn frame_start(index: int, frame_rate: int) -> int {
    let t = index * 1_000_000_000 / frame_rate;
    if t > i64::MAX {
        i64::MAX as int
    } else {
        t
    }
}

pub fn export_frame_time(index: u64, frame_rate: u32) -> (r: Time)
    requires
        frame_rate > 0,
    ensures
        r == frame_start(index as int, frame_rate as int),
{
    assert(0 <= index * 1_000_000_000 <= 0x1_0000_0000_0000_0000_0000_0000) by (nonlinear_arith)
        requires
            0 <= index <= u64::MAX,
    ;
    let t: u128 = index as u128 * 1_000_000_000 / frame_rate as u128;
    if t > i64::MAX as u128 {
        i64::MAX
    } else {
        t as i64
    }
}

/// Whether the export reports its progress after frame `index` of `total`:
/// after every tenth frame, counting from the first, and after the last.
pub fn reports_progress(index: u64, total: u64) -> (r: bool)
    requires
        total > 0,
    ensures
        r == (index % 10 == 0 || index == total - 1),
{
    index % 10 == 0 || index == total - 1
}

/// The progress that the export reports once frame `index` of `total` is
/// written: `(index + 1, total)` after every tenth frame, counting from the
/// first, and after the last; nothing after the others.
pub fn progress_report(index: u64, total: u64) -> (r: Option<(u64, u64)>)
    requires
        index < total,
    ensures
        (index % 10 == 0 || index == total - 1) ==> r == Some(((index + 1) as u64, total)),
        !(index % 10 == 0 || index == total - 1) ==> r is None,
{
    if reports_progress(index, total) {
        Some((index + 1, total))
    } else {
        None
    }
}

/// Frame `index` of an export at `frame_rate` frames per thousand seconds
/// shows at the exact time of `index` frames at that rate, rounded down to a
/// microsecond: `t * frame_rate <= index * 10^9 < (t + 1) * frame_rate`.
/// Past the range of `Time` it is `i64::MAX`.
pub proof fn lemma_frame_start_exact(index: int, frame_rate: int)
    requires
        index >= 0,
        frame_rate > 0,
    ensures
        index * 1_000_000_000 < (i64::MAX + 1) * frame_rate ==> {
            let t = frame_start(index, frame_rate);
            &&& t * frame_rate <= index * 1_000_000_000
            &&& index * 1_000_000_000 < (t + 1) * frame_rate
        },
        index * 1_000_000_000 >= (i64::MAX + 1) * frame_rate ==> frame_start(index, frame_rate) == i64::MAX,
{
    let a = index * 1_000_000_000;
    let q = a / frame_rate;
    vstd::arithmetic::div_mod::lemma_fundamental_div_mod(a, frame_rate);
    vstd::arithmetic::div_mod::lemma_mod_bound(a, frame_rate);
    let r = a % frame_rate;
    assert(q * frame_rate <= a < (q + 1) * frame_rate) by (nonlinear_arith)
        requires
            a == frame_rate * q + r,
            0 <= r < frame_rate,
    ;
    if a < (i64::MAX + 1) * frame_rate {
        assert(q <= i64::MAX) by (nonlinear_arith)
            requires
                q * frame_rate <= a,
                a < (i64::MAX + 1) * frame_rate,
                frame_rate > 0,
        ;
    } else {
        assert(q > i64::MAX) by (nonlinear_arith)
            requires
                a < (q + 1) * frame_rate,
                a >= (i64::MAX + 1) * frame_rate,
                frame_rate > 0,
        ;
    }
}

/// An export of `duration` microseconds at `frame_rate` frames per thousand
/// seconds writes the fewest frames that cover the duration: `n` frames
/// with `(n - 1) * 10^9 < duration * frame_rate <= n * 10^9`, held to
/// `u64::MAX`.
pub proof fn lemma_frame_count_covers(duration: int, frame_rate: int)
    requires
        duration > 0,
        frame_rate >= 0,
    ensures
        ({
            let n = frame_count(duration, frame_rate);
            let exact = duration * frame_rate;
            &&& n < u64::MAX ==> (n - 1) * 1_000_000_000 < exact <= n * 1_000_000_000
            &&& n == u64::MAX ==> exact > (u64::MAX - 1) * 1_000_000_000
            &&& n >= 0
        }),
{
    let exact = duration * frame_rate;
    assert(exact >= 0) by (nonlinear_arith)
        requires
            exact == duration * frame_rate,
            duration > 0,
            frame_rate >= 0,
    ;
    let a = exact + 999_999_999;
    let q = a / 1_000_000_000;
    vstd::arithmetic::div_mod::lemma_fundamental_div_mod(a, 1_000_000_000);
    vstd::arithmetic::div_mod::lemma_mod_bound(a, 1_000_000_000);
    assert(q >= 0);
    assert((q - 1) * 1_000_000_000 < exact <= q * 1_000_000_000);
    if q >= u64::MAX {
        assert((q - 1) * 1_000_000_000 >= (u64::MAX - 1) * 1_000_000_000) by (nonlinear_arith)
            requires
                q >= u64::MAX,
        ;
    }
}

} // verus!
