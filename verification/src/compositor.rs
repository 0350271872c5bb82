use vstd::prelude::*;

use crate::decode::DecodedFrame;
use crate::timeline::{Clip, Time, Timeline, TrackView, clamp_time, clip_end};

verus! {

/// A frame to fetch for a composite: the source file and the time in it, in
/// microseconds.
#[derive(Debug)]
pub struct ClipRequest {
    pub source_path: String,
    pub source_time: Time,
}

/// Whether `c` shows at `time`: from its start, up to but not including its end.
pub open spec fn covers(c: Clip, time: int) -> bool {
    c.start <= time < clip_end(c)
}

/// The time in the source of `c` that shows at `time` on the timeline.
pub open spec fn clip_source_time(c: Clip, time: int) -> int {
    clamp_time(c.source_in + (time - c.start))
}

pub open spec fn request_for(c: Clip, time: int) -> ClipRequest {
    ClipRequest { source_path: c.source_path, source_time: clip_source_time(c, time) as i64 }
}

/// The frames that the clips among `clips` that show at `time` need, in order.
pub open spec fn clip_requests(clips: Seq<Clip>, time: int) -> Seq<ClipRequest>
    decreases clips.len(),
{
    if clips.len() == 0 {
        seq![]
    } else if covers(clips.last(), time) {
        clip_requests(clips.drop_last(), time).push(request_for(clips.last(), time))
    } else {
        clip_requests(clips.drop_last(), time)
    }
}

/// The frames that the clips of `tracks` that show at `time` need, track by
/// track, each track's clips in order.
pub open spec fn track_requests(tracks: Seq<TrackView>, time: int) -> Seq<ClipRequest>
    decreases tracks.len(),
{
    if tracks.len() == 0 {
        seq![]
    } else {
        track_requests(tracks.drop_last(), time) + clip_requests(tracks.last().clips, time)
    }
}

pub fn clip_covers(clip: &Clip, time: Time) -> (r: bool)
    ensures
        r == covers(*clip, time as int),
{
    !(time < clip.start || time >= clip.end())
}

pub fn source_time(clip: &Clip, time: Time) -> (r: Time)
    ensures
        r == clip_source_time(*clip, time as int),
{
    let t: i128 = clip.source_in as i128 + (time as i128 - clip.start as i128);
    if t > i64::MAX as i128 {
        i64::MAX
    } else if t < i64::MIN as i128 {
        i64::MIN
    } else {
        t as i64
    }
}

/// The frames to fetch for the picture at `time`: one per clip of a video
/// track that shows then, the tracks in order and each track's clips in
/// order; later frames are drawn over earlier ones.
pub fn frame_requests(timeline: &Timeline, time: Time) -> (r: Vec<ClipRequest>)
    ensures
        r@ == track_requests(timeline@.video, time as int),
{
    let mut r: Vec<ClipRequest> = Vec::new();
    let nt = timeline.video_tracks.len();
    for i in 0..nt
        invariant
            nt == timeline@.video.len(),
            r@ == track_requests(timeline@.video.take(i as int), time as int),
    {
        let track = &timeline.video_tracks[i];
        let ghost before = r@;
        let nc = track.clips.len();
        for j in 0..nc
            invariant
                nc == track.clips@.len(),
                r@ == before + clip_requests(track.clips@.take(j as int), time as int),
        {
            let clip = &track.clips[j];
            assert(track.clips@.take(j + 1).drop_last() =~= track.clips@.take(j as int));
            if clip_covers(clip, time) {
                r.push(ClipRequest { source_path: clip.source_path.clone(), source_time: source_time(clip, time) });
            }
            assert(r@ =~= before + clip_requests(track.clips@.take(j + 1), time as int));
        }
        assert(track.clips@.take(nc as int) =~= track.clips@);
        assert(timeline@.video.take(i + 1).drop_last() =~= timeline@.video.take(i as int));
        assert(timeline@.video.take(i + 1).last() == track@);
    }
    assert(timeline@.video.take(nt as int) =~= timeline@.video);
    r
}

/// Where in a `fw` by `fh` frame the colour of output pixel `(x, y)` of an
/// `ow` by `oh` picture comes from: the byte offset of the nearest pixel
/// below and to the left when the frame is stretched over the picture.
pub open spec fn pixel_source(x: int, y: int, ow: int, oh: int, fw: int, fh: int) -> int {
    ((y * fh / oh) * fw + x * fw / ow) * 4
}

/// Channel `c` of the pixel at byte `di` of `canvas` once the frame pixel at
/// byte `si` of `src` is drawn over it: an opaque pixel replaces it, a
/// transparent one leaves it, and one in between mixes the colours by its
/// alpha (rounding down) and leaves the result opaque.
pub open spec fn overlaid_byte(canvas: Seq<u8>, src: Seq<u8>, di: int, si: int, c: int) -> u8 {
    let a = src[si + 3];
    if a == 255 {
        src[si + c]
    } else if a > 0 {
        if c < 3 {
            ((src[si + c] * a + canvas[di + c] * (255 - a)) / 255) as u8
        } else {
            255
        }
    } else {
        canvas[di + c]
    }
}

/// `canvas`, an `ow` by `oh` RGBA picture, with an `fw` by `fh` RGBA frame
/// stretched over it; the bytes past the picture are left as they are.
pub open spec fn overlaid(canvas: Seq<u8>, ow: int, oh: int, src: Seq<u8>, fw: int, fh: int) -> Seq<u8> {
    overlaid_upto(canvas, ow * oh, ow, oh, src, fw, fh)
}

/// `overlaid` for the first `n` pixels only.
pub open spec fn overlaid_upto(canvas: Seq<u8>, n: int, ow: int, oh: int, src: Seq<u8>, fw: int, fh: int) -> Seq<u8> {
    Seq::new(
        canvas.len(),
        |i: int|
            if i < n * 4 {
                overlaid_byte(
                    canvas,
                    src,
                    (i / 4) * 4,
                    pixel_source((i / 4) % ow, (i / 4) / ow, ow, oh, fw, fh),
                    i % 4,
                )
            } else {
                canvas[i]
            },
    )
}

/// What drawing a frame over an `ow` by `oh` canvas asks: the canvas holds
/// the picture; over a non-empty picture, the frame's bytes reach past the
/// farthest frame pixel that drawing reads (the one under the last output
/// pixel); and the scaling products fit in `u32`.
pub open spec fn can_overlay(canvas_len: int, ow: int, oh: int, data_len: int, fw: int, fh: int) -> bool {
    &&& canvas_len >= ow * oh * 4
    &&& ow > 0 && oh > 0 ==> data_len >= pixel_source(ow - 1, oh - 1, ow, oh, fw, fh) + 4
    &&& ow > 0 ==> (ow - 1) * fw <= u32::MAX
    &&& oh > 0 ==> (oh - 1) * fh <= u32::MAX
}

/// Every output pixel reads a frame pixel no farther than the last one does.
proof fn lemma_source_bound(x: int, y: int, ow: int, oh: int, fw: int, fh: int)
    requires
        0 <= x < ow,
        0 <= y < oh,
        fw >= 0,
        fh >= 0,
    ensures
        0 <= x * fw / ow <= (ow - 1) * fw / ow,
        0 <= y * fh / oh <= (oh - 1) * fh / oh,
        0 <= pixel_source(x, y, ow, oh, fw, fh) <= pixel_source(ow - 1, oh - 1, ow, oh, fw, fh),
{
    assert(0 <= x * fw <= (ow - 1) * fw) by (nonlinear_arith)
        requires
            0 <= x < ow,
            fw >= 0,
    ;
    assert(0 <= y * fh <= (oh - 1) * fh) by (nonlinear_arith)
        requires
            0 <= y < oh,
            fh >= 0,
    ;
    vstd::arithmetic::div_mod::lemma_div_is_ordered(x * fw, (ow - 1) * fw, ow);
    vstd::arithmetic::div_mod::lemma_div_is_ordered(y * fh, (oh - 1) * fh, oh);
    vstd::arithmetic::div_mod::lemma_div_pos_is_pos(x * fw, ow);
    vstd::arithmetic::div_mod::lemma_div_pos_is_pos(y * fh, oh);
    let sx = x * fw / ow;
    let sy = y * fh / oh;
    let mx = (ow - 1) * fw / ow;
    let my = (oh - 1) * fh / oh;
    assert(0 <= sy * fw + sx <= my * fw + mx) by (nonlinear_arith)
        requires
            0 <= sx <= mx,
            0 <= sy <= my,
            fw >= 0,
    ;
}

proof fn lemma_pixel_position(x: int, y: int, w: int, h: int)
    requires
        0 <= x < w,
        0 <= y < h,
    ensures
        0 <= y * w + x < w * h,
        (y * w + x) / w == y,
        (y * w + x) % w == x,
{
    assert(0 <= y * w + x < w * h) by (nonlinear_arith)
        requires
            0 <= x < w,
            0 <= y < h,
    ;
    vstd::arithmetic::div_mod::lemma_fundamental_div_mod_converse(y * w + x, w, y, x);
}

proof fn lemma_byte_position(k: int, c: int)
    requires
        0 <= k,
        0 <= c < 4,
    ensures
        (k * 4 + c) / 4 == k,
        (k * 4 + c) % 4 == c,
{
    vstd::arithmetic::div_mod::lemma_fundamental_div_mod_converse(k * 4 + c, 4, k, c);
}

/// Draws `frame` over `canvas`, an `out_w` by `out_h` RGBA picture,
/// stretching it to the picture's size (see `overlaid`).
pub fn overlay(canvas: &mut Vec<u8>, out_w: u32, out_h: u32, frame: &DecodedFrame)
    requires
        can_overlay(
            old(canvas)@.len() as int,
            out_w as int,
            out_h as int,
            frame.data@.len() as int,
            frame.width as int,
            frame.height as int,
        ),
    ensures
        final(canvas)@ == overlaid(
            old(canvas)@,
            out_w as int,
            out_h as int,
            frame.data@,
            frame.width as int,
            frame.height as int,
        ),
{
    let ghost orig = canvas@;
    let ghost ow = out_w as int;
    let ghost oh = out_h as int;
    let ghost fw = frame.width as int;
    let ghost fh = frame.height as int;
    let ghost src = frame.data@;
    assert(canvas@ =~= overlaid_upto(orig, 0, ow, oh, src, fw, fh));
    for y in 0..out_h
        invariant
            orig.len() == canvas@.len(),
            ow == out_w,
            oh == out_h,
            fw == frame.width,
            fh == frame.height,
            src == frame.data@,
            can_overlay(orig.len() as int, ow, oh, src.len() as int, fw, fh),
            canvas@ == overlaid_upto(orig, y * ow, ow, oh, src, fw, fh),
    {
        for x in 0..out_w
            invariant
                orig.len() == canvas@.len(),
                ow == out_w,
                oh == out_h,
                fw == frame.width,
                fh == frame.height,
                src == frame.data@,
                can_overlay(orig.len() as int, ow, oh, src.len() as int, fw, fh),
                y < out_h,
                canvas@ == overlaid_upto(orig, y * ow + x, ow, oh, src, fw, fh),
        {
            let ghost k = y * ow + x;
            proof {
                lemma_pixel_position(x as int, y as int, ow, oh);
                lemma_source_bound(x as int, y as int, ow, oh, fw, fh);
                assert(x * fw <= (ow - 1) * fw) by (nonlinear_arith)
                    requires
                        0 <= x < ow,
                        fw >= 0,
                ;
                assert(y * fh <= (oh - 1) * fh) by (nonlinear_arith)
                    requires
                        0 <= y < oh,
                        fh >= 0,
                ;
                assert(ow * oh * 4 == (ow * oh) * 4);
                assert(k * 4 + 4 <= ow * oh * 4);
                assert(ow * oh * 4 <= canvas.len());
                assert(y * ow <= k);
            }
            let sx = (x * frame.width / out_w) as usize;
            let sy = (y * frame.height / out_h) as usize;
            proof {
                assert(pixel_source(x as int, y as int, ow, oh, fw, fh) == (sy * fw + sx) * 4);
                assert((sy * fw + sx) * 4 + 4 <= frame.data.len());
                assert(0 <= sy * fw <= sy * fw + sx) by (nonlinear_arith)
                    requires
                        sy >= 0,
                        fw >= 0,
                        sx >= 0,
                ;
            }
            let si = (sy * frame.width as usize + sx) * 4;
            let di = (y as usize * out_w as usize + x as usize) * 4;
            assert(si == pixel_source(x as int, y as int, ow, oh, fw, fh));
            let a = frame.data[si + 3];
            let ghost before = canvas@;
            if a == 255 {
                canvas.set(di, frame.data[si]);
                canvas.set(di + 1, frame.data[si + 1]);
                canvas.set(di + 2, frame.data[si + 2]);
                canvas.set(di + 3, frame.data[si + 3]);
            } else if a > 0 {
                let inv = 255 - a;
                for c in 0..3
                    invariant
                        canvas@.len() == before.len(),
                        di + 4 <= before.len(),
                        di + 4 <= canvas.len(),
                        si + 4 <= src.len(),
                        si + 4 <= frame.data.len(),
                        src == frame.data@,
                        a == src[si + 3],
                        inv == 255 - a,
                        0 < a < 255,
                        forall|m: int| 0 <= m < c ==> #[trigger] canvas@[di + m] == overlaid_byte(before, src, di as int, si as int, m),
                        forall|m: int| 0 <= m < canvas@.len() && !(di <= m < di + c) ==> #[trigger] canvas@[m] == before[m],
                {
                    let ghost sv = src[si + c];
                    let ghost dv = canvas@[di + c];
                    assert(sv * a + dv * inv <= 65025) by (nonlinear_arith)
                        requires
                            sv <= 255,
                            dv <= 255,
                            a + inv == 255,
                            0 < a < 255,
                    ;
                    let v = ((frame.data[si + c] as u16 * a as u16 + canvas[di + c] as u16 * inv as u16) / 255) as u8;
                    canvas.set(di + c, v);
                }
                canvas.set(di + 3, 255);
            }
            proof {
                let next = overlaid_upto(orig, k + 1, ow, oh, src, fw, fh);
                assert forall|i: int| 0 <= i < canvas@.len() implies #[trigger] canvas@[i] == next[i] by {
                    if k * 4 <= i < k * 4 + 4 {
                        lemma_byte_position(k, i - k * 4);
                        assert(before[i] == orig[i]);
                        assert(before[di + (i - k * 4)] == orig[di + (i - k * 4)]);
                    }
                }
                assert(canvas@ =~= next);
            }
        }
        assert((y + 1) * ow == y * ow + ow) by (nonlinear_arith);
    }
    assert(out_h * ow == ow * oh) by (nonlinear_arith)
        requires
            oh == out_h,
    ;
}

/// `canvas` with `layers` drawn over it in order (see `overlaid`).
pub open spec fn composed(canvas: Seq<u8>, ow: int, oh: int, layers: Seq<DecodedFrame>) -> Seq<u8>
    decreases layers.len(),
{
    if layers.len() == 0 {
        canvas
    } else {
        let top = layers.last();
        overlaid(
            composed(canvas, ow, oh, layers.drop_last()),
            ow,
            oh,
            top.data@,
            top.width as int,
            top.height as int,
        )
    }
}

/// A black, fully transparent picture of `n` bytes.
pub open spec fn blank_bytes(n: int) -> Seq<u8> {
    Seq::new(n as nat, |i: int| 0u8)
}

/// The picture at `time`: a `width` by `height` RGBA canvas, black and
/// transparent, with `layers` drawn over it in order, stamped with `time`.
pub fn compose_frame(width: u32, height: u32, time: Time, layers: &Vec<DecodedFrame>) -> (r: DecodedFrame)
    requires
        width * height * 4 <= u32::MAX,
        forall|l: int|
            0 <= l < layers@.len() ==> can_overlay(
                width * height * 4,
                width as int,
                height as int,
                #[trigger] layers@[l].data@.len() as int,
                layers@[l].width as int,
                layers@[l].height as int,
            ),
    ensures
        r.width == width,
        r.height == height,
        r.pts == time,
        r.data@ == composed(blank_bytes(width * height * 4), width as int, height as int, layers@),
{
    let size = (width * height * 4) as usize;
    let mut canvas: Vec<u8> = vec![0u8; size];
    assert(canvas@ =~= blank_bytes(width * height * 4));
    let n = layers.len();
    for l in 0..n
        invariant
            n == layers@.len(),
            canvas@.len() == width * height * 4,
            width * height * 4 <= u32::MAX,
            forall|l: int|
                0 <= l < layers@.len() ==> can_overlay(
                    width * height * 4,
                    width as int,
                    height as int,
                    #[trigger] layers@[l].data@.len() as int,
                    layers@[l].width as int,
                    layers@[l].height as int,
                ),
            canvas@ == composed(blank_bytes(width * height * 4), width as int, height as int, layers@.take(l as int)),
    {
        let layer = &layers[l];
        assert(layers@.take(l + 1).drop_last() =~= layers@.take(l as int));
        assert(layers@.take(l + 1).last() == layers@[l as int]);
        overlay(&mut canvas, width, height, layer);
    }
    assert(layers@.take(n as int) =~= layers@);
    DecodedFrame { data: canvas, width, height, pts: time }
}

/// Whether `frame` can be drawn over a `width` by `height` picture made by
/// `compose_frame` (see `can_overlay`).
pub fn layer_fits(width: u32, height: u32, frame: &DecodedFrame) -> (r: bool)
    ensures
        r == can_overlay(
            width * height * 4,
            width as int,
            height as int,
            frame.data@.len() as int,
            frame.width as int,
            frame.height as int,
        ),
{
    let w = width as u128;
    let h = height as u128;
    let fw = frame.width as u128;
    let fh = frame.height as u128;
    assert(w * h * 4 <= 0x4_0000_0000_0000_0000) by (nonlinear_arith)
        requires
            w <= u32::MAX,
            h <= u32::MAX,
    ;
    assert(fw * fh * 4 <= 0x4_0000_0000_0000_0000) by (nonlinear_arith)
        requires
            fw <= u32::MAX,
            fh <= u32::MAX,
    ;
    assert(w * fw <= 0x1_0000_0000_0000_0000 && h * fh <= 0x1_0000_0000_0000_0000) by (nonlinear_arith)
        requires
            w <= u32::MAX,
            h <= u32::MAX,
            fw <= u32::MAX,
            fh <= u32::MAX,
    ;
    let frame_ok = if w == 0 || h == 0 {
        true
    } else {
        assert((w - 1) * fw <= w * fw && (h - 1) * fh <= h * fh) by (nonlinear_arith)
            requires
                w >= 1,
                h >= 1,
                fw >= 0,
                fh >= 0,
        ;
        let mx = (w - 1) * fw / w;
        let my = (h - 1) * fh / h;
        assert(my <= (h - 1) * fh && mx <= (w - 1) * fw) by {
            vstd::arithmetic::div_mod::lemma_div_is_ordered_by_denominator(((h - 1) * fh) as int, 1, h as int);
            vstd::arithmetic::div_mod::lemma_div_is_ordered_by_denominator(((w - 1) * fw) as int, 1, w as int);
        }
        assert(my * fw <= 0x1_0000_0000 * 0x1_0000_0000 * 0x1_0000_0000) by (nonlinear_arith)
            requires
                my <= (h - 1) * fh,
                (h - 1) * fh <= 0x1_0000_0000_0000_0000,
                fw <= u32::MAX,
        ;
        frame.data.len() as u128 >= (my * fw + mx) * 4 + 4
    };
    let across = if w == 0 {
        true
    } else {
        assert((w - 1) * fw <= w * fw) by (nonlinear_arith)
            requires
                w >= 1,
                fw >= 0,
        ;
        (w - 1) * fw <= u32::MAX as u128
    };
    let down = if h == 0 {
        true
    } else {
        assert((h - 1) * fh <= h * fh) by (nonlinear_arith)
            requires
                h >= 1,
                fh >= 0,
        ;
        (h - 1) * fh <= u32::MAX as u128
    };
    frame_ok && across && down
}

/// Drawing a frame of the picture's own size whose pixels are all opaque
/// replaces the picture with the frame.
pub proof fn lemma_opaque_frame_replaces(canvas: Seq<u8>, w: int, h: int, src: Seq<u8>)
    requires
        w > 0,
        h > 0,
        canvas.len() == w * h * 4,
        src.len() == w * h * 4,
        forall|p: int| 0 <= p < w * h ==> #[trigger] src[p * 4 + 3] == 255,
    ensures
        overlaid(canvas, w, h, src, w, h) == src,
{
    let r = overlaid(canvas, w, h, src, w, h);
    assert(w * h * 4 == (w * h) * 4);
    assert forall|i: int| 0 <= i < src.len() implies #[trigger] r[i] == src[i] by {
        let p = i / 4;
        let c = i % 4;
        vstd::arithmetic::div_mod::lemma_fundamental_div_mod(i, 4);
        vstd::arithmetic::div_mod::lemma_mod_pos_bound(i, 4);
        let x = p % w;
        let y = p / w;
        vstd::arithmetic::div_mod::lemma_fundamental_div_mod(p, w);
        vstd::arithmetic::div_mod::lemma_mod_pos_bound(p, w);
        assert(0 <= p < w * h) by (nonlinear_arith)
            requires
                i == 4 * p + c,
                0 <= c < 4,
                0 <= i < (w * h) * 4,
        ;
        vstd::arithmetic::div_mod::lemma_div_pos_is_pos(p, w);
        assert(y * h / h == y) by {
            vstd::arithmetic::div_mod::lemma_div_multiples_vanish(y, h);
            assert(h * y == y * h) by (nonlinear_arith);
        }
        assert(x * w / w == x) by {
            vstd::arithmetic::div_mod::lemma_div_multiples_vanish(x, w);
            assert(w * x == x * w) by (nonlinear_arith);
        }
        assert(y * w + x == p) by (nonlinear_arith)
            requires
                p == w * y + x,
        ;
        assert(pixel_source(x, y, w, h, w, h) == p * 4);
        assert(src[p * 4 + 3] == 255);
        assert(p * 4 + c == i);
    }
    assert(r =~= src);
}

/// Drawing a frame over an `ow` by `oh` picture, byte by byte: output pixel
/// `(x, y)` (bytes from `(y * ow + x) * 4`) takes the frame pixel at column
/// `x * fw / ow` and row `y * fh / oh`, rounded down. An opaque frame pixel
/// (alpha 255) replaces the canvas pixel; a transparent one (alpha 0) leaves
/// it; one with alpha `a` in between mixes each colour channel as
/// `(frame * a + canvas * (255 - a)) / 255` and makes the pixel opaque. The
/// bytes past the picture stay as they were.
pub proof fn lemma_overlay_pixel(
    canvas: Seq<u8>,
    ow: int,
    oh: int,
    src: Seq<u8>,
    fw: int,
    fh: int,
    x: int,
    y: int,
    c: int,
)
    requires
        0 <= x < ow,
        0 <= y < oh,
        0 <= c < 4,
        fw >= 0,
        fh >= 0,
        canvas.len() >= ow * oh * 4,
        src.len() >= ((y * fh / oh) * fw + x * fw / ow) * 4 + 4,
    ensures
        overlaid(canvas, ow, oh, src, fw, fh).len() == canvas.len(),
        ({
            let r = overlaid(canvas, ow, oh, src, fw, fh);
            let d = (y * ow + x) * 4;
            let s = ((y * fh / oh) * fw + x * fw / ow) * 4;
            let a = src[s + 3] as int;
            &&& a == 255 ==> r[d + c] == src[s + c]
            &&& 0 < a < 255 && c < 3 ==> r[d + c] as int == (src[s + c] * a + canvas[d + c] * (255 - a)) / 255
            &&& 0 < a < 255 && c == 3 ==> r[d + c] == 255
            &&& a == 0 ==> r[d + c] == canvas[d + c]
        }),
        forall|i: int|
            ow * oh * 4 <= i < canvas.len() ==> #[trigger] overlaid(canvas, ow, oh, src, fw, fh)[i] == canvas[i],
{
    let r = overlaid(canvas, ow, oh, src, fw, fh);
    let p = y * ow + x;
    let d = p * 4;
    let i = d + c;
    lemma_pixel_position(x, y, ow, oh);
    lemma_byte_position(p, c);
    assert(ow * oh * 4 == (ow * oh) * 4);
    assert(i < (ow * oh) * 4);
    assert((i / 4) * 4 == d);
    let s = ((y * fh / oh) * fw + x * fw / ow) * 4;
    assert(pixel_source((i / 4) % ow, (i / 4) / ow, ow, oh, fw, fh) == s);
    assert(r[i] == overlaid_byte(canvas, src, d, s, c));
    let a = src[s + 3];
    if 0 < a < 255 && c < 3 {
        let sv = src[s + c];
        let dv = canvas[d + c];
        assert(sv * a + dv * (255 - a) <= 255 * 255) by (nonlinear_arith)
            requires
                sv <= 255,
                dv <= 255,
                0 < a < 255,
        ;
        assert(sv * a + dv * (255 - a) >= 0) by (nonlinear_arith)
            requires
                0 < a < 255,
        ;
    }
}

/// `r` fetches the frame that clip `c` shows at `time`: `c` shows then
/// (from its start up to, not including, its start plus its duration, held
/// to the range of `Time`), and `r` names its source at `time - start`
/// after the clip's in point (held to the range of `Time`).
pub open spec fn fetches_for(r: ClipRequest, c: Clip, time: int) -> bool {
    &&& c.start <= time < clamp_time(c.start + c.duration)
    &&& r.source_path == c.source_path
    &&& r.source_time == clamp_time(c.source_in + (time - c.start))
}

/// The frames fetched for `clips` at `time` are those of the clips that
/// show then: each request fetches for one of the clips, every clip that
/// shows has a request, and there are no more requests than clips.
pub proof fn lemma_clip_requests_match_clips(clips: Seq<Clip>, time: int)
    ensures
        clip_requests(clips, time).len() <= clips.len(),
        forall|m: int|
            0 <= m < clip_requests(clips, time).len() ==> exists|k: int|
                0 <= k < clips.len() && fetches_for(#[trigger] clip_requests(clips, time)[m], clips[k], time),
        forall|k: int|
            0 <= k < clips.len() && clips[k].start <= time < clamp_time(clips[k].start + clips[k].duration)
                ==> exists|m: int|
                0 <= m < clip_requests(clips, time).len() && fetches_for(
                    clip_requests(clips, time)[m],
                    #[trigger] clips[k],
                    time,
                ),
    decreases clips.len(),
{
    if clips.len() > 0 {
        let init = clips.drop_last();
        let c = clips.last();
        lemma_clip_requests_match_clips(init, time);
        let pre = clip_requests(init, time);
        let reqs = clip_requests(clips, time);
        assert forall|k: int| 0 <= k < init.len() implies #[trigger] init[k] == clips[k] by {}
        assert(c == clips[clips.len() - 1]);
        if covers(c, time) {
            assert(reqs == pre.push(request_for(c, time)));
            assert(fetches_for(reqs[pre.len() as int], c, time));
        } else {
            assert(reqs == pre);
        }
        assert forall|m: int| 0 <= m < reqs.len() implies exists|k: int|
            0 <= k < clips.len() && fetches_for(#[trigger] reqs[m], clips[k], time) by {
            if m < pre.len() {
                assert(reqs[m] == pre[m]);
                let k = choose|k: int| 0 <= k < init.len() && fetches_for(pre[m], init[k], time);
                assert(fetches_for(reqs[m], clips[k], time));
            } else {
                assert(fetches_for(reqs[m], clips[clips.len() - 1], time));
            }
        }
        assert forall|k: int|
            0 <= k < clips.len() && clips[k].start <= time < clamp_time(clips[k].start + clips[k].duration)
            implies exists|m: int| 0 <= m < reqs.len() && fetches_for(reqs[m], #[trigger] clips[k], time) by {
            if k < init.len() {
                assert(init[k] == clips[k]);
                let m = choose|m: int| 0 <= m < pre.len() && fetches_for(pre[m], init[k], time);
                assert(reqs[m] == pre[m]);
            } else {
                assert(fetches_for(reqs[pre.len() as int], clips[k], time));
            }
        }
    }
}

/// The frames fetched for the video tracks `tracks` at `time` are those of
/// the clips of the tracks that show then: each request fetches for a clip
/// of some track, and every clip that shows has a request.
pub proof fn lemma_track_requests_match_clips(tracks: Seq<TrackView>, time: int)
    ensures
        forall|m: int|
            0 <= m < track_requests(tracks, time).len() ==> exists|i: int, k: int|
                0 <= i < tracks.len() && 0 <= k < tracks[i].clips.len() && fetches_for(
                    #[trigger] track_requests(tracks, time)[m],
                    tracks[i].clips[k],
                    time,
                ),
        forall|i: int, k: int|
            0 <= i < tracks.len() && 0 <= k < tracks[i].clips.len() && tracks[i].clips[k].start <= time
                < clamp_time(tracks[i].clips[k].start + tracks[i].clips[k].duration) ==> exists|m: int|
                0 <= m < track_requests(tracks, time).len() && fetches_for(
                    track_requests(tracks, time)[m],
                    #[trigger] tracks[i].clips[k],
                    time,
                ),
    decreases tracks.len(),
{
    if tracks.len() > 0 {
        let init = tracks.drop_last();
        let last = tracks.last();
        let n = tracks.len() - 1;
        lemma_track_requests_match_clips(init, time);
        lemma_clip_requests_match_clips(last.clips, time);
        let pre = track_requests(init, time);
        let cur = clip_requests(last.clips, time);
        let reqs = track_requests(tracks, time);
        assert(reqs == pre + cur);
        assert(last == tracks[n]);
        assert forall|i: int| 0 <= i < init.len() implies #[trigger] init[i] == tracks[i] by {}
        assert forall|m: int| 0 <= m < reqs.len() implies exists|i: int, k: int|
            0 <= i < tracks.len() && 0 <= k < tracks[i].clips.len() && fetches_for(
                #[trigger] reqs[m],
                tracks[i].clips[k],
                time,
            ) by {
            if m < pre.len() {
                assert(reqs[m] == pre[m]);
                let (i, k) = choose|i: int, k: int|
                    0 <= i < init.len() && 0 <= k < init[i].clips.len() && fetches_for(
                        pre[m],
                        init[i].clips[k],
                        time,
                    );
                assert(init[i] == tracks[i]);
            } else {
                assert(reqs[m] == cur[m - pre.len()]);
                let k = choose|k: int| 0 <= k < last.clips.len() && fetches_for(cur[m - pre.len()], last.clips[k], time);
                assert(fetches_for(reqs[m], tracks[n].clips[k], time));
            }
        }
        assert forall|i: int, k: int|
            0 <= i < tracks.len() && 0 <= k < tracks[i].clips.len() && tracks[i].clips[k].start <= time
                < clamp_time(tracks[i].clips[k].start + tracks[i].clips[k].duration) implies exists|m: int|
            0 <= m < reqs.len() && fetches_for(reqs[m], #[trigger] tracks[i].clips[k], time) by {
            if i < n {
                assert(init[i] == tracks[i]);
                assert(init[i].clips[k] == tracks[i].clips[k]);
                let m = choose|m: int| 0 <= m < pre.len() && fetches_for(pre[m], init[i].clips[k], time);
                assert(reqs[m] == pre[m]);
            } else {
                assert(tracks[i].clips[k] == last.clips[k]);
                let m = choose|m: int| 0 <= m < cur.len() && fetches_for(cur[m], last.clips[k], time);
                assert(reqs[pre.len() + m] == cur[m]);
            }
        }
    }
}

} // verus!
