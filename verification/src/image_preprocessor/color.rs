//! Colour models of image pixels.
use vstd::prelude::*;

use crate::data::ImageColorModel;
use crate::utils::{as_signed_byte, signed_half_wrapped};

verus! {

/// Three colour channels of a pixel.
pub type Color = (u8, u8, u8);

/// A number reduced to a byte.
#[verifier::opaque]
pub open spec fn wrapped(value: int) -> u8 {
    (value % 256) as u8
}

/// Adding to a byte and taking away again, or the other way round, gives the byte back.
proof fn wrapping_is_undone(byte: u8, change: int)
    ensures
        wrapped(wrapped(byte + change) - change) == byte,
        wrapped(wrapped(byte - change) + change) == byte,
        wrapped(change + wrapped(byte - change)) == byte,
{
    reveal(wrapped);
    assert((byte + change) % 256 - change == byte - 256 * ((byte + change) / 256));
    assert((byte - change) % 256 + change == byte - 256 * ((byte - change) / 256));
}

/// Bytes add up alike whether the second one is signed or not.
proof fn wrapping_adds(first: u8, second: u8)
    ensures
        first.wrapping_add(second) == wrapped(first + second),
        first.wrapping_add(second) == wrapped(first + as_signed_byte(second)),
        first.wrapping_sub(second) == wrapped(first - second),
        first.wrapping_sub(second) == wrapped(first - as_signed_byte(second)),
{
    reveal(wrapped);
}

/// Red, green and blue as luma and two biased chroma channels.
pub open spec fn ycocg(color: Color) -> Color {
    let (r, g, b) = color;
    (
        (r / 4 + g / 2 + b / 4) as u8,
        (r / 2 - b / 2 + 128) as u8,
        (g / 2 - r / 4 - b / 4 + 128) as u8,
    )
}

/// Red, green and blue as luma and two biased chroma channels that wrap around, without loss.
pub open spec fn ycocg_r(color: Color) -> Color {
    let (r, g, b) = color;
    let co = wrapped(r - b);
    let t = wrapped(b + as_signed_byte(co) / 2);
    let cg = wrapped(g - t);
    (wrapped(t + as_signed_byte(cg) / 2), wrapped(co + 128), wrapped(cg + 128))
}

/// Red, green and blue from luma and two biased chroma channels that wrap around.
pub open spec fn rgb_of_ycocg_r(color: Color) -> Color {
    let co = wrapped(color.1 - 128);
    let cg = wrapped(color.2 - 128);
    let t = wrapped(color.0 - as_signed_byte(cg) / 2);
    let b = wrapped(t - as_signed_byte(co) / 2);
    (wrapped(b + co), wrapped(cg + t), b)
}

/// Going to the reversible colour model and back changes no colour.
pub proof fn ycocg_r_is_reversible(color: Color)
    ensures
        rgb_of_ycocg_r(ycocg_r(color)) == color,
{
    let (r, g, b) = color;
    let co = wrapped(r - b);
    let t = wrapped(b + as_signed_byte(co) / 2);
    let cg = wrapped(g - t);
    wrapping_is_undone(co, 128);
    wrapping_is_undone(cg, 128);
    wrapping_is_undone(t, as_signed_byte(cg) / 2);
    wrapping_is_undone(g, t as int);
    wrapping_is_undone(b, as_signed_byte(co) / 2);
    wrapping_is_undone(r, b as int);
}

/// Going back from the reversible colour model and to it again changes no colour either.
pub proof fn rgb_of_ycocg_r_is_reversible(color: Color)
    ensures
        ycocg_r(rgb_of_ycocg_r(color)) == color,
{
    let co = wrapped(color.1 - 128);
    let cg = wrapped(color.2 - 128);
    let t = wrapped(color.0 - as_signed_byte(cg) / 2);
    let b = wrapped(t - as_signed_byte(co) / 2);
    wrapping_is_undone(color.1, 128);
    wrapping_is_undone(color.2, 128);
    wrapping_is_undone(color.0, as_signed_byte(cg) / 2);
    wrapping_is_undone(cg, t as int);
    wrapping_is_undone(t, as_signed_byte(co) / 2);
    wrapping_is_undone(co, b as int);
    assert(b + co == co + b);
}

/// The colour of a pixel.
pub open spec fn color_at(raw: Seq<u8>, channels: nat, pixel: int) -> Color {
    (raw[pixel * channels], raw[pixel * channels + 1], raw[pixel * channels + 2])
}

/// A channel of a colour.
pub open spec fn channel_of(color: Color, channel: int) -> u8 {
    if channel == 0 {
        color.0
    } else if channel == 1 {
        color.1
    } else {
        color.2
    }
}

/// Pixels with each colour replaced; further channels, and what is left behind the last whole
/// pixel, stay.
pub open spec fn recolored(
    raw: Seq<u8>,
    channels: nat,
    change: spec_fn(Color) -> Color,
) -> Seq<u8> {
    Seq::new(
        raw.len(),
        |i: int|
            if (i % (channels as int)) < 3 && (i / (channels as int)) < raw.len() / channels {
                channel_of(change(color_at(raw, channels, i / channels as int)), i % channels as int)
            } else {
                raw[i]
            },
    )
}

/// The change of colours that a colour model asks for.
pub open spec fn coloring(model: ImageColorModel) -> spec_fn(Color) -> Color {
    match model {
        ImageColorModel::Rgb => |color: Color| color,
        ImageColorModel::YCoCg => |color: Color| ycocg(color),
        ImageColorModel::YCoCgR => |color: Color| ycocg_r(color),
    }
}

/// Where a channel of a pixel stands.
pub proof fn channel_place(pixel: int, channels: int, channel: int)
    requires
        0 <= pixel,
        0 <= channel < channels,
    ensures
        0 <= pixel * channels,
        (pixel * channels + channel) / channels == pixel,
        (pixel * channels + channel) % channels == channel,
{
    assert(0 <= pixel * channels && (pixel * channels + channel) / channels == pixel && (pixel
        * channels + channel) % channels == channel) by (nonlinear_arith)
        requires
            0 <= pixel,
            0 <= channel < channels,
    ;
}

/// A whole pixel lies inside.
pub proof fn pixel_inside(pixel: int, channels: int, len: int)
    requires
        0 <= pixel < len / channels,
        0 < channels,
        0 <= len,
    ensures
        0 <= pixel * channels,
        pixel * channels + channels <= len,
{
    assert(0 <= pixel * channels && pixel * channels + channels <= len) by (nonlinear_arith)
        requires
            0 <= pixel < len / channels,
            0 < channels,
            0 <= len,
    ;
}

/// The colours after some pixels have been changed.
spec fn partly_recolored(
    raw: Seq<u8>,
    channels: nat,
    change: spec_fn(Color) -> Color,
    done: int,
) -> Seq<u8> {
    Seq::new(
        raw.len(),
        |i: int|
            if (i / (channels as int)) < done {
                recolored(raw, channels, change)[i]
            } else {
                raw[i]
            },
    )
}

/// Changing the next pixel.
proof fn recoloring_step(
    raw: Seq<u8>,
    channels: nat,
    change: spec_fn(Color) -> Color,
    done: int,
    next: Seq<u8>,
)
    requires
        channels >= 3,
        0 <= done < raw.len() / channels,
        ({
            let before = partly_recolored(raw, channels, change, done);
            let at = done * channels;
            let color = change(color_at(raw, channels, done));
            next == before.update(at, color.0).update(at + 1, color.1).update(at + 2, color.2)
        }),
    ensures
        next == partly_recolored(raw, channels, change, done + 1),
        color_at(partly_recolored(raw, channels, change, done), channels, done) == color_at(
            raw,
            channels,
            done,
        ),
{
    let c = channels as int;
    pixel_inside(done, c, raw.len() as int);
    let at = done * c;
    channel_place(done, c, 0);
    channel_place(done, c, 1);
    channel_place(done, c, 2);
    let goal = partly_recolored(raw, channels, change, done + 1);
    assert forall|i: int| 0 <= i < raw.len() implies #[trigger] next[i] == goal[i] by {
        let p = i / c;
        let k = i % c;
        assert(i == p * c + k && 0 <= k < c && 0 <= p) by (nonlinear_arith)
            requires
                p == i / c,
                k == i % c,
                c > 0,
                0 <= i,
        ;
        if p == done {
        } else {
            if k < 3 {
                assert(i != at && i != at + 1 && i != at + 2) by {
                    if i == at {
                    } else if i == at + 1 {
                    } else if i == at + 2 {
                    }
                }
            }
        }
    }
    assert(next =~= goal);
}

/// The end of recoloring.
proof fn recoloring_done(raw: Seq<u8>, channels: nat, change: spec_fn(Color) -> Color)
    requires
        channels >= 3,
    ensures
        partly_recolored(raw, channels, change, (raw.len() / channels) as int) == recolored(
            raw,
            channels,
            change,
        ),
{
    assert(partly_recolored(raw, channels, change, (raw.len() / channels) as int) =~= recolored(
        raw,
        channels,
        change,
    ));
}

/// One pixel in the rounded model.
fn ycocg_pixel(r: u8, g: u8, b: u8) -> (color: Color)
    ensures
        color == ycocg((r, g, b)),
{
    let y: u8 = r / 4 + g / 2 + b / 4;
    let co: i16 = (r / 2) as i16 - (b / 2) as i16 + 128;
    let cg: i16 = (g / 2) as i16 - (r / 4) as i16 - (b / 4) as i16 + 128;
    (y, co as u8, cg as u8)
}

/// One pixel in the reversible model.
fn ycocg_r_pixel(r: u8, g: u8, b: u8) -> (color: Color)
    ensures
        color == ycocg_r((r, g, b)),
{
    let co: u8 = r.wrapping_sub(b);
    let half_co: u8 = signed_half_wrapped(co);
    let t: u8 = b.wrapping_add(half_co);
    let cg: u8 = g.wrapping_sub(t);
    let half_cg: u8 = signed_half_wrapped(cg);
    let y: u8 = t.wrapping_add(half_cg);
    proof {
        wrapping_adds(r, b);
        wrapping_adds(b, half_co);
        wrapping_adds(g, t);
        wrapping_adds(t, half_cg);
        wrapping_adds(co, 128);
        wrapping_adds(cg, 128);
    }
    (y, co.wrapping_add(128), cg.wrapping_add(128))
}

/// One pixel back from the reversible model.
fn rgb_pixel(y: u8, biased_co: u8, biased_cg: u8) -> (color: Color)
    ensures
        color == rgb_of_ycocg_r((y, biased_co, biased_cg)),
{
    let co: u8 = biased_co.wrapping_sub(128);
    let cg: u8 = biased_cg.wrapping_sub(128);
    let half_cg: u8 = signed_half_wrapped(cg);
    let t: u8 = y.wrapping_sub(half_cg);
    let g: u8 = cg.wrapping_add(t);
    let half_co: u8 = signed_half_wrapped(co);
    let b: u8 = t.wrapping_sub(half_co);
    let r: u8 = b.wrapping_add(co);
    proof {
        wrapping_adds(biased_co, 128);
        wrapping_adds(biased_cg, 128);
        wrapping_adds(y, half_cg);
        wrapping_adds(cg, t);
        wrapping_adds(t, half_co);
        wrapping_adds(b, co);
    }
    (r, g, b)
}

/// Turns red, green and blue into luma and two chroma channels, with rounding.
pub fn convert_rgb_to_ycocg_channels(raw: &mut Vec<u8>, channels: usize)
    requires
        channels >= 3,
    ensures
        final(raw)@ == recolored(old(raw)@, channels as nat, coloring(ImageColorModel::YCoCg)),
{
    let ghost start = raw@;
    let ghost change = coloring(ImageColorModel::YCoCg);
    let pixels: usize = raw.len() / channels;
    let mut p: usize = 0;
    assert(raw@ =~= partly_recolored(start, channels as nat, change, 0));
    while p < pixels
        invariant
            p <= pixels == start.len() / channels as nat,
            channels >= 3,
            raw@.len() == start.len(),
            start.len() <= usize::MAX,
            change == coloring(ImageColorModel::YCoCg),
            raw@ == partly_recolored(start, channels as nat, change, p as int),
        decreases pixels - p,
    {
        proof {
            pixel_inside(p as int, channels as int, start.len() as int);
        }
        let at: usize = p * channels;
        let ghost before = raw@;
        let color = ycocg_pixel(raw[at], raw[at + 1], raw[at + 2]);
        raw.set(at, color.0);
        raw.set(at + 1, color.1);
        raw.set(at + 2, color.2);
        proof {
            channel_place(p as int, channels as int, 0);
            channel_place(p as int, channels as int, 1);
            channel_place(p as int, channels as int, 2);
            assert(color_at(before, channels as nat, p as int) == color_at(
                start,
                channels as nat,
                p as int,
            ));
            recoloring_step(start, channels as nat, change, p as int, raw@);
        }
        p += 1;
    }
    proof {
        recoloring_done(start, channels as nat, change);
    }
}

/// Turns red, green and blue into luma and two chroma channels, without loss.
pub fn convert_rgb_to_ycocg_r_channels(raw: &mut Vec<u8>, channels: usize)
    requires
        channels >= 3,
    ensures
        final(raw)@ == recolored(old(raw)@, channels as nat, coloring(ImageColorModel::YCoCgR)),
{
    let ghost start = raw@;
    let ghost change = coloring(ImageColorModel::YCoCgR);
    let pixels: usize = raw.len() / channels;
    let mut p: usize = 0;
    assert(raw@ =~= partly_recolored(start, channels as nat, change, 0));
    while p < pixels
        invariant
            p <= pixels == start.len() / channels as nat,
            channels >= 3,
            raw@.len() == start.len(),
            start.len() <= usize::MAX,
            change == coloring(ImageColorModel::YCoCgR),
            raw@ == partly_recolored(start, channels as nat, change, p as int),
        decreases pixels - p,
    {
        proof {
            pixel_inside(p as int, channels as int, start.len() as int);
        }
        let at: usize = p * channels;
        let ghost before = raw@;
        let color = ycocg_r_pixel(raw[at], raw[at + 1], raw[at + 2]);
        raw.set(at, color.0);
        raw.set(at + 1, color.1);
        raw.set(at + 2, color.2);
        proof {
            channel_place(p as int, channels as int, 0);
            channel_place(p as int, channels as int, 1);
            channel_place(p as int, channels as int, 2);
            assert(color_at(before, channels as nat, p as int) == color_at(
                start,
                channels as nat,
                p as int,
            ));
            recoloring_step(start, channels as nat, change, p as int, raw@);
        }
        p += 1;
    }
    proof {
        recoloring_done(start, channels as nat, change);
    }
}

/// Turns luma and two wrapped chroma channels back into red, green and blue.
pub fn convert_ycocg_r_to_rgb_channels(raw: &mut Vec<u8>, channels: usize)
    requires
        channels >= 3,
    ensures
        final(raw)@ == recolored(
            old(raw)@,
            channels as nat,
            |color: Color| rgb_of_ycocg_r(color),
        ),
{
    let ghost start = raw@;
    let ghost change = |color: Color| rgb_of_ycocg_r(color);
    let pixels: usize = raw.len() / channels;
    let mut p: usize = 0;
    assert(raw@ =~= partly_recolored(start, channels as nat, change, 0));
    while p < pixels
        invariant
            p <= pixels == start.len() / channels as nat,
            channels >= 3,
            raw@.len() == start.len(),
            start.len() <= usize::MAX,
            change == (|color: Color| rgb_of_ycocg_r(color)),
            raw@ == partly_recolored(start, channels as nat, change, p as int),
        decreases pixels - p,
    {
        proof {
            pixel_inside(p as int, channels as int, start.len() as int);
        }
        let at: usize = p * channels;
        let ghost before = raw@;
        let color = rgb_pixel(raw[at], raw[at + 1], raw[at + 2]);
        raw.set(at, color.0);
        raw.set(at + 1, color.1);
        raw.set(at + 2, color.2);
        proof {
            channel_place(p as int, channels as int, 0);
            channel_place(p as int, channels as int, 1);
            channel_place(p as int, channels as int, 2);
            assert(color_at(before, channels as nat, p as int) == color_at(
                start,
                channels as nat,
                p as int,
            ));
            recoloring_step(start, channels as nat, change, p as int, raw@);
        }
        p += 1;
    }
    proof {
        recoloring_done(start, channels as nat, change);
    }
}

/// Pixels taken to the reversible colour model and back are the same pixels.
pub proof fn recoloring_is_undone(raw: Seq<u8>, channels: nat)
    requires
        channels >= 3,
    ensures
        recolored(
            recolored(raw, channels, coloring(ImageColorModel::YCoCgR)),
            channels,
            |color: Color| rgb_of_ycocg_r(color),
        ) == raw,
{
    let c = channels as int;
    let coded = recolored(raw, channels, coloring(ImageColorModel::YCoCgR));
    let back = recolored(coded, channels, |color: Color| rgb_of_ycocg_r(color));
    assert forall|i: int| 0 <= i < raw.len() implies #[trigger] back[i] == raw[i] by {
        let p = i / c;
        let k = i % c;
        assert(i == p * c + k && 0 <= k < c && 0 <= p) by (nonlinear_arith)
            requires
                p == i / c,
                k == i % c,
                c > 0,
                0 <= i,
        ;
        if k < 3 && p < raw.len() / channels {
            pixel_inside(p, c, raw.len() as int);
            channel_place(p, c, 0);
            channel_place(p, c, 1);
            channel_place(p, c, 2);
            let color = color_at(raw, channels, p);
            ycocg_r_is_reversible(color);
            assert(color_at(coded, channels, p) == ycocg_r(color));
        }
    }
    assert(back =~= raw);
}

} // verus!
