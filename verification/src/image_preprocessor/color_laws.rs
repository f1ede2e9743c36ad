//! What the colour models tell of colours.
use vstd::prelude::*;

use crate::data::ImageColorModel;
use crate::image_preprocessor::color::{
    channel_place, color_at, coloring, recolored, rgb_of_ycocg_r, wrapped, ycocg, ycocg_r,
    ycocg_r_is_reversible, Color,
};
use crate::utils::as_signed_byte;

verus! {

/// A colour with red and blue exchanged.
pub open spec fn red_and_blue_exchanged(color: Color) -> Color {
    (color.2, color.1, color.0)
}

/// Exchanging red and blue turns the orange chroma of the rounded model around its bias, so that both
/// add up to twice the bias, and leaves luma and green chroma as they are.
pub proof fn exchange_turns_orange_chroma(color: Color)
    ensures
        ycocg(red_and_blue_exchanged(color)).0 == ycocg(color).0,
        ycocg(red_and_blue_exchanged(color)).1 + ycocg(color).1 == 256,
        ycocg(red_and_blue_exchanged(color)).2 == ycocg(color).2,
{
}

/// The orange chroma of the rounded model is above its bias just where half of red is more than half of
/// blue, and below it where half of blue is more.
pub proof fn orange_chroma_tells_red_from_blue(color: Color)
    ensures
        ycocg(color).1 > 128 <==> color.0 / 2 > color.2 / 2,
        ycocg(color).1 < 128 <==> color.0 / 2 < color.2 / 2,
{
}

/// More red makes neither luma nor orange chroma of the rounded model less, and the green chroma not
/// more; more green makes luma and green chroma not less and leaves the orange chroma.
pub proof fn chroma_follows_colors(color: Color, red: u8, green: u8)
    requires
        red >= color.0,
        green >= color.1,
    ensures
        ycocg((red, color.1, color.2)).0 >= ycocg(color).0,
        ycocg((red, color.1, color.2)).1 >= ycocg(color).1,
        ycocg((red, color.1, color.2)).2 <= ycocg(color).2,
        ycocg((color.0, green, color.2)).0 >= ycocg(color).0,
        ycocg((color.0, green, color.2)).1 == ycocg(color).1,
        ycocg((color.0, green, color.2)).2 >= ycocg(color).2,
{
}

/// Luma and chroma of the rounded model give the colour back, but for what was rounded away: green up
/// to one, red and blue up to three.
pub proof fn rounded_model_keeps_colors(color: Color)
    ensures
        ({
            let (y, co, cg) = ycocg(color);
            let orange = co - 128;
            let green = cg - 128;
            &&& y + green <= color.1 <= y + green + 1
            &&& y - green + orange <= color.0 <= y - green + orange + 3
            &&& y - green - orange <= color.2 <= y - green - orange + 3
        }),
{
}

/// A gray colour of four times some number, or up to three more, has no orange chroma in the rounded
/// model, and up to three less luma.
pub proof fn gray_has_no_chroma(level: u8)
    ensures
        ycocg((level, level, level)).1 == 128,
        128 <= ycocg((level, level, level)).2 <= 129,
        level - 3 <= ycocg((level, level, level)).0 <= level,
{
}

/// Reducing to a byte before adding or taking away makes no difference, and a byte stays as it is.
proof fn wrapping_nests(first: int, second: int)
    ensures
        wrapped(wrapped(first) + second) == wrapped(first + second),
        wrapped(first - wrapped(second)) == wrapped(first - second),
        0 <= first < 256 ==> wrapped(first) == first,
{
    reveal(wrapped);
    assert((first % 256 + second) % 256 == (first + second) % 256);
    assert((first - second % 256) % 256 == (first - second) % 256);
}

/// Biased bytes are alike where the bytes are, and are the bias for a byte of zero alone.
proof fn bias_keeps_apart(first: u8, second: u8)
    ensures
        wrapped(first + 128) == wrapped(second + 128) <==> first == second,
        wrapped(first + 128) == 128 <==> first == 0,
{
    reveal(wrapped);
}

/// A small difference of bytes is found again in the signed byte.
proof fn small_difference(first: int, second: int)
    requires
        0 <= first < 256,
        0 <= second < 256,
    ensures
        wrapped(first - second) == 0 <==> first == second,
        -128 <= first - second < 128 ==> as_signed_byte(wrapped(first - second)) == first - second,
{
    reveal(wrapped);
}

/// In the reversible model the orange chroma tells how much more red there is than blue, and the green
/// chroma how much more green than the luma before green counts; both wrap around.
pub proof fn chroma_tells_differences(color: Color, other: Color)
    ensures
        wrapped(color.0 - color.2) == wrapped(other.0 - other.2) <==> ycocg_r(color).1 == ycocg_r(
            other,
        ).1,
        ycocg_r(color).1 == 128 <==> color.0 == color.2,
        color.0 == color.2 ==> (ycocg_r(color).2 == 128 <==> color.1 == color.0),
        -128 <= color.0 - color.2 < 128 ==> ycocg_r(color).1 == color.0 - color.2 + 128,
{
    let co = wrapped(color.0 - color.2);
    let t = wrapped(color.2 + as_signed_byte(co) / 2);
    bias_keeps_apart(co, wrapped(other.0 - other.2));
    bias_keeps_apart(wrapped(color.1 - t), 0);
    small_difference(color.0 as int, color.2 as int);
    small_difference(color.1 as int, t as int);
    wrapping_nests(color.0 - color.2, 128);
    wrapping_nests(color.0 - color.2 + 128, 0);
    wrapping_nests(color.2 as int, 0);
}

/// A gray colour has no chroma in the reversible model, and itself as luma.
pub proof fn gray_is_its_own_luma(level: u8)
    ensures
        ycocg_r((level, level, level)) == (level, 128u8, 128u8),
{
    reveal(wrapped);
}

/// Brightening all channels of a colour by the same amount, with wrapping, leaves the chroma of the
/// reversible model and brightens its luma by as much.
pub proof fn brightening_changes_luma(color: Color, amount: int)
    ensures
        ({
            let brighter = (
                wrapped(color.0 + amount),
                wrapped(color.1 + amount),
                wrapped(color.2 + amount),
            );
            &&& ycocg_r(brighter).0 == wrapped(ycocg_r(color).0 + amount)
            &&& ycocg_r(brighter).1 == ycocg_r(color).1
            &&& ycocg_r(brighter).2 == ycocg_r(color).2
        }),
{
    let (r, g, b) = color;
    let co = wrapped(r - b);
    let half = as_signed_byte(co) / 2;
    let t = wrapped(b + half);
    let cg = wrapped(g - t);
    let lift = as_signed_byte(cg) / 2;
    wrapping_nests(r + amount, -wrapped(b + amount));
    wrapping_nests(r + amount, b + amount);
    assert(wrapped(wrapped(r + amount) - wrapped(b + amount)) == co);
    wrapping_nests(b + amount, half);
    wrapping_nests(g + amount, -wrapped(b + amount + half));
    wrapping_nests(g + amount, b + amount + half);
    wrapping_nests(g as int, b + half);
    assert(wrapped(wrapped(g + amount) - wrapped(b + amount + half)) == cg);
    wrapping_nests(b + amount + half, lift);
    wrapping_nests(b + half, lift);
    wrapping_nests(b + half + lift, amount);
}

/// Where the channels of a colour are so near that nothing wraps around, the luma of the reversible
/// model lies between the least and the greatest of them.
pub proof fn luma_lies_between(color: Color, least: u8, greatest: u8)
    requires
        least <= color.0 <= greatest,
        least <= color.1 <= greatest,
        least <= color.2 <= greatest,
        greatest - least < 128,
    ensures
        least <= ycocg_r(color).0 <= greatest,
{
    let (r, g, b) = color;
    small_difference(r as int, b as int);
    let t = b + (r - b) / 2;
    wrapping_nests(t, 0);
    small_difference(g as int, t);
    wrapping_nests(t + (g - t) / 2, 0);
}

/// Recolouring changes the colour of every whole pixel as the change says, and nothing else: further
/// channels and bytes behind the last whole pixel stay.
pub proof fn every_pixel_is_recolored(
    raw: Seq<u8>,
    channels: nat,
    change: spec_fn(Color) -> Color,
    pixel: int,
    channel: int,
)
    requires
        channels >= 3,
        0 <= pixel,
        0 <= channel < channels,
        pixel * channels + channel < raw.len(),
    ensures
        recolored(raw, channels, change).len() == raw.len(),
        pixel * channels + channels <= raw.len() ==> color_at(
            recolored(raw, channels, change),
            channels,
            pixel,
        ) == change(color_at(raw, channels, pixel)),
        channel >= 3 || pixel * channels + channels > raw.len() ==> recolored(
            raw,
            channels,
            change,
        )[pixel * channels + channel] == raw[pixel * channels + channel],
{
    let c = channels as int;
    let n = raw.len() as int;
    channel_place(pixel, c, 0);
    channel_place(pixel, c, 1);
    channel_place(pixel, c, 2);
    channel_place(pixel, c, channel);
    assert((pixel < n / c) == (pixel * c + c <= n)) by (nonlinear_arith)
        requires
            0 < c,
            0 <= n,
            0 <= pixel,
    ;
    assert(0 <= pixel * c);
}

/// The colour model of an image leaves its colours, takes them to the rounded model or to the
/// reversible one.
pub proof fn models_change_colors(color: Color)
    ensures
        coloring(ImageColorModel::Rgb)(color) == color,
        coloring(ImageColorModel::YCoCg)(color) == ycocg(color),
        rgb_of_ycocg_r(coloring(ImageColorModel::YCoCgR)(color)) == color,
{
    ycocg_r_is_reversible(color);
}

} // verus!
