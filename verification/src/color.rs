//! The colour of a pitch.
//!
//! A pitch class is a position within one octave, a fraction between 0 and 1
//! that repeats with period 1. Its hue runs from yellow over red and blue back
//! to yellow, unevenly, in three stretches of the octave; saturation and value
//! then give the colour its red, green and blue parts.

use vstd::prelude::*;
use crate::fixed::{
    div_rem_floor,
    lemma_product_bound,
    lemma_quotient_bound,
    wrap,
    wrapped,
    ONE,
    SPAN_MAX,
};

verus! {

/// A full turn of the colour wheel, in millionths of a degree.
pub const TURN: i64 = 360_000_000;

/// A sixth of a turn.
pub const SEXTANT: i64 = 60_000_000;

/// The place of `note` in its octave, from 0 to 12, in millionths.
pub open spec fn octave_place(note: int) -> int {
    wrapped(note, ONE as int) * 12
}

/// The hue of the pitch class `note`, in millionths of a degree, before it is
/// brought onto the wheel. With `p` the place in the octave, the hue in turns
/// is `(4 - p) / 24` below 4, `(4 - p) / 12` from 4 to 8, and
/// `(12 - p) / 8 + 1 / 6` from 8 on.
pub open spec fn hue_degrees(note: int) -> int {
    let p = octave_place(note);
    if p < 4 * ONE {
        (4 * ONE - p) * 15
    } else if p < 8 * ONE {
        (4 * ONE - p) * 30
    } else {
        (12 * ONE - p) * 45 + SEXTANT
    }
}

/// `x` brought into the range from 0 to 1.
pub open spec fn unit(x: int) -> int {
    if x < 0 {
        0
    } else if x > ONE {
        ONE as int
    } else {
        x
    }
}

/// `x` brought into the range from -1000 to 1000, beyond which saturation and
/// value are not told apart.
pub open spec fn limited(x: int) -> int {
    if x < -SPAN_MAX {
        -SPAN_MAX
    } else if x > SPAN_MAX {
        SPAN_MAX as int
    } else {
        x
    }
}

/// Red, green and blue of the colour with the given hue (in millionths of a
/// degree, any number of turns), saturation and value: the usual conversion
/// by the sixth of the wheel that the hue lies in, each part then taken into
/// the range from 0 to 1.
pub open spec fn hsv_to_rgb(hue: int, saturation: int, value: int) -> (int, int, int) {
    let h = wrapped(hue, TURN as int);
    let s = limited(saturation);
    let v = limited(value);
    let chroma = (v * s) / (ONE as int);
    let f = h % (2 * SEXTANT);
    let away = if f <= SEXTANT {
        SEXTANT - f
    } else {
        f - SEXTANT
    };
    let second = (chroma * (SEXTANT - away)) / (SEXTANT as int);
    let floor = v - chroma;
    let sector = h / (SEXTANT as int);
    if sector == 0 {
        (unit(chroma + floor), unit(second + floor), unit(floor))
    } else if sector == 1 {
        (unit(second + floor), unit(chroma + floor), unit(floor))
    } else if sector == 2 {
        (unit(floor), unit(chroma + floor), unit(second + floor))
    } else if sector == 3 {
        (unit(floor), unit(second + floor), unit(chroma + floor))
    } else if sector == 4 {
        (unit(second + floor), unit(floor), unit(chroma + floor))
    } else {
        (unit(chroma + floor), unit(floor), unit(second + floor))
    }
}

/// Red, green and blue of the pitch class `note`.
pub open spec fn pitch_rgb(note: int, saturation: int, value: int) -> (int, int, int) {
    hsv_to_rgb(hue_degrees(note), saturation, value)
}

/// Each part of a colour lies between 0 and 1.
pub open spec fn in_gamut(rgb: (int, int, int)) -> bool {
    &&& 0 <= rgb.0 <= ONE
    &&& 0 <= rgb.1 <= ONE
    &&& 0 <= rgb.2 <= ONE
}

/// The hue of the pitch class `note`, in millionths of a degree.
pub fn pitch_hue(note: i64) -> (hue: i64)
    ensures
        hue == hue_degrees(note as int),
        -2 * SEXTANT < hue <= 4 * SEXTANT,
{
    let p: i64 = wrap(note, ONE) * 12;
    if p < 4 * ONE {
        (4 * ONE - p) * 15
    } else if p < 8 * ONE {
        (4 * ONE - p) * 30
    } else {
        (12 * ONE - p) * 45 + SEXTANT
    }
}

fn clamp_unit(x: i128) -> (r: i64)
    ensures
        r == unit(x as int),
{
    if x < 0 {
        0
    } else if x > ONE as i128 {
        ONE
    } else {
        x as i64
    }
}

fn limit(x: i64) -> (r: i128)
    ensures
        r == limited(x as int),
{
    if x < -SPAN_MAX {
        -SPAN_MAX as i128
    } else if x > SPAN_MAX {
        SPAN_MAX as i128
    } else {
        x as i128
    }
}

/// The colour of the pitch class `note` as red, green and blue, each between
/// 0 and 1. The pitch class is taken modulo 1.
pub fn cc_to_rgb(note: i64, saturation: i64, value: i64) -> (rgb: [i64; 3])
    ensures
        (rgb[0] as int, rgb[1] as int, rgb[2] as int) == pitch_rgb(
            note as int,
            saturation as int,
            value as int,
        ),
        in_gamut((rgb[0] as int, rgb[1] as int, rgb[2] as int)),
{
    let h: i64 = wrap(pitch_hue(note), TURN);
    let s: i128 = limit(saturation);
    let v: i128 = limit(value);
    proof {
        lemma_product_bound(v as int, s as int, SPAN_MAX as int, SPAN_MAX as int);
    }
    let (chroma, _) = div_rem_floor(v * s, ONE as i128);
    proof {
        lemma_quotient_bound(v * s, ONE as int, SPAN_MAX * SPAN_MAX);
    }
    let f: i64 = h % (2 * SEXTANT);
    let away: i64 = if f <= SEXTANT {
        SEXTANT - f
    } else {
        f - SEXTANT
    };
    proof {
        lemma_product_bound(
            chroma as int,
            (SEXTANT - away) as int,
            SPAN_MAX * SPAN_MAX,
            SEXTANT as int,
        );
    }
    let (second, _) = div_rem_floor(chroma * ((SEXTANT - away) as i128), SEXTANT as i128);
    proof {
        lemma_quotient_bound(
            chroma * (SEXTANT - away),
            SEXTANT as int,
            SPAN_MAX * SPAN_MAX * SEXTANT,
        );
    }
    let floor: i128 = v - chroma;
    let sector: i64 = h / SEXTANT;
    if sector == 0 {
        [clamp_unit(chroma + floor), clamp_unit(second + floor), clamp_unit(floor)]
    } else if sector == 1 {
        [clamp_unit(second + floor), clamp_unit(chroma + floor), clamp_unit(floor)]
    } else if sector == 2 {
        [clamp_unit(floor), clamp_unit(chroma + floor), clamp_unit(second + floor)]
    } else if sector == 3 {
        [clamp_unit(floor), clamp_unit(second + floor), clamp_unit(chroma + floor)]
    } else if sector == 4 {
        [clamp_unit(second + floor), clamp_unit(floor), clamp_unit(chroma + floor)]
    } else {
        [clamp_unit(chroma + floor), clamp_unit(floor), clamp_unit(second + floor)]
    }
}

/// The largest of three numbers.
pub open spec fn largest(rgb: (int, int, int)) -> int {
    if rgb.0 >= rgb.1 && rgb.0 >= rgb.2 {
        rgb.0
    } else if rgb.1 >= rgb.2 {
        rgb.1
    } else {
        rgb.2
    }
}

/// The smallest of three numbers.
pub open spec fn smallest(rgb: (int, int, int)) -> int {
    if rgb.0 <= rgb.1 && rgb.0 <= rgb.2 {
        rgb.0
    } else if rgb.1 <= rgb.2 {
        rgb.1
    } else {
        rgb.2
    }
}

/// For a saturation and a value between 0 and 1 the largest part of the
/// colour is the value, and the smallest is the value less its product with
/// the saturation.
pub proof fn lemma_value_is_largest_part(hue: int, saturation: int, value: int)
    requires
        0 <= saturation <= ONE,
        0 <= value <= ONE,
    ensures
        largest(hsv_to_rgb(hue, saturation, value)) == value,
        smallest(hsv_to_rgb(hue, saturation, value)) == value - (value * saturation) / (
        ONE as int),
{
    let v = value;
    let s = saturation;
    let chroma = (v * s) / (ONE as int);
    assert(0 <= v * s <= v * ONE) by (nonlinear_arith)
        requires
            0 <= v <= ONE,
            0 <= s <= ONE,
    ;
    vstd::arithmetic::div_mod::lemma_div_is_ordered(0, v * s, ONE as int);
    vstd::arithmetic::div_mod::lemma_div_is_ordered(v * s, v * ONE, ONE as int);
    vstd::arithmetic::div_mod::lemma_div_multiples_vanish(v, ONE as int);
    assert(0 <= chroma <= v);
    let h = wrapped(hue, TURN as int);
    vstd::arithmetic::div_mod::lemma_mod_bound(hue, TURN as int);
    let f = h % (2 * SEXTANT);
    let away = if f <= SEXTANT {
        SEXTANT - f
    } else {
        f - SEXTANT
    };
    assert(0 <= chroma * (SEXTANT - away) <= chroma * SEXTANT) by (nonlinear_arith)
        requires
            0 <= chroma,
            0 <= SEXTANT - away <= SEXTANT,
    ;
    vstd::arithmetic::div_mod::lemma_div_is_ordered(0, chroma * (SEXTANT - away), SEXTANT as int);
    vstd::arithmetic::div_mod::lemma_div_is_ordered(
        chroma * (SEXTANT - away),
        chroma * SEXTANT,
        SEXTANT as int,
    );
    vstd::arithmetic::div_mod::lemma_div_multiples_vanish(chroma, SEXTANT as int);
    let second = (chroma * (SEXTANT - away)) / (SEXTANT as int);
    assert(0 <= second <= chroma);
}

/// The colour of a pitch class repeats with period 1, at pitch class 0 the
/// hue is 4/24 of a turn, and each part of the colour lies between 0 and 1.
pub proof fn lemma_pitch_colour(note: int, octaves: int, saturation: int, value: int)
    ensures
        pitch_rgb(note + octaves * ONE, saturation, value) == pitch_rgb(note, saturation, value),
        24 * hue_degrees(0) == 4 * TURN,
        in_gamut(pitch_rgb(note, saturation, value)),
{
    vstd::arithmetic::div_mod::lemma_mod_multiples_vanish(octaves, note, ONE as int);
    assert(note + octaves * ONE == ONE * octaves + note) by (nonlinear_arith);
}

} // verus!
