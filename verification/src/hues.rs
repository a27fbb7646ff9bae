//! What the colors of a style look like: the palettes that terminals have, and
//! which of their colors stands for which.

use vstd::prelude::*;

use crate::bytes::{digits, joined_with};
use crate::style::{
    abs_diff, ansi16, color_distance, color_part, cube_step, gray_step, is_nearest_cube,
    is_nearest_gray, lemma_first_cube, lemma_first_gray, nearest_cube, nearest_gray, xterm256,
    ColorMode, Rgb,
};

verus! {

/// One channel of the color cube of xterm.
pub open spec fn cube_level(step: int) -> int {
    if step == 0 {
        0
    } else if step == 1 {
        95
    } else if step == 2 {
        135
    } else if step == 3 {
        175
    } else if step == 4 {
        215
    } else {
        255
    }
}

/// The red that xterm shows for color `n` of its palette, from 16 on.
pub open spec fn red_of(n: int) -> int {
    if n < 232 {
        cube_level((n - 16) / 36)
    } else {
        8 + 10 * (n - 232)
    }
}

/// The green that xterm shows for color `n`.
pub open spec fn green_of(n: int) -> int {
    if n < 232 {
        cube_level((n - 16) / 6 % 6)
    } else {
        8 + 10 * (n - 232)
    }
}

/// The blue that xterm shows for color `n`.
pub open spec fn blue_of(n: int) -> int {
    if n < 232 {
        cube_level((n - 16) % 6)
    } else {
        8 + 10 * (n - 232)
    }
}

/// How far apart two channel values are.
pub open spec fn apart(a: int, b: int) -> int {
    if a <= b {
        b - a
    } else {
        a - b
    }
}

/// How far color `n` of the palette is from `c`: the sum of the squares over
/// the channels.
pub open spec fn off_by(c: Rgb, n: int) -> int {
    (c.r - red_of(n)) * (c.r - red_of(n)) + (c.g - green_of(n)) * (c.g - green_of(n)) + (c.b
        - blue_of(n)) * (c.b - blue_of(n))
}

proof fn lemma_square_grows(a: int, b: int)
    requires
        apart(a, 0) <= apart(b, 0),
    ensures
        a * a <= b * b,
{
    let x = apart(a, 0);
    let y = apart(b, 0);
    assert(x * x <= y * y) by (nonlinear_arith)
        requires
            0 <= x <= y,
    ;
    assert(a * a == x * x) by (nonlinear_arith)
        requires
            a == x || a == -x,
    ;
    assert(b * b == y * y) by (nonlinear_arith)
        requires
            b == y || b == -y,
    ;
}

proof fn lemma_cube_index(r: int, g: int, b: int)
    requires
        0 <= r < 6,
        0 <= g < 6,
        0 <= b < 6,
    ensures
        (36 * r + 6 * g + b) / 36 == r,
        (36 * r + 6 * g + b) / 6 % 6 == g,
        (36 * r + 6 * g + b) % 6 == b,
{
    let n = 36 * r + 6 * g + b;
    assert(n / 6 == 6 * r + g) by (nonlinear_arith)
        requires
            n == 6 * (6 * r + g) + b,
            0 <= b < 6,
    ;
    assert(n / 36 == r) by (nonlinear_arith)
        requires
            n == 36 * r + (6 * g + b),
            0 <= 6 * g + b < 36,
    ;
}

proof fn lemma_cube_steps(m: int)
    requires
        16 <= m < 232,
    ensures
        0 <= (m - 16) / 36 < 6,
        0 <= (m - 16) / 6 % 6 < 6,
        0 <= (m - 16) % 6 < 6,
{
}

proof fn lemma_level(i: int)
    requires
        0 <= i < 6,
    ensures
        cube_level(i) == cube_step(i),
{
}

/// The chosen steps are the closest ones.
proof fn lemma_chosen_steps(c: Rgb)
    ensures
        is_nearest_cube(c.r as int, nearest_cube(c.r as int)),
        is_nearest_cube(c.g as int, nearest_cube(c.g as int)),
        is_nearest_cube(c.b as int, nearest_cube(c.b as int)),
        is_nearest_gray((c.r + c.g + c.b) / 3, nearest_gray((c.r + c.g + c.b) / 3)),
{
    let r = lemma_first_cube(c.r as int, 6);
    let g = lemma_first_cube(c.g as int, 6);
    let b = lemma_first_cube(c.b as int, 6);
    let gray = lemma_first_gray((c.r + c.g + c.b) / 3, 24);
    assert(is_nearest_cube(c.r as int, r));
    assert(is_nearest_cube(c.g as int, g));
    assert(is_nearest_cube(c.b as int, b));
    assert(is_nearest_gray((c.r + c.g + c.b) / 3, gray));
}

/// A cube color by its steps, which are the closest ones, is no farther off than
/// any other color of the cube.
proof fn lemma_cube_closest(c: Rgb, n: int, m: int)
    requires
        16 <= m < 232,
        16 <= n < 232,
        is_nearest_cube(c.r as int, (n - 16) / 36),
        is_nearest_cube(c.g as int, (n - 16) / 6 % 6),
        is_nearest_cube(c.b as int, (n - 16) % 6),
    ensures
        apart(c.r as int, red_of(n)) <= apart(c.r as int, red_of(m)),
        apart(c.g as int, green_of(n)) <= apart(c.g as int, green_of(m)),
        apart(c.b as int, blue_of(n)) <= apart(c.b as int, blue_of(m)),
        off_by(c, n) <= off_by(c, m),
{
    lemma_cube_steps(m);
    lemma_cube_steps(n);
    lemma_level((m - 16) / 36);
    lemma_level((m - 16) / 6 % 6);
    lemma_level((m - 16) % 6);
    lemma_level((n - 16) / 36);
    lemma_level((n - 16) / 6 % 6);
    lemma_level((n - 16) % 6);
    assert(abs_diff(c.r as int, cube_step((n - 16) / 36)) <= abs_diff(
        c.r as int,
        cube_step((m - 16) / 36),
    ));
    assert(abs_diff(c.g as int, cube_step((n - 16) / 6 % 6)) <= abs_diff(
        c.g as int,
        cube_step((m - 16) / 6 % 6),
    ));
    assert(abs_diff(c.b as int, cube_step((n - 16) % 6)) <= abs_diff(
        c.b as int,
        cube_step((m - 16) % 6),
    ));
    lemma_square_grows(c.r - red_of(n), c.r - red_of(m));
    lemma_square_grows(c.g - green_of(n), c.g - green_of(m));
    lemma_square_grows(c.b - blue_of(n), c.b - blue_of(m));
}

/// The color of the palette of 256 that stands for a color. No color of the cube
/// is closer to it, also in any one channel where it is of the cube itself. Where
/// it is a gray, it is the one closest to the mean of the channels, and closer
/// than the cube; else that gray is not closer.
pub proof fn palette_colors_are_close(c: Rgb, m: int)
    ensures
        16 <= xterm256(c) <= 255,
        16 <= m < 232 ==> off_by(c, xterm256(c)) <= off_by(c, m),
        16 <= m < 232 && xterm256(c) < 232 ==> apart(c.r as int, red_of(xterm256(c))) <= apart(
            c.r as int,
            red_of(m),
        ) && apart(c.g as int, green_of(xterm256(c))) <= apart(c.g as int, green_of(m)) && apart(
            c.b as int,
            blue_of(xterm256(c)),
        ) <= apart(c.b as int, blue_of(m)),
        16 <= m < 232 && xterm256(c) >= 232 ==> off_by(c, xterm256(c)) < off_by(c, m),
        232 <= m <= 255 && xterm256(c) >= 232 ==> apart(
            (c.r + c.g + c.b) / 3,
            red_of(xterm256(c)),
        ) <= apart((c.r + c.g + c.b) / 3, red_of(m)),
        232 <= m <= 255 && xterm256(c) < 232 && (forall|k: int|
            232 <= k <= 255 ==> apart((c.r + c.g + c.b) / 3, red_of(m)) < apart(
                (c.r + c.g + c.b) / 3,
                #[trigger] red_of(k),
            ) || k == m) ==> off_by(c, xterm256(c)) <= off_by(c, m),
{
    let n = xterm256(c);
    let r = nearest_cube(c.r as int);
    let g = nearest_cube(c.g as int);
    let b = nearest_cube(c.b as int);
    let mean = (c.r + c.g + c.b) / 3;
    let gray = nearest_gray(mean);
    let cube = 16 + 36 * r + 6 * g + b;
    lemma_chosen_steps(c);
    lemma_cube_index(r, g, b);
    lemma_level(r);
    lemma_level(g);
    lemma_level(b);
    assert(off_by(c, cube) == color_distance(c, cube_step(r), cube_step(g), cube_step(b)));
    assert(off_by(c, 232 + gray) == color_distance(
        c,
        gray_step(gray),
        gray_step(gray),
        gray_step(gray),
    ));
    if 16 <= m < 232 {
        lemma_cube_closest(c, cube, m);
    }
    if 232 <= m <= 255 {
        assert(abs_diff(mean, gray_step(gray)) <= abs_diff(mean, gray_step(m - 232)));
        if n < 232 {
            if m - 232 != gray {
                assert(red_of(232 + gray) == gray_step(gray));
            }
        }
    }
}

/// A color that the palette of 256 has itself stands for itself.
pub proof fn palette_colors_are_kept(c: Rgb, m: int)
    requires
        16 <= m <= 255,
        c.r == red_of(m),
        c.g == green_of(m),
        c.b == blue_of(m),
    ensures
        xterm256(c) == m,
{
    let n = xterm256(c);
    palette_colors_are_close(c, m);
    lemma_chosen_steps(c);
    let r = nearest_cube(c.r as int);
    let g = nearest_cube(c.g as int);
    let b = nearest_cube(c.b as int);
    lemma_cube_index(r, g, b);
    if m < 232 {
        lemma_cube_steps(m);
        let x = (m - 16) / 36;
        let y = (m - 16) / 6 % 6;
        let z = (m - 16) % 6;
        assert(m - 16 == 36 * x + 6 * y + z) by (nonlinear_arith)
            requires
                x == (m - 16) / 36,
                y == (m - 16) / 6 % 6,
                z == (m - 16) % 6,
        ;
        assert(apart(c.r as int, cube_step(x)) == 0);
        assert(abs_diff(c.r as int, cube_step(r)) <= abs_diff(c.r as int, cube_step(x)));
        assert(abs_diff(c.g as int, cube_step(g)) <= abs_diff(c.g as int, cube_step(y)));
        assert(abs_diff(c.b as int, cube_step(b)) <= abs_diff(c.b as int, cube_step(z)));
        assert(off_by(c, m) == 0);
        assert(r == x && g == y && b == z);
        assert(n < 232) by {
            if n >= 232 {
                assert(off_by(c, n) >= 0) by {
                    lemma_square_grows(0, c.r - red_of(n));
                    lemma_square_grows(0, c.g - green_of(n));
                    lemma_square_grows(0, c.b - blue_of(n));
                }
            }
        }
    } else {
        let v = c.r as int;
        assert((c.r + c.g + c.b) / 3 == v);
        let gray = nearest_gray(v);
        assert(abs_diff(v, gray_step(gray)) <= abs_diff(v, gray_step(m - 232)));
        assert(gray == m - 232);
        assert(color_distance(c, v, v, v) == 0);
        let d = v - cube_step(r);
        assert(d != 0);
        assert(d * d > 0) by (nonlinear_arith)
            requires
                d != 0,
        ;
        lemma_square_grows(0, c.g - cube_step(g));
        lemma_square_grows(0, c.b - cube_step(b));
    }
}

/// The code of the 16 ANSI colors tells the channels that are lit: 1 is red, 2
/// green, 3 red and green, 4 blue, 5 red and blue, 6 green and blue. In its code,
/// from 30 on or, for bright colors, from 90 on, a channel that is named is
/// strong, and one that is not is weaker than it. Black and the grays have
/// channels that are close together.
pub proof fn ansi_codes_name_the_strong_channels(c: Rgb)
    ensures
        ({
            let code = ansi16(c);
            let gray = apart(c.r as int, c.g as int) < 32 && apart(c.g as int, c.b as int) < 32
                && apart(c.r as int, c.b as int) < 32;
            let dark = c.r < 48 && c.g < 48 && c.b < 48;
            &&& code == 30 <==> dark
            &&& code == 90 <==> !dark && gray && c.r < 160 && c.g < 160 && c.b < 160
            &&& code == 97 <==> gray && (c.r >= 160 || c.g >= 160 || c.b >= 160)
            &&& code == 31 ==> 120 <= c.r < 160 && c.g < 80 && c.b < 120
            &&& code == 91 ==> c.r >= 160 && c.g < 180 && c.r > c.g
            &&& code == 32 ==> 120 <= c.g < 160 && c.r < 120 && c.b < 120
            &&& code == 92 ==> c.g >= 160 && c.r < 180
            &&& code == 34 ==> 120 <= c.b < 160 && c.r < 140 && c.g < 120
            &&& code == 94 ==> c.b >= 160 && c.r < 140 && c.b > c.r
            &&& code == 33 ==> c.r >= 120 && c.g >= 80 && c.b < 160
            &&& code == 93 ==> c.r >= 220 && c.g >= 220 && c.b < 120
            &&& code == 35 ==> c.r >= 140 && c.b >= 120
            &&& code == 95 ==> c.r >= 180 && c.b >= 150 && c.g < 200
            &&& code == 36 ==> 120 <= c.g < 160 && 120 <= c.b < 160 && c.r < 140
            &&& code == 96 ==> c.g >= 180 && c.b >= 180 && c.r < 140
            &&& code == 37 ==> c.r < 120 && c.g < 120 && c.b < 120
            &&& 30 <= code <= 37 || 90 <= code <= 97
        }),
{
}

/// Text of one color is shown in one of the colors that the mode has: by its
/// channels, by the number of a palette color, or by one of the 16 codes, for
/// the foreground and, ten higher, for the background.
pub proof fn colors_are_written_in_their_mode(c: Rgb)
    ensures
        color_part(c, ColorMode::TrueColor, 30) == seq![0x33u8, 0x38, 0x3b, 0x32, 0x3b] + digits(
            c.r as nat,
        ) + seq![0x3bu8] + digits(c.g as nat) + seq![0x3bu8] + digits(c.b as nat),
        color_part(c, ColorMode::TrueColor, 40) == seq![0x34u8, 0x38, 0x3b, 0x32, 0x3b] + digits(
            c.r as nat,
        ) + seq![0x3bu8] + digits(c.g as nat) + seq![0x3bu8] + digits(c.b as nat),
        color_part(c, ColorMode::Xterm256, 30) == seq![0x33u8, 0x38, 0x3b, 0x35, 0x3b] + digits(
            xterm256(c) as nat,
        ),
        color_part(c, ColorMode::Xterm256, 40) == seq![0x34u8, 0x38, 0x3b, 0x35, 0x3b] + digits(
            xterm256(c) as nat,
        ),
        color_part(c, ColorMode::Ansi16, 30) == digits(ansi16(c) as nat),
        color_part(c, ColorMode::Ansi16, 40) == digits((ansi16(c) + 10) as nat),
{
    reveal_with_fuel(digits, 3);
    reveal_with_fuel(joined_with, 6);
    assert(digits(38) =~= seq![0x33u8, 0x38]);
    assert(digits(48) =~= seq![0x34u8, 0x38]);
    assert(digits(2) =~= seq![0x32u8]);
    assert(digits(5) =~= seq![0x35u8]);
    lemma_joined_five(
        digits(38),
        digits(2),
        digits(c.r as nat),
        digits(c.g as nat),
        digits(c.b as nat),
    );
    lemma_joined_five(
        digits(48),
        digits(2),
        digits(c.r as nat),
        digits(c.g as nat),
        digits(c.b as nat),
    );
    lemma_joined_three(digits(38), digits(5), digits(xterm256(c) as nat));
    lemma_joined_three(digits(48), digits(5), digits(xterm256(c) as nat));
    let x = digits(c.r as nat);
    let y = digits(c.g as nat);
    let z = digits(c.b as nat);
    assert(color_part(c, ColorMode::TrueColor, 30) =~= seq![0x33u8, 0x38, 0x3b, 0x32, 0x3b] + x
        + seq![0x3bu8] + y + seq![0x3bu8] + z);
    assert(color_part(c, ColorMode::TrueColor, 40) =~= seq![0x34u8, 0x38, 0x3b, 0x32, 0x3b] + x
        + seq![0x3bu8] + y + seq![0x3bu8] + z);
}

proof fn lemma_joined_three(a: Seq<u8>, b: Seq<u8>, c: Seq<u8>)
    ensures
        joined_with(seq![a, b, c], 0x3b) == a + seq![0x3bu8] + b + seq![0x3bu8] + c,
{
    let w = seq![a, b, c];
    assert(w.drop_last() =~= seq![a, b]);
    assert(w.drop_last().drop_last() =~= seq![a]);
    assert(joined_with(seq![a], 0x3b) == a);
    assert(joined_with(seq![a, b], 0x3b) =~= a + seq![0x3bu8] + b);
    assert(joined_with(w, 0x3b) =~= a + seq![0x3bu8] + b + seq![0x3bu8] + c);
}

proof fn lemma_joined_five(a: Seq<u8>, b: Seq<u8>, c: Seq<u8>, d: Seq<u8>, e: Seq<u8>)
    ensures
        joined_with(seq![a, b, c, d, e], 0x3b) == a + seq![0x3bu8] + b + seq![0x3bu8] + c
            + seq![0x3bu8] + d + seq![0x3bu8] + e,
{
    let w = seq![a, b, c, d, e];
    lemma_joined_three(a, b, c);
    assert(w.drop_last() =~= seq![a, b, c, d]);
    assert(w.drop_last().drop_last() =~= seq![a, b, c]);
    assert(joined_with(seq![a, b, c, d], 0x3b) =~= joined_with(seq![a, b, c], 0x3b) + seq![0x3bu8]
        + d);
    assert(joined_with(w, 0x3b) =~= joined_with(seq![a, b, c, d], 0x3b) + seq![0x3bu8] + e);
}

} // verus!
