//! Style parser and SGR rendering.

use vstd::prelude::*;
use vstd::string::*;

use crate::bytes::{digit_bytes, digits, join_with, joined_with, push_all, vec_views};

verus! {

/// RGB color value.
#[derive(Clone, Copy, Debug, PartialEq, Eq, Structural, Hash)]
pub struct Rgb {
    pub r: u8,
    pub g: u8,
    pub b: u8,
}

/// Color depth used when emitting styles.
#[derive(Clone, Copy, Debug, PartialEq, Eq, Structural)]
pub enum ColorMode {
    /// Approximate colors to the 16 ANSI colors.
    Ansi16,
    /// Emit `38;2` and `48;2` sequences.
    TrueColor,
    /// Approximate colors to the xterm palette of 256.
    Xterm256,
}

/// Terminal style attributes applied to highlighted spans.
#[derive(Clone, Copy, Debug, PartialEq, Eq, Structural, Hash)]
pub struct Style {
    pub foreground: Option<Rgb>,
    pub background: Option<Rgb>,
    pub bold: bool,
    pub blink: bool,
    pub invert: bool,
    pub italic: bool,
    pub strike: bool,
    pub underline: bool,
}

impl Style {
    /// The style that sets nothing.
    pub open spec fn plain() -> Style {
        Style {
            foreground: None,
            background: None,
            bold: false,
            blink: false,
            invert: false,
            italic: false,
            strike: false,
            underline: false,
        }
    }

    /// `self` overlaid with `other`: its colors replace, its attributes add.
    pub open spec fn merged(self, other: Style) -> Style {
        Style {
            foreground: if other.foreground is Some {
                other.foreground
            } else {
                self.foreground
            },
            background: if other.background is Some {
                other.background
            } else {
                self.background
            },
            bold: self.bold || other.bold,
            blink: self.blink || other.blink,
            invert: self.invert || other.invert,
            italic: self.italic || other.italic,
            strike: self.strike || other.strike,
            underline: self.underline || other.underline,
        }
    }

    /// Returns true when no color or text attribute is set.
    pub fn is_empty(&self) -> (r: bool)
        ensures
            r == (*self == Style::plain()),
    {
        self.foreground.is_none() && self.background.is_none() && !self.bold && !self.blink
            && !self.invert && !self.italic && !self.strike && !self.underline
    }

    /// Merges another style, replacing colors and adding text attributes.
    pub fn merge_from(&mut self, other: &Style)
        ensures
            *final(self) == old(self).merged(*other),
    {
        if other.foreground.is_some() {
            self.foreground = other.foreground;
        }
        if other.background.is_some() {
            self.background = other.background;
        }
        self.bold = self.bold || other.bold;
        self.blink = self.blink || other.blink;
        self.invert = self.invert || other.invert;
        self.italic = self.italic || other.italic;
        self.strike = self.strike || other.strike;
        self.underline = self.underline || other.underline;
    }
}

impl Default for Style {
    fn default() -> (r: Self)
        ensures
            r == Style::plain(),
    {
        Style {
            foreground: None,
            background: None,
            bold: false,
            blink: false,
            invert: false,
            italic: false,
            strike: false,
            underline: false,
        }
    }
}

/// Merging the plain style changes nothing, merging is associative, and a
/// style merged twice counts once.
pub proof fn merging_styles_is_an_overlay(a: Style, b: Style, c: Style)
    ensures
        a.merged(Style::plain()) == a,
        Style::plain().merged(a) == a,
        a.merged(b).merged(c) == a.merged(b.merged(c)),
        a.merged(b).merged(b) == a.merged(b),
{
}

/// Merging never takes an attribute or a color away.
pub proof fn merging_styles_loses_nothing(a: Style, b: Style)
    ensures
        a.merged(b) == Style::plain() <==> a == Style::plain() && b == Style::plain(),
{
}

/// The foreground code of the 16 ANSI colors that stands for `c`.
pub open spec fn ansi16(c: Rgb) -> int {
    let max = if c.r >= c.g && c.r >= c.b {
        c.r
    } else if c.g >= c.b {
        c.g
    } else {
        c.b
    };
    let min = if c.r <= c.g && c.r <= c.b {
        c.r
    } else if c.g <= c.b {
        c.g
    } else {
        c.b
    };
    if max < 48 {
        30
    } else if max - min < 32 {
        if max < 160 {
            90
        } else {
            97
        }
    } else if c.r >= 220 && c.g >= 220 && c.b < 120 {
        93
    } else if c.r >= 200 && c.g >= 100 && c.b < 120 {
        33
    } else if c.r >= 180 && c.b >= 150 && c.g < 200 {
        95
    } else if c.g >= 180 && c.b >= 180 && c.r < 140 {
        96
    } else if c.b >= 160 && c.r < 140 {
        94
    } else if c.g >= 160 && c.r < 180 {
        92
    } else if c.r >= 160 && c.g < 180 {
        91
    } else if c.r >= 140 && c.b >= 120 {
        35
    } else if c.g >= 120 && c.b >= 120 {
        36
    } else if c.r >= 120 && c.g >= 80 {
        33
    } else if c.b >= 120 {
        34
    } else if c.g >= 120 {
        32
    } else if c.r >= 120 {
        31
    } else {
        37
    }
}

/// The code of the 16 ANSI colors is always one of them, for the foreground
/// and, ten higher, for the background.
pub proof fn ansi16_codes_are_color_codes(c: Rgb)
    ensures
        30 <= ansi16(c) <= 37 || 90 <= ansi16(c) <= 97,
        40 <= ansi16(c) + 10 <= 47 || 100 <= ansi16(c) + 10 <= 107,
{
}

fn ansi16_fg_code(color: Rgb) -> (r: u16)
    ensures
        r == ansi16(color),
        30 <= r <= 97,
{
    let max: u8 = if color.r >= color.g && color.r >= color.b {
        color.r
    } else if color.g >= color.b {
        color.g
    } else {
        color.b
    };
    let min: u8 = if color.r <= color.g && color.r <= color.b {
        color.r
    } else if color.g <= color.b {
        color.g
    } else {
        color.b
    };
    if max < 48 {
        return 30;
    }
    if max - min < 32 {
        return if max < 160 {
            90
        } else {
            97
        };
    }
    if color.r >= 220 && color.g >= 220 && color.b < 120 {
        return 93;
    }
    if color.r >= 200 && color.g >= 100 && color.b < 120 {
        return 33;
    }
    if color.r >= 180 && color.b >= 150 && color.g < 200 {
        return 95;
    }
    if color.g >= 180 && color.b >= 180 && color.r < 140 {
        return 96;
    }
    if color.b >= 160 && color.r < 140 {
        return 94;
    }
    if color.g >= 160 && color.r < 180 {
        return 92;
    }
    if color.r >= 160 && color.g < 180 {
        return 91;
    }
    if color.r >= 140 && color.b >= 120 {
        return 35;
    }
    if color.g >= 120 && color.b >= 120 {
        return 36;
    }
    if color.r >= 120 && color.g >= 80 {
        return 33;
    }
    if color.b >= 120 {
        return 34;
    }
    if color.g >= 120 {
        return 32;
    }
    if color.r >= 120 {
        return 31;
    }
    37
}

/// Channel values of the xterm color cube.
pub open spec fn cube_step(i: int) -> int {
    if i == 0 {
        0
    } else {
        55 + 40 * i
    }
}

/// Values of the xterm gray ramp.
pub open spec fn gray_step(i: int) -> int {
    8 + 10 * i
}

pub open spec fn abs_diff(a: int, b: int) -> int {
    if a <= b {
        b - a
    } else {
        a - b
    }
}

/// `i` is the first step of the color cube that is closest to `value`.
pub open spec fn is_nearest_cube(value: int, i: int) -> bool {
    &&& 0 <= i < 6
    &&& forall|k: int|
        0 <= k < 6 ==> abs_diff(value, cube_step(i)) <= abs_diff(value, #[trigger] cube_step(k))
    &&& forall|k: int|
        0 <= k < i ==> abs_diff(value, cube_step(i)) < abs_diff(value, #[trigger] cube_step(k))
}

/// `i` is the first step of the gray ramp that is closest to `value`.
pub open spec fn is_nearest_gray(value: int, i: int) -> bool {
    &&& 0 <= i < 24
    &&& forall|k: int|
        0 <= k < 24 ==> abs_diff(value, gray_step(i)) <= abs_diff(value, #[trigger] gray_step(k))
    &&& forall|k: int|
        0 <= k < i ==> abs_diff(value, gray_step(i)) < abs_diff(value, #[trigger] gray_step(k))
}

pub open spec fn nearest_cube(value: int) -> int {
    choose|i: int| is_nearest_cube(value, i)
}

pub open spec fn nearest_gray(value: int) -> int {
    choose|i: int| is_nearest_gray(value, i)
}

pub open spec fn square(a: int) -> int {
    a * a
}

/// Squared distance of two colors.
pub open spec fn color_distance(c: Rgb, r: int, g: int, b: int) -> int {
    square(c.r - r) + square(c.g - g) + square(c.b - b)
}

/// The xterm color closest to `c`: from the cube, or from the gray ramp where
/// that is strictly closer.
pub open spec fn xterm256(c: Rgb) -> int {
    let r = nearest_cube(c.r as int);
    let g = nearest_cube(c.g as int);
    let b = nearest_cube(c.b as int);
    let gray = nearest_gray((c.r + c.g + c.b) / 3);
    if color_distance(c, gray_step(gray), gray_step(gray), gray_step(gray)) < color_distance(
        c,
        cube_step(r),
        cube_step(g),
        cube_step(b),
    ) {
        232 + gray
    } else {
        16 + 36 * r + 6 * g + b
    }
}

pub proof fn lemma_first_cube(value: int, n: int) -> (i: int)
    requires
        1 <= n <= 6,
    ensures
        0 <= i < n,
        forall|k: int|
            0 <= k < n ==> abs_diff(value, cube_step(i)) <= abs_diff(value, #[trigger] cube_step(k)),
        forall|k: int|
            0 <= k < i ==> abs_diff(value, cube_step(i)) < abs_diff(value, #[trigger] cube_step(k)),
    decreases n,
{
    if n == 1 {
        0
    } else {
        let i = lemma_first_cube(value, n - 1);
        if abs_diff(value, cube_step(n - 1)) < abs_diff(value, cube_step(i)) {
            n - 1
        } else {
            i
        }
    }
}

pub proof fn lemma_first_gray(value: int, n: int) -> (i: int)
    requires
        1 <= n <= 24,
    ensures
        0 <= i < n,
        forall|k: int|
            0 <= k < n ==> abs_diff(value, gray_step(i)) <= abs_diff(value, #[trigger] gray_step(k)),
        forall|k: int|
            0 <= k < i ==> abs_diff(value, gray_step(i)) < abs_diff(value, #[trigger] gray_step(k)),
    decreases n,
{
    if n == 1 {
        0
    } else {
        let i = lemma_first_gray(value, n - 1);
        if abs_diff(value, gray_step(n - 1)) < abs_diff(value, gray_step(i)) {
            n - 1
        } else {
            i
        }
    }
}

/// The xterm color of a color lies in the cube or on the gray ramp.
pub proof fn xterm256_codes_are_color_codes(c: Rgb)
    ensures
        16 <= xterm256(c) <= 255,
{
    let r = lemma_first_cube(c.r as int, 6);
    let g = lemma_first_cube(c.g as int, 6);
    let b = lemma_first_cube(c.b as int, 6);
    let gray = lemma_first_gray((c.r + c.g + c.b) / 3, 24);
    assert(is_nearest_cube(c.r as int, r));
    assert(is_nearest_cube(c.g as int, g));
    assert(is_nearest_cube(c.b as int, b));
    assert(is_nearest_gray((c.r + c.g + c.b) / 3, gray));
}

fn nearest_cube_index(value: u8) -> (r: u8)
    ensures
        r == nearest_cube(value as int),
        r < 6,
{
    let steps: [u8; 6] = [0, 95, 135, 175, 215, 255];
    let mut best: u8 = 0;
    let mut best_diff: u8 = value;
    let mut i: u8 = 1;
    while i < 6
        invariant
            1 <= i <= 6,
            best < i,
            steps@ =~= seq![0u8, 95u8, 135u8, 175u8, 215u8, 255u8],
            best_diff == abs_diff(value as int, cube_step(best as int)),
            forall|k: int| 0 <= k < i ==> best_diff <= abs_diff(value as int, #[trigger] cube_step(k)),
            forall|k: int|
                0 <= k < best ==> best_diff < abs_diff(value as int, #[trigger] cube_step(k)),
        decreases 6 - i,
    {
        let s: u8 = steps[i as usize];
        assert(s == cube_step(i as int));
        let diff: u8 = if value >= s {
            value - s
        } else {
            s - value
        };
        if diff < best_diff {
            best = i;
            best_diff = diff;
        }
        i = i + 1;
    }
    proof {
        assert(is_nearest_cube(value as int, best as int));
        let other = nearest_cube(value as int);
        assert(is_nearest_cube(value as int, other));
        assert(abs_diff(value as int, cube_step(other)) <= abs_diff(value as int, cube_step(best as int)));
        assert(abs_diff(value as int, cube_step(best as int)) <= abs_diff(value as int, cube_step(other)));
    }
    best
}

fn nearest_gray_index(value: u8) -> (r: u8)
    ensures
        r == nearest_gray(value as int),
        r < 24,
{
    let mut best: u8 = 0;
    let mut best_diff: u8 = if value >= 8 {
        value - 8
    } else {
        8 - value
    };
    let mut i: u8 = 1;
    while i < 24
        invariant
            1 <= i <= 24,
            best < i,
            best_diff == abs_diff(value as int, gray_step(best as int)),
            forall|k: int| 0 <= k < i ==> best_diff <= abs_diff(value as int, #[trigger] gray_step(k)),
            forall|k: int|
                0 <= k < best ==> best_diff < abs_diff(value as int, #[trigger] gray_step(k)),
        decreases 24 - i,
    {
        let s: u8 = 8 + 10 * i;
        assert(s == gray_step(i as int));
        let diff: u8 = if value >= s {
            value - s
        } else {
            s - value
        };
        if diff < best_diff {
            best = i;
            best_diff = diff;
        }
        i = i + 1;
    }
    proof {
        assert(is_nearest_gray(value as int, best as int));
        let other = nearest_gray(value as int);
        assert(is_nearest_gray(value as int, other));
        assert(abs_diff(value as int, gray_step(other)) <= abs_diff(value as int, gray_step(best as int)));
        assert(abs_diff(value as int, gray_step(best as int)) <= abs_diff(value as int, gray_step(other)));
    }
    best
}

fn square_diff(a: u8, b: u8) -> (r: u32)
    ensures
        r == square(a as int - b as int),
        r <= 65025,
{
    let d: u32 = if a >= b {
        (a - b) as u32
    } else {
        (b - a) as u32
    };
    assert(d * d <= 65025) by (nonlinear_arith)
        requires
            d <= 255,
    ;
    assert((a as int - b as int) * (a as int - b as int) == d * d) by (nonlinear_arith)
        requires
            d == a as int - b as int || d == b as int - a as int,
    ;
    d * d
}

fn distance(color: Rgb, r: u8, g: u8, b: u8) -> (d: u32)
    ensures
        d == color_distance(color, r as int, g as int, b as int),
{
    square_diff(color.r, r) + square_diff(color.g, g) + square_diff(color.b, b)
}

fn rgb_to_xterm256(color: Rgb) -> (r: u16)
    ensures
        r == xterm256(color),
        16 <= r <= 255,
{
    let r = nearest_cube_index(color.r);
    let g = nearest_cube_index(color.g);
    let b = nearest_cube_index(color.b);
    let average: u16 = (color.r as u16 + color.g as u16 + color.b as u16) / 3;
    let gray = nearest_gray_index(average as u8);
    let shade: u8 = 8 + 10 * gray;
    let cr: u8 = if r == 0 {
        0
    } else {
        55 + 40 * r
    };
    let cg: u8 = if g == 0 {
        0
    } else {
        55 + 40 * g
    };
    let cb: u8 = if b == 0 {
        0
    } else {
        55 + 40 * b
    };
    if distance(color, shade, shade, shade) < distance(color, cr, cg, cb) {
        return 232 + gray as u16;
    }
    16 + 36 * r as u16 + 6 * g as u16 + b as u16
}

/// The SGR parameter that selects `color`; `base` is 30 for the foreground and
/// 40 for the background.
pub open spec fn color_part(color: Rgb, mode: ColorMode, base: nat) -> Seq<u8> {
    let extended = digits((base + 8) as nat);
    match mode {
        ColorMode::Ansi16 => digits((ansi16(color) + base - 30) as nat),
        ColorMode::TrueColor => joined_with(
            seq![
                extended,
                digits(2),
                digits(color.r as nat),
                digits(color.g as nat),
                digits(color.b as nat),
            ],
            0x3b,
        ),
        ColorMode::Xterm256 => joined_with(
            seq![extended, digits(5), digits(xterm256(color) as nat)],
            0x3b,
        ),
    }
}

fn push_number(parts: &mut Vec<Vec<u8>>, n: u16)
    ensures
        vec_views(final(parts)@) == vec_views(old(parts)@).push(digits(n as nat)),
{
    let ghost before = vec_views(parts@);
    parts.push(digit_bytes(n));
    assert(vec_views(parts@) =~= before.push(digits(n as nat)));
}

impl Rgb {
    fn ansi(self, mode: ColorMode, base: u16) -> (r: Vec<u8>)
        requires
            base == 30 || base == 40,
        ensures
            r@ == color_part(self, mode, base as nat),
    {
        match mode {
            ColorMode::Ansi16 => digit_bytes(ansi16_fg_code(self) + (base - 30)),
            ColorMode::TrueColor => {
                let mut parts: Vec<Vec<u8>> = Vec::new();
                assert(vec_views(parts@) =~= Seq::<Seq<u8>>::empty());
                push_number(&mut parts, base + 8);
                push_number(&mut parts, 2);
                push_number(&mut parts, self.r as u16);
                push_number(&mut parts, self.g as u16);
                push_number(&mut parts, self.b as u16);
                assert(vec_views(parts@) =~= seq![
                    digits((base + 8) as nat),
                    digits(2),
                    digits(self.r as nat),
                    digits(self.g as nat),
                    digits(self.b as nat),
                ]);
                join_with(&parts, 0x3b)
            },
            ColorMode::Xterm256 => {
                let mut parts: Vec<Vec<u8>> = Vec::new();
                assert(vec_views(parts@) =~= Seq::<Seq<u8>>::empty());
                push_number(&mut parts, base + 8);
                push_number(&mut parts, 5);
                push_number(&mut parts, rgb_to_xterm256(self));
                assert(vec_views(parts@) =~= seq![
                    digits((base + 8) as nat),
                    digits(5),
                    digits(xterm256(self) as nat),
                ]);
                join_with(&parts, 0x3b)
            },
        }
    }
}

pub open spec fn part_if(on: bool, part: Seq<u8>) -> Seq<Seq<u8>> {
    if on {
        seq![part]
    } else {
        Seq::empty()
    }
}

pub open spec fn color_parts(color: Option<Rgb>, mode: ColorMode, base: nat) -> Seq<Seq<u8>> {
    match color {
        Some(color) => seq![color_part(color, mode, base)],
        None => Seq::empty(),
    }
}

/// The SGR parameters that switch on `style`.
pub open spec fn style_parts(style: Style, mode: ColorMode) -> Seq<Seq<u8>> {
    part_if(style.bold, digits(1)) + part_if(style.italic, digits(3)) + part_if(
        style.underline,
        digits(4),
    ) + part_if(style.blink, digits(5)) + part_if(style.invert, digits(7)) + part_if(
        style.strike,
        digits(9),
    ) + color_parts(style.foreground, mode, 30) + color_parts(style.background, mode, 40)
}

fn push_if(parts: &mut Vec<Vec<u8>>, on: bool, n: u16)
    ensures
        vec_views(final(parts)@) == vec_views(old(parts)@) + part_if(on, digits(n as nat)),
{
    let ghost before = vec_views(parts@);
    if on {
        parts.push(digit_bytes(n));
    }
    assert(vec_views(parts@) =~= before + part_if(on, digits(n as nat)));
}

fn push_color(parts: &mut Vec<Vec<u8>>, color: Option<Rgb>, mode: ColorMode, base: u16)
    requires
        base == 30 || base == 40,
    ensures
        vec_views(final(parts)@) == vec_views(old(parts)@) + color_parts(color, mode, base as nat),
{
    let ghost before = vec_views(parts@);
    if let Some(color) = color {
        let part = color.ansi(mode, base);
        parts.push(part);
    }
    assert(vec_views(parts@) =~= before + color_parts(color, mode, base as nat));
}

/// The SGR sequence with the given parameters.
pub open spec fn sgr(parts: Seq<Seq<u8>>) -> Seq<u8> {
    seq![0x1bu8, 0x5bu8] + joined_with(parts, 0x3b) + seq![0x6du8]
}

/// The SGR sequence that switches on `style`.
pub open spec fn style_start(style: Style, mode: ColorMode) -> Seq<u8> {
    sgr(style_parts(style, mode))
}

pub fn sgr_bytes(parts: &Vec<Vec<u8>>) -> (r: Vec<u8>)
    ensures
        r@ == sgr(vec_views(parts@)),
{
    let mut out: Vec<u8> = Vec::new();
    out.push(0x1b);
    out.push(0x5b);
    let body = join_with(parts, 0x3b);
    push_all(&mut out, body.as_slice());
    out.push(0x6d);
    assert(out@ =~= sgr(vec_views(parts@)));
    out
}

/// ASCII bytes as text.
pub open spec fn ascii_text(s: Seq<u8>) -> Seq<char> {
    s.map_values(|b: u8| b as char)
}

fn ascii_string(bytes: &[u8]) -> (r: String)
    ensures
        r@ == ascii_text(bytes@),
{
    let mut out = String::new();
    let mut i: usize = 0;
    while i < bytes.len()
        invariant
            i <= bytes@.len(),
            out@ == ascii_text(bytes@.take(i as int)),
        decreases bytes@.len() - i,
    {
        assert(ascii_text(bytes@.take(i + 1)) =~= ascii_text(bytes@.take(i as int)).push(
            bytes@[i as int] as char,
        ));
        out.push(bytes[i] as char);
        i = i + 1;
    }
    assert(bytes@.take(i as int) =~= bytes@);
    out
}

impl Style {
    /// The bytes of the SGR sequence that switches on this style.
    pub fn start_bytes(&self, mode: ColorMode) -> (r: Vec<u8>)
        ensures
            r@ == style_start(*self, mode),
    {
        let mut parts: Vec<Vec<u8>> = Vec::new();
        push_if(&mut parts, self.bold, 1);
        assert(vec_views(parts@) =~= part_if(self.bold, digits(1)));
        push_if(&mut parts, self.italic, 3);
        push_if(&mut parts, self.underline, 4);
        push_if(&mut parts, self.blink, 5);
        push_if(&mut parts, self.invert, 7);
        push_if(&mut parts, self.strike, 9);
        push_color(&mut parts, self.foreground, mode, 30);
        push_color(&mut parts, self.background, mode, 40);
        sgr_bytes(&parts)
    }

    /// The true-color SGR sequence that switches on this style.
    pub fn ansi_start(&self) -> (r: String)
        ensures
            r@ == ascii_text(style_start(*self, ColorMode::TrueColor)),
    {
        self.ansi_start_with_mode(ColorMode::TrueColor)
    }

    /// The SGR sequence that switches on this style in the given color mode.
    pub fn ansi_start_with_mode(&self, mode: ColorMode) -> (r: String)
        ensures
            r@ == ascii_text(style_start(*self, mode)),
    {
        ascii_string(self.start_bytes(mode).as_slice())
    }
}

} // verus!
