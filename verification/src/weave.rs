//! Highlighting keeps the text: what goes in between the bytes of the input
//! are whole control sequences, and they change neither what is visible nor
//! where the input's own control sequences end.

use vstd::prelude::*;

use crate::bytes::{digits, joined_with};
use crate::compiled::CompiledView;
use crate::controls::{
    c1_byte, c1_code_at, c1_width_at, cancels, control_at, control_end, csi_end, csi_intro,
    fields, intermediate_end, lemma_control_end, lemma_csi_end, lemma_intermediate_end,
    lemma_string_end, opens_c1_string, opens_esc_string, string_end, string_end_or_all, text_of,
    text_run, text_unit_end, tokens_from, tokens_of, visible, visible_from, wide_terminator_at,
    TokenView,
};
use crate::emit::{ended, highlighted, pen, spacing, started, wanted, Inks, Pen};
use crate::highlight::{
    highlighted_with, highlighting, styles_keep_characters_whole, styles_possible,
    HighlighterView, MatchIssue,
};
use crate::paint::whole_characters;
use crate::prompt_sgr::ResetMode;
use crate::sgr::{
    after_colon, after_fields, after_sequence, attribute_parts, colon_color, field_number,
    group_parts, option_part, part_number, restore_parts, restored_color, restored_group,
    semicolon_color, sgr_number, SgrAttribute, SgrState,
};
use crate::style::{color_part, color_parts, part_if, sgr, style_parts, ColorMode, Rgb, Style};
use crate::utf8::{
    char_covers, char_width_at, continuation, inside_char, lead_width, open_prefix_covers,
    second_fits,
};

verus! {

/// A byte of SGR parameters.
pub open spec fn parameter_byte(b: u8) -> bool {
    0x30 <= b <= 0x3b
}

pub open spec fn parameter(t: Seq<u8>) -> bool {
    forall|k: int| 0 <= k < t.len() ==> parameter_byte(#[trigger] t[k])
}

pub open spec fn parameters(parts: Seq<Seq<u8>>) -> bool {
    forall|k: int| 0 <= k < parts.len() ==> parameter(#[trigger] parts[k])
}

/// One SGR sequence.
pub open spec fn one_sgr(t: Seq<u8>) -> bool {
    &&& t.len() >= 3
    &&& t[0] == 0x1b
    &&& t[1] == 0x5b
    &&& t.last() == 0x6d
    &&& forall|k: int| 2 <= k < t.len() - 1 ==> parameter_byte(#[trigger] t[k])
}

/// SGR sequences, one after another.
pub open spec fn sgrs(t: Seq<u8>) -> bool
    decreases t.len(),
{
    t.len() == 0 || exists|n: int|
        3 <= n <= t.len() && #[trigger] one_sgr(t.subrange(0, n)) && sgrs(
            t.subrange(n, t.len() as int),
        )
}

proof fn lemma_digits_parameter(n: nat)
    ensures
        parameter(digits(n)),
    decreases n,
{
    if n >= 10 {
        lemma_digits_parameter(n / 10);
        let head = digits(n / 10);
        assert forall|k: int| 0 <= k < digits(n).len() implies parameter_byte(
            #[trigger] digits(n)[k],
        ) by {
            if k < head.len() {
                assert(digits(n)[k] == head[k]);
            }
        }
    }
}

proof fn lemma_joined_parameter(parts: Seq<Seq<u8>>, sep: u8)
    requires
        parameters(parts),
        parameter_byte(sep),
    ensures
        parameter(joined_with(parts, sep)),
    decreases parts.len(),
{
    if parts.len() == 1 {
        assert(parameter(parts[0]));
    } else if parts.len() > 1 {
        let head = parts.drop_last();
        assert forall|k: int| 0 <= k < head.len() implies parameter(#[trigger] head[k]) by {
            assert(head[k] == parts[k]);
        }
        lemma_joined_parameter(head, sep);
        assert(parameter(parts[parts.len() - 1]));
        let a = joined_with(head, sep);
        let all = joined_with(parts, sep);
        assert forall|k: int| 0 <= k < all.len() implies parameter_byte(#[trigger] all[k]) by {
            if k < a.len() {
                assert(all[k] == a[k]);
            } else if k > a.len() {
                assert(all[k] == parts.last()[k - a.len() - 1]);
            }
        }
    }
}

proof fn lemma_one_sgr(t: Seq<u8>)
    requires
        one_sgr(t),
    ensures
        sgrs(t),
{
    let n = t.len() as int;
    assert(t.subrange(0, n) =~= t);
    assert(one_sgr(t.subrange(0, n)));
    assert(sgrs(t.subrange(n, n)));
}

pub proof fn lemma_sgr_is_one(parts: Seq<Seq<u8>>)
    requires
        parameters(parts),
    ensures
        one_sgr(sgr(parts)),
        sgrs(sgr(parts)),
{
    lemma_joined_parameter(parts, 0x3b);
    let t = sgr(parts);
    let body = joined_with(parts, 0x3b);
    assert forall|k: int| 2 <= k < t.len() - 1 implies parameter_byte(#[trigger] t[k]) by {
        assert(t[k] == body[k - 2]);
    }
    lemma_one_sgr(t);
}

proof fn lemma_sgrs_concat(a: Seq<u8>, b: Seq<u8>)
    requires
        sgrs(a),
        sgrs(b),
    ensures
        sgrs(a + b),
    decreases a.len(),
{
    if a.len() == 0 {
        assert(a + b =~= b);
    } else {
        let n = choose|n: int|
            3 <= n <= a.len() && #[trigger] one_sgr(a.subrange(0, n)) && sgrs(
                a.subrange(n, a.len() as int),
            );
        lemma_sgrs_concat(a.subrange(n, a.len() as int), b);
        assert((a + b).subrange(0, n) =~= a.subrange(0, n));
        assert((a + b).subrange(n, (a + b).len() as int) =~= a.subrange(n, a.len() as int) + b);
    }
}

/// SGR sequences begin with ESC, end in ASCII and hold nothing that ends a
/// control string.
proof fn lemma_sgrs_bytes(t: Seq<u8>)
    requires
        sgrs(t),
    ensures
        t.len() > 0 ==> t.len() >= 3 && t[0] == 0x1b && t.last() == 0x6d,
        forall|k: int|
            0 <= k < t.len() ==> t[k] == 0x1b || t[k] == 0x5b || t[k] == 0x6d || parameter_byte(
                #[trigger] t[k],
            ),
    decreases t.len(),
{
    if t.len() > 0 {
        let n = choose|n: int|
            3 <= n <= t.len() && #[trigger] one_sgr(t.subrange(0, n)) && sgrs(
                t.subrange(n, t.len() as int),
            );
        let head = t.subrange(0, n);
        let rest = t.subrange(n, t.len() as int);
        lemma_sgrs_bytes(rest);
        assert(t[0] == head[0]);
        assert(head.last() == t[n - 1]);
        if rest.len() > 0 {
            assert(rest.last() == t.last());
        }
        assert forall|k: int| 0 <= k < t.len() implies t[k] == 0x1b || t[k] == 0x5b || t[k] == 0x6d
            || parameter_byte(#[trigger] t[k]) by {
            if k < n {
                assert(t[k] == head[k]);
                if k == n - 1 {
                    assert(head[k] == head.last());
                }
            } else {
                assert(t[k] == rest[k - n]);
            }
        }
    }
}

proof fn lemma_csi_of_sgr(w: Seq<u8>, p: int, n: int, k: int)
    requires
        0 <= p,
        p + n <= w.len(),
        one_sgr(w.subrange(p, p + n)),
        2 <= k < n,
    ensures
        csi_end(w, p + k) == p + n,
    decreases n - k,
{
    let t = w.subrange(p, p + n);
    assert(w[p + k] == t[k]);
    if k < n - 1 {
        assert(parameter_byte(t[k]));
        lemma_csi_of_sgr(w, p, n, k + 1);
    } else {
        assert(t[k] == t.last());
    }
}

proof fn lemma_skip_one(w: Seq<u8>, p: int, n: int)
    requires
        0 <= p,
        3 <= n,
        p + n <= w.len(),
        one_sgr(w.subrange(p, p + n)),
    ensures
        visible_from(w, p) == visible_from(w, p + n),
{
    let t = w.subrange(p, p + n);
    assert(w[p] == t[0]);
    assert(w[p + 1] == t[1]);
    lemma_csi_of_sgr(w, p, n, 2);
    assert(control_end(w, p) == p + n);
}

proof fn lemma_skip_sgrs(w: Seq<u8>, p: int, n: int)
    requires
        0 <= p,
        0 <= n,
        p + n <= w.len(),
        sgrs(w.subrange(p, p + n)),
    ensures
        visible_from(w, p) == visible_from(w, p + n),
    decreases n,
{
    let t = w.subrange(p, p + n);
    if n > 0 {
        let m = choose|m: int|
            3 <= m <= t.len() && #[trigger] one_sgr(t.subrange(0, m)) && sgrs(
                t.subrange(m, t.len() as int),
            );
        assert(w.subrange(p, p + m) =~= t.subrange(0, m));
        assert(w.subrange(p + m, p + m + (n - m)) =~= t.subrange(m, t.len() as int));
        lemma_skip_one(w, p, m);
        lemma_skip_sgrs(w, p + m, n - m);
    }
}

/// Colors in a rendition are written with SGR parameters only.
pub open spec fn tidy(native: SgrState) -> bool {
    &&& native.fg matches Some(p) ==> parameter(p)
    &&& native.bg matches Some(p) ==> parameter(p)
    &&& native.underline matches Some(p) ==> parameter(p)
}

proof fn lemma_attribute_parts(attributes: Seq<SgrAttribute>)
    ensures
        parameters(attribute_parts(attributes)),
{
    assert forall|k: int| 0 <= k < attribute_parts(attributes).len() implies parameter(
        #[trigger] attribute_parts(attributes)[k],
    ) by {
        let a = attributes[k];
        lemma_digits_parameter(a.code as nat);
        lemma_digits_parameter(a.sub as nat);
        lemma_joined_parameter(seq![digits(a.code as nat), digits(a.sub as nat)], 0x3a);
    }
}

proof fn lemma_parameters_concat(a: Seq<Seq<u8>>, b: Seq<Seq<u8>>)
    requires
        parameters(a),
        parameters(b),
    ensures
        parameters(a + b),
{
    assert forall|k: int| 0 <= k < (a + b).len() implies parameter(#[trigger] (a + b)[k]) by {
        if k < a.len() {
            assert((a + b)[k] == a[k]);
        } else {
            assert((a + b)[k] == b[k - a.len()]);
        }
    }
}

pub proof fn lemma_native_parts(native: SgrState)
    requires
        tidy(native),
    ensures
        parameters(native.parts()),
{
    let a = attribute_parts(native.attributes);
    lemma_attribute_parts(native.attributes);
    lemma_parameters_concat(a, option_part(native.fg));
    lemma_parameters_concat(a + option_part(native.fg), option_part(native.bg));
    lemma_parameters_concat(
        a + option_part(native.fg) + option_part(native.bg),
        option_part(native.underline),
    );
}

proof fn lemma_restored_group(native: SgrState, on: bool, code: nat, first: u16, second: u16)
    ensures
        parameters(restored_group(native, on, code, first, second)),
{
    lemma_digits_parameter(code);
    lemma_attribute_parts(
        native.attributes.filter(
            |a: SgrAttribute| crate::sgr::attribute_group(a.code) == first,
        ),
    );
    lemma_attribute_parts(
        native.attributes.filter(
            |a: SgrAttribute| crate::sgr::attribute_group(a.code) == second,
        ),
    );
    let head = seq![digits(code)];
    assert(parameters(head));
    lemma_parameters_concat(head, group_parts(native.attributes, first));
    lemma_parameters_concat(
        head + group_parts(native.attributes, first),
        group_parts(native.attributes, second),
    );
}

proof fn lemma_restored_color(on: bool, color: Option<Seq<u8>>, code: nat)
    requires
        color matches Some(p) ==> parameter(p),
    ensures
        parameters(restored_color(on, color, code)),
{
    lemma_digits_parameter(code);
}

pub proof fn lemma_restore_parts(native: SgrState, style: Style)
    requires
        tidy(native),
    ensures
        parameters(restore_parts(native, style)),
{
    let a = restored_group(native, style.bold, 22, 1, 2);
    let b = restored_group(native, style.italic, 23, 3, 3);
    let c = restored_group(native, style.underline, 24, 4, 4);
    let d = restored_group(native, style.blink, 25, 5, 5);
    let e = restored_group(native, style.invert, 27, 7, 7);
    let f = restored_group(native, style.strike, 29, 9, 9);
    let g = restored_color(style.foreground is Some, native.fg, 39);
    let h = restored_color(style.background is Some, native.bg, 49);
    lemma_restored_group(native, style.bold, 22, 1, 2);
    lemma_restored_group(native, style.italic, 23, 3, 3);
    lemma_restored_group(native, style.underline, 24, 4, 4);
    lemma_restored_group(native, style.blink, 25, 5, 5);
    lemma_restored_group(native, style.invert, 27, 7, 7);
    lemma_restored_group(native, style.strike, 29, 9, 9);
    lemma_restored_color(style.foreground is Some, native.fg, 39);
    lemma_restored_color(style.background is Some, native.bg, 49);
    lemma_parameters_concat(a, b);
    lemma_parameters_concat(a + b, c);
    lemma_parameters_concat(a + b + c, d);
    lemma_parameters_concat(a + b + c + d, e);
    lemma_parameters_concat(a + b + c + d + e, f);
    lemma_parameters_concat(a + b + c + d + e + f, g);
    lemma_parameters_concat(a + b + c + d + e + f + g, h);
}

proof fn lemma_color_part(color: Rgb, mode: ColorMode, base: nat)
    ensures
        parameter(color_part(color, mode, base)),
{
    lemma_digits_parameter((base + 8) as nat);
    lemma_digits_parameter(2);
    lemma_digits_parameter(5);
    lemma_digits_parameter(color.r as nat);
    lemma_digits_parameter(color.g as nat);
    lemma_digits_parameter(color.b as nat);
    lemma_digits_parameter((crate::style::ansi16(color) + base - 30) as nat);
    lemma_digits_parameter(crate::style::xterm256(color) as nat);
    lemma_joined_parameter(
        seq![
            digits((base + 8) as nat),
            digits(2),
            digits(color.r as nat),
            digits(color.g as nat),
            digits(color.b as nat),
        ],
        0x3b,
    );
    lemma_joined_parameter(
        seq![
            digits((base + 8) as nat),
            digits(5),
            digits(crate::style::xterm256(color) as nat),
        ],
        0x3b,
    );
}

proof fn lemma_part_if(on: bool, n: nat)
    ensures
        parameters(part_if(on, digits(n))),
{
    lemma_digits_parameter(n);
}

proof fn lemma_color_parts(color: Option<Rgb>, mode: ColorMode, base: nat)
    ensures
        parameters(color_parts(color, mode, base)),
{
    if let Some(c) = color {
        lemma_color_part(c, mode, base);
    }
}

pub proof fn lemma_style_parts(style: Style, mode: ColorMode)
    ensures
        parameters(style_parts(style, mode)),
{
    let a = part_if(style.bold, digits(1));
    let b = part_if(style.italic, digits(3));
    let c = part_if(style.underline, digits(4));
    let d = part_if(style.blink, digits(5));
    let e = part_if(style.invert, digits(7));
    let f = part_if(style.strike, digits(9));
    let g = color_parts(style.foreground, mode, 30);
    let h = color_parts(style.background, mode, 40);
    lemma_part_if(style.bold, 1);
    lemma_part_if(style.italic, 3);
    lemma_part_if(style.underline, 4);
    lemma_part_if(style.blink, 5);
    lemma_part_if(style.invert, 7);
    lemma_part_if(style.strike, 9);
    lemma_color_parts(style.foreground, mode, 30);
    lemma_color_parts(style.background, mode, 40);
    lemma_parameters_concat(a, b);
    lemma_parameters_concat(a + b, c);
    lemma_parameters_concat(a + b + c, d);
    lemma_parameters_concat(a + b + c + d, e);
    lemma_parameters_concat(a + b + c + d + e, f);
    lemma_parameters_concat(a + b + c + d + e + f, g);
    lemma_parameters_concat(a + b + c + d + e + f + g, h);
}

/// What puts a style on or takes it back is made of SGR sequences.
pub proof fn lemma_style_changes(style: Option<Style>, color: ColorMode, native: SgrState, reset: ResetMode)
    requires
        tidy(native),
    ensures
        sgrs(started(style, color)),
        sgrs(ended(style, native, reset)),
        sgrs(ended(style, native, reset) + started(style, color)),
{
    if let Some(st) = style {
        lemma_style_parts(st, color);
        lemma_sgr_is_one(style_parts(st, color));
        lemma_native_parts(native);
        lemma_sgr_is_one(native.parts());
        lemma_restore_parts(native, st);
        lemma_sgr_is_one(restore_parts(native, st));
        if reset is Full {
            let zero = seq![0x1bu8, 0x5bu8, 0x30u8, 0x6du8];
            lemma_one_sgr(zero);
            if native.parts().len() > 0 {
                lemma_sgrs_concat(zero, sgr(native.parts()));
            } else {
                assert(zero + Seq::<u8>::empty() =~= zero);
            }
        }
    }
    lemma_sgrs_concat(ended(style, native, reset), started(style, color));
}

proof fn lemma_semicolon_color(f: Seq<Seq<u8>>, i: int)
    ensures
        semicolon_color(f, i).0 matches Some(p) ==> parameter(p),
{
    let target = digits(field_number(f, i)->Some_0 as nat);
    let a = digits(field_number(f, i + 2)->Some_0 as nat);
    let b = digits(field_number(f, i + 3)->Some_0 as nat);
    let c = digits(field_number(f, i + 4)->Some_0 as nat);
    lemma_digits_parameter(field_number(f, i)->Some_0 as nat);
    lemma_digits_parameter(field_number(f, i + 2)->Some_0 as nat);
    lemma_digits_parameter(field_number(f, i + 3)->Some_0 as nat);
    lemma_digits_parameter(field_number(f, i + 4)->Some_0 as nat);
    lemma_digits_parameter(5);
    lemma_digits_parameter(2);
    lemma_joined_parameter(seq![target, digits(5), a], 0x3b);
    lemma_joined_parameter(seq![target, digits(2), a, b, c], 0x3b);
}

proof fn lemma_colon_color(target: u16, p: Seq<Seq<u8>>)
    ensures
        colon_color(target, p) matches Some(c) ==> parameter(c),
{
    let t = digits(target as nat);
    let a = digits(part_number(p, 2)->Some_0 as nat);
    let b = digits(part_number(p, 3)->Some_0 as nat);
    let c = digits(part_number(p, 4)->Some_0 as nat);
    let d = digits(part_number(p, 5)->Some_0 as nat);
    lemma_digits_parameter(target as nat);
    lemma_digits_parameter(part_number(p, 2)->Some_0 as nat);
    lemma_digits_parameter(part_number(p, 3)->Some_0 as nat);
    lemma_digits_parameter(part_number(p, 4)->Some_0 as nat);
    lemma_digits_parameter(part_number(p, 5)->Some_0 as nat);
    lemma_digits_parameter(5);
    lemma_digits_parameter(2);
    lemma_joined_parameter(seq![t, digits(5), a], 0x3a);
    lemma_joined_parameter(seq![t, digits(2), a, b, c], 0x3a);
    let space = if p[2].len() == 0 {
        Seq::<u8>::empty()
    } else {
        a
    };
    lemma_joined_parameter(seq![t, digits(2), space, b, c, d], 0x3a);
}

proof fn lemma_after_fields_tidy(st: SgrState, f: Seq<Seq<u8>>, i: int)
    requires
        tidy(st),
    ensures
        tidy(after_fields(st, f, i)),
    decreases f.len() - i,
{
    if 0 <= i < f.len() {
        if f[i].contains(0x3a) {
            let p = fields(f[i], 0x3a);
            if let Some(target) = part_number(p, 0) {
                lemma_colon_color(target, p);
            }
            lemma_after_fields_tidy(after_colon(st, p), f, i + 1);
        } else if f[i].len() == 0 {
            lemma_after_fields_tidy(st.after_code(0), f, i + 1);
        } else {
            match sgr_number(f[i]) {
                Some(code) => {
                    lemma_digits_parameter(code as nat);
                    if code == 38 || code == 48 || code == 58 {
                        lemma_semicolon_color(f, i);
                        let (color, taken) = semicolon_color(f, i);
                        if taken >= 1 {
                            lemma_after_fields_tidy(
                                match color {
                                    Some(color) => st.with_color(code, color),
                                    None => st,
                                },
                                f,
                                i + taken,
                            );
                        }
                    } else {
                        lemma_after_fields_tidy(st.after_code(code), f, i + 1);
                    }
                },
                None => lemma_after_fields_tidy(st, f, i + 1),
            }
        }
    }
}

/// A control sequence leaves a rendition tidy.
pub proof fn renditions_stay_tidy(st: SgrState, s: Seq<u8>)
    requires
        tidy(st),
    ensures
        tidy(after_sequence(st, s)),
{
    let n = csi_intro(s);
    if !(n == 0 || s.last() != 0x6d) && n != s.len() - 1 {
        lemma_after_fields_tidy(st, fields(s.subrange(n, s.len() - 1), 0x3b), 0);
    }
}

/// The pen behind the rest of `s` from `i` on, unit by unit. `pos` counts the
/// visible bytes before `i`.
pub open spec fn woven(
    s: Seq<u8>,
    i: int,
    inks: Inks,
    styles: Seq<Option<Style>>,
    pos: int,
    at: Pen,
) -> Pen
    decreases s.len() - i,
{
    if !(0 <= i < s.len()) {
        at
    } else if control_at(s, i) {
        proof {
            lemma_control_end(s, i);
        }
        let e = control_end(s, i);
        woven(s, e, inks, styles, pos, at.after_control(inks, s.subrange(i, e)))
    } else {
        let e = text_unit_end(s, i);
        woven(s, e, inks, styles, pos + (e - i), at.after_text(inks, s.subrange(i, e), styles, pos))
    }
}

proof fn lemma_after_text_concat(
    at: Pen,
    inks: Inks,
    a: Seq<u8>,
    b: Seq<u8>,
    styles: Seq<Option<Style>>,
    pos: int,
)
    ensures
        at.after_text(inks, a + b, styles, pos) == at.after_text(inks, a, styles, pos).after_text(
            inks,
            b,
            styles,
            pos + a.len(),
        ),
    decreases b.len(),
{
    if b.len() == 0 {
        assert(a + b =~= a);
    } else {
        assert((a + b).drop_last() =~= a + b.drop_last());
        assert((a + b).last() == b.last());
        lemma_after_text_concat(at, inks, a, b.drop_last(), styles, pos);
    }
}

/// The pen behind tokens.
#[verifier::opaque]
spec fn pen_behind(
    first: Pen,
    inks: Inks,
    tokens: Seq<TokenView>,
    styles: Seq<Option<Style>>,
) -> Pen {
    first.after_tokens(inks, tokens, styles)
}

/// The pen behind text.
#[verifier::opaque]
spec fn pen_behind_text(
    at: Pen,
    inks: Inks,
    text: Seq<u8>,
    styles: Seq<Option<Style>>,
    pos: int,
) -> Pen {
    at.after_text(inks, text, styles, pos)
}

proof fn lemma_run_written(
    pre: Seq<TokenView>,
    first: Pen,
    s: Seq<u8>,
    text: int,
    i: int,
    inks: Inks,
    styles: Seq<Option<Style>>,
)
    requires
        0 <= text <= i <= s.len(),
    ensures
        pen_behind(first, inks, pre + text_run(s, text, i), styles) == pen_behind_text(
            pen_behind(first, inks, pre, styles),
            inks,
            s.subrange(text, i),
            styles,
            text_of(pre).len() as int,
        ),
        text_of(pre + text_run(s, text, i)).len() == text_of(pre).len() + (i - text),
{
    reveal(pen_behind);
    reveal(pen_behind_text);
    let run = text_run(s, text, i);
    if text < i {
        assert((pre + run).drop_last() =~= pre);
        assert((pre + run).last() == TokenView::Text(s.subrange(text, i)));
    } else {
        assert(pre + run =~= pre);
        assert(s.subrange(text, i) =~= Seq::<u8>::empty());
    }
}

proof fn lemma_control_written(
    pre: Seq<TokenView>,
    first: Pen,
    x: Seq<u8>,
    inks: Inks,
    styles: Seq<Option<Style>>,
)
    ensures
        pen_behind(first, inks, pre.push(TokenView::Ansi(x)), styles) == pen_behind(
            first,
            inks,
            pre,
            styles,
        ).after_control(inks, x),
        text_of(pre.push(TokenView::Ansi(x))) == text_of(pre),
{
    reveal(pen_behind);
    let next = pre.push(TokenView::Ansi(x));
    assert(next.drop_last() =~= pre);
    assert(text_of(next) =~= text_of(pre));
}

proof fn lemma_text_written(
    at: Pen,
    inks: Inks,
    s: Seq<u8>,
    text: int,
    i: int,
    e: int,
    styles: Seq<Option<Style>>,
    pos: int,
)
    requires
        0 <= text <= i <= e <= s.len(),
    ensures
        pen_behind_text(at, inks, s.subrange(text, e), styles, pos) == pen_behind_text(
            pen_behind_text(at, inks, s.subrange(text, i), styles, pos),
            inks,
            s.subrange(i, e),
            styles,
            pos + (i - text),
        ),
        pen_behind_text(at, inks, s.subrange(i, i), styles, pos) == at,
{
    reveal(pen_behind_text);
    assert(s.subrange(text, e) =~= s.subrange(text, i) + s.subrange(i, e));
    lemma_after_text_concat(at, inks, s.subrange(text, i), s.subrange(i, e), styles, pos);
}

proof fn lemma_woven_step(
    s: Seq<u8>,
    i: int,
    inks: Inks,
    styles: Seq<Option<Style>>,
    pos: int,
    at: Pen,
)
    requires
        0 <= i < s.len(),
    ensures
        control_at(s, i) ==> woven(s, i, inks, styles, pos, at) == woven(
            s,
            control_end(s, i),
            inks,
            styles,
            pos,
            at.after_control(inks, s.subrange(i, control_end(s, i))),
        ),
        !control_at(s, i) ==> woven(s, i, inks, styles, pos, at) == woven(
            s,
            text_unit_end(s, i),
            inks,
            styles,
            pos + (text_unit_end(s, i) - i),
            pen_behind_text(at, inks, s.subrange(i, text_unit_end(s, i)), styles, pos),
        ),
{
    reveal(pen_behind_text);
    lemma_control_end(s, i);
}

proof fn lemma_tokens_step(s: Seq<u8>, text: int, i: int, pre: Seq<TokenView>)
    requires
        0 <= text <= i <= s.len(),
    ensures
        i == s.len() ==> tokens_from(s, text, i) == text_run(s, text, i),
        i < s.len() && control_at(s, i) ==> pre + tokens_from(s, text, i) == (pre + text_run(
            s,
            text,
            i,
        )).push(TokenView::Ansi(s.subrange(i, control_end(s, i)))) + tokens_from(
            s,
            control_end(s, i),
            control_end(s, i),
        ),
        i < s.len() && !control_at(s, i) ==> tokens_from(s, text, i) == tokens_from(
            s,
            text,
            text_unit_end(s, i),
        ),
{
    if i < s.len() && control_at(s, i) {
        lemma_control_end(s, i);
        let e = control_end(s, i);
        assert(pre + tokens_from(s, text, i) =~= (pre + text_run(s, text, i)).push(
            TokenView::Ansi(s.subrange(i, e)),
        ) + tokens_from(s, e, e));
    }
}

proof fn lemma_woven_tokens(
    pre: Seq<TokenView>,
    first: Pen,
    s: Seq<u8>,
    text: int,
    i: int,
    inks: Inks,
    styles: Seq<Option<Style>>,
)
    requires
        0 <= text <= i <= s.len(),
    ensures
        pen_behind(first, inks, pre + tokens_from(s, text, i), styles) == woven(
            s,
            i,
            inks,
            styles,
            text_of(pre).len() + (i - text),
            pen_behind_text(
                pen_behind(first, inks, pre, styles),
                inks,
                s.subrange(text, i),
                styles,
                text_of(pre).len() as int,
            ),
        ),
    decreases s.len() - i,
{
    let at = pen_behind(first, inks, pre, styles);
    let pos = text_of(pre).len() as int;
    let run = text_run(s, text, i);
    let here = pen_behind_text(at, inks, s.subrange(text, i), styles, pos);
    lemma_run_written(pre, first, s, text, i, inks, styles);
    lemma_tokens_step(s, text, i, pre);
    if i < s.len() {
        lemma_woven_step(s, i, inks, styles, pos + (i - text), here);
        if control_at(s, i) {
            lemma_control_end(s, i);
            let e = control_end(s, i);
            let x = s.subrange(i, e);
            let next = (pre + run).push(TokenView::Ansi(x));
            lemma_control_written(pre + run, first, x, inks, styles);
            lemma_woven_tokens(next, first, s, e, e, inks, styles);
            lemma_text_written(
                pen_behind(first, inks, next, styles),
                inks,
                s,
                e,
                e,
                e,
                styles,
                text_of(next).len() as int,
            );
        } else {
            let e = text_unit_end(s, i);
            lemma_woven_tokens(pre, first, s, text, e, inks, styles);
            lemma_text_written(at, inks, s, text, i, e, styles, pos);
        }
    }
}

/// Writing tokens is writing units.
pub proof fn lemma_woven(s: Seq<u8>, first: Pen, inks: Inks, styles: Seq<Option<Style>>)
    ensures
        first.after_tokens(inks, tokens_of(s), styles) == woven(s, 0, inks, styles, 0, first),
{
    let none = Seq::<TokenView>::empty();
    lemma_woven_tokens(none, first, s, 0, 0, inks, styles);
    assert(none + tokens_from(s, 0, 0) =~= tokens_of(s));
    assert(s.subrange(0, 0) =~= Seq::<u8>::empty());
    assert(text_of(none).len() == 0);
    reveal(pen_behind);
    reveal(pen_behind_text);
}

/// What goes in before a byte.
pub open spec fn change(at: Pen, inks: Inks, b: u8, want: Option<Style>) -> Seq<u8> {
    if at.active == want || (inks.live && want is None && spacing(b)) {
        Seq::empty()
    } else if inks.live && want is Some {
        started(want, inks.color)
    } else {
        ended(at.active, at.native, inks.reset) + started(want, inks.color)
    }
}

pub proof fn lemma_change(at: Pen, inks: Inks, b: u8, want: Option<Style>)
    requires
        tidy(at.native),
    ensures
        sgrs(change(at, inks, b, want)),
        at.after_byte(inks, b, want).out == at.out + change(at, inks, b, want) + seq![b],
        at.after_byte(inks, b, want).native == at.native,
        !spacing(b) ==> at.after_byte(inks, b, want).active == want,
{
    let c = change(at, inks, b, want);
    lemma_style_changes(at.active, inks.color, at.native, inks.reset);
    lemma_style_changes(want, inks.color, at.native, inks.reset);
    lemma_sgrs_concat(ended(at.active, at.native, inks.reset), started(want, inks.color));
    assert(at.after_byte(inks, b, want).out =~= at.out + c + seq![b]);
}

/// The visible text of `s` goes on at `i` with its byte `pos`.
pub open spec fn shown_from(s: Seq<u8>, i: int, pos: int) -> bool {
    &&& 0 <= pos <= visible(s).len()
    &&& visible(s).subrange(pos, visible(s).len() as int) == visible_from(s, i)
}

pub proof fn lemma_shown_step(s: Seq<u8>, i: int, pos: int)
    requires
        0 <= i < s.len(),
        shown_from(s, i, pos),
    ensures
        control_at(s, i) ==> shown_from(s, control_end(s, i), pos),
        !control_at(s, i) ==> shown_from(s, text_unit_end(s, i), pos + (text_unit_end(s, i) - i)),
        !control_at(s, i) ==> forall|k: int|
            0 <= k < text_unit_end(s, i) - i ==> #[trigger] visible(s)[pos + k] == s[i + k],
        !control_at(s, i) ==> i < text_unit_end(s, i) <= s.len() && pos + (text_unit_end(s, i) - i)
            <= visible(s).len(),
{
    if !control_at(s, i) {
        let e = text_unit_end(s, i);
        let unit = s.subrange(i, e);
        let v = visible(s);
        let rest = v.subrange(pos, v.len() as int);
        assert(rest == unit + visible_from(s, e));
        assert(rest.len() == unit.len() + visible_from(s, e).len());
        assert forall|k: int| 0 <= k < e - i implies #[trigger] v[pos + k] == s[i + k] by {
            assert(v[pos + k] == rest[k]);
            assert(rest[k] == unit[k]);
        }
        assert(v.subrange(pos + (e - i), v.len() as int) =~= visible_from(s, e)) by {
            assert forall|k: int| 0 <= k < visible_from(s, e).len() implies v.subrange(
                pos + (e - i),
                v.len() as int,
            )[k] == visible_from(s, e)[k] by {
                assert(v[pos + (e - i) + k] == rest[(e - i) + k]);
            }
        }
    }
}

/// A unit of text is written in one piece.
#[verifier::rlimit(40)]
#[verifier::spinoff_prover]
pub proof fn lemma_unit(
    s: Seq<u8>,
    i: int,
    pos: int,
    inks: Inks,
    styles: Seq<Option<Style>>,
    at: Pen,
    n: int,
)
    requires
        0 <= i < s.len(),
        !control_at(s, i),
        shown_from(s, i, pos),
        whole_characters(visible(s), styles),
        styles.len() == visible(s).len(),
        tidy(at.native),
        1 <= n <= text_unit_end(s, i) - i,
    ensures
        ({
            let c = change(at, inks, s[i], wanted(styles, pos, inks.reset));
            let after = at.after_text(inks, s.subrange(i, i + n), styles, pos);
            &&& sgrs(c)
            &&& after.out == at.out + c + s.subrange(i, i + n)
            &&& after.native == at.native
            &&& n > 1 || text_unit_end(s, i) - i > 1 ==> after.active == wanted(
                styles,
                pos,
                inks.reset,
            )
        }),
    decreases n,
{
    let unit = s.subrange(i, i + n);
    let c = change(at, inks, s[i], wanted(styles, pos, inks.reset));
    lemma_shown_step(s, i, pos);
    lemma_change(at, inks, s[i], wanted(styles, pos, inks.reset));
    if n == 1 {
        assert(unit.drop_last() =~= Seq::<u8>::empty());
        assert(unit =~= seq![s[i]]);
        assert(at.after_text(inks, unit.drop_last(), styles, pos) == at);
    } else {
        lemma_unit(s, i, pos, inks, styles, at, n - 1);
        assert(unit.drop_last() =~= s.subrange(i, i + n - 1));
        let before = at.after_text(inks, unit.drop_last(), styles, pos);
        let k = n - 1;
        assert(continuation(s[i + k]));
        lemma_same_style(s, i, pos, inks, styles, k);
        assert(before.active == wanted(styles, pos + k, inks.reset));
        assert(at.after_text(inks, unit, styles, pos) == before.after_byte(
            inks,
            s[i + k],
            wanted(styles, pos + k, inks.reset),
        ));
        assert(before.out.push(s[i + k]) =~= at.out + c + unit);
    }
}

pub proof fn lemma_same_style(
    s: Seq<u8>,
    i: int,
    pos: int,
    inks: Inks,
    styles: Seq<Option<Style>>,
    k: int,
)
    requires
        0 <= i < s.len(),
        !control_at(s, i),
        shown_from(s, i, pos),
        whole_characters(visible(s), styles),
        styles.len() == visible(s).len(),
        0 <= k < text_unit_end(s, i) - i,
    ensures
        wanted(styles, pos + k, inks.reset) == wanted(styles, pos, inks.reset),
    decreases k,
{
    lemma_shown_step(s, i, pos);
    if k > 0 {
        lemma_same_style(s, i, pos, inks, styles, k - 1);
        assert(visible(s)[pos + k] == s[i + k]);
        assert(continuation(s[i + k]));
        assert(styles[pos + k] == styles[pos + k - 1]);
    }
}

/// For `n` bytes `w` from `p` on is what `s` is from `i` on; then comes
/// something of our own, or both end, or `n` is long enough for a character.
pub open spec fn agree(w: Seq<u8>, p: int, s: Seq<u8>, i: int, n: int) -> bool {
    &&& 0 <= p
    &&& 0 <= i
    &&& 0 <= n
    &&& p + n <= w.len()
    &&& i + n <= s.len()
    &&& forall|k: int| 0 <= k < n ==> #[trigger] w[p + k] == s[i + k]
    &&& n >= 4 || (p + n + 3 <= w.len() && w[p + n] == 0x1b) || (p + n == w.len() && i + n
        == s.len())
}

pub open spec fn agrees(w: Seq<u8>, p: int, s: Seq<u8>, i: int) -> bool {
    exists|n: int| #[trigger] agree(w, p, s, i, n)
}

proof fn lemma_agree_longer(w: Seq<u8>, p: int, s: Seq<u8>, i: int, m: int)
    requires
        0 <= p,
        0 <= i,
        0 <= m,
        p + m <= w.len(),
        i + m <= s.len(),
        forall|k: int| 0 <= k < m ==> #[trigger] w[p + k] == s[i + k],
        agrees(w, p + m, s, i + m),
    ensures
        agrees(w, p, s, i),
{
    let n = choose|n: int| #[trigger] agree(w, p + m, s, i + m, n);
    assert forall|k: int| 0 <= k < m + n implies #[trigger] w[p + k] == s[i + k] by {
        if k >= m {
            assert(w[(p + m) + (k - m)] == s[(i + m) + (k - m)]);
        }
    }
    assert(agree(w, p, s, i, m + n));
}

/// The units behind `at` begin with what `at` wrote.
proof fn lemma_woven_prefix(
    s: Seq<u8>,
    i: int,
    inks: Inks,
    styles: Seq<Option<Style>>,
    pos: int,
    at: Pen,
)
    requires
        0 <= i <= s.len(),
        shown_from(s, i, pos),
        whole_characters(visible(s), styles),
        styles.len() == visible(s).len(),
        tidy(at.native),
    ensures
        ({
            let done = woven(s, i, inks, styles, pos, at);
            &&& tidy(done.native)
            &&& at.out.len() <= done.out.len()
            &&& done.out.subrange(0, at.out.len() as int) == at.out
        }),
    decreases s.len() - i,
{
    let done = woven(s, i, inks, styles, pos, at);
    if i < s.len() {
        lemma_shown_step(s, i, pos);
        if control_at(s, i) {
            lemma_control_end(s, i);
            let e = control_end(s, i);
            let x = s.subrange(i, e);
            let next = at.after_control(inks, x);
            renditions_stay_tidy(at.native, x);
            lemma_woven_prefix(s, e, inks, styles, pos, next);
            assert(done.out.subrange(0, at.out.len() as int) =~= done.out.subrange(
                0,
                next.out.len() as int,
            ).subrange(0, at.out.len() as int));
            assert(next.out.subrange(0, at.out.len() as int) =~= at.out);
        } else {
            let e = text_unit_end(s, i);
            lemma_unit(s, i, pos, inks, styles, at, e - i);
            let next = at.after_text(inks, s.subrange(i, e), styles, pos);
            lemma_woven_prefix(s, e, inks, styles, pos + (e - i), next);
            assert(done.out.subrange(0, at.out.len() as int) =~= done.out.subrange(
                0,
                next.out.len() as int,
            ).subrange(0, at.out.len() as int));
            assert(next.out.subrange(0, at.out.len() as int) =~= at.out);
        }
    } else {
        assert(at.out.subrange(0, at.out.len() as int) =~= at.out);
    }
}

proof fn lemma_control_agrees(
    s: Seq<u8>,
    i: int,
    e: int,
    head: Seq<u8>,
    ins: Seq<u8>,
    done: Seq<u8>,
    end: Seq<u8>,
)
    requires
        0 <= i < e <= s.len(),
        sgrs(ins),
        (head + s.subrange(i, e) + ins).len() <= done.len(),
        done.subrange(0, (head + s.subrange(i, e) + ins).len() as int) == head + s.subrange(i, e)
            + ins,
        agrees(done + end, (head + s.subrange(i, e) + ins).len() as int, s, e),
    ensures
        agrees(done + end, head.len() as int, s, i),
        forall|k: int|
            0 <= k < e - i ==> #[trigger] (done + end)[head.len() + k] == s[i + k],
        (done + end).subrange(
            head.len() + (e - i),
            (head + s.subrange(i, e) + ins).len() as int,
        ) == ins,
{
    let w = done + end;
    let p = head.len() as int;
    let x = s.subrange(i, e);
    let next = head + x + ins;
    lemma_within(done, end, next, head + x, ins);
    assert forall|k: int| 0 <= k < e - i implies #[trigger] w[p + k] == s[i + k] by {
        assert(w[p + k] == (head + x)[p + k]);
    }
    lemma_sgrs_bytes(ins);
    if ins.len() > 0 {
        let zero: int = 0;
        assert(w[(head + x).len() + zero] == ins[zero]);
        assert(agree(w, p, s, i, e - i));
    } else {
        assert(next =~= head + x);
        lemma_agree_longer(w, p, s, i, e - i);
    }
}

proof fn lemma_text_agrees(
    s: Seq<u8>,
    i: int,
    e: int,
    head: Seq<u8>,
    ins: Seq<u8>,
    done: Seq<u8>,
    end: Seq<u8>,
)
    requires
        0 <= i < e <= s.len(),
        sgrs(ins),
        (head + ins + s.subrange(i, e)).len() <= done.len(),
        done.subrange(0, (head + ins + s.subrange(i, e)).len() as int) == head + ins + s.subrange(
            i,
            e,
        ),
        agrees(done + end, (head + ins + s.subrange(i, e)).len() as int, s, e),
    ensures
        agrees(done + end, head.len() as int, s, i),
        agrees(done + end, (head + ins).len() as int, s, i),
        forall|k: int|
            0 <= k < e - i ==> #[trigger] (done + end)[(head + ins).len() + k] == s[i + k],
        (done + end).subrange(head.len() as int, (head + ins).len() as int) == ins,
{
    let w = done + end;
    let p = head.len() as int;
    let x = s.subrange(i, e);
    let q = (head + ins).len() as int;
    lemma_within(done, end, head + ins + x, head + ins, x);
    assert forall|k: int| 0 <= k < e - i implies #[trigger] w[q + k] == s[i + k] by {
        assert(w[(head + ins).len() + k] == x[k]);
    }
    lemma_agree_longer(w, q, s, i, e - i);
    let cut = w.subrange(p, q);
    assert forall|k: int| 0 <= k < ins.len() implies #[trigger] cut[k] == ins[k] by {
        assert(cut[k] == w[p + k]);
        assert((head + ins)[p + k] == ins[k]);
        assert(w[p + k] == (head + ins)[p + k]);
    }
    assert(cut =~= ins);
    lemma_sgrs_bytes(ins);
    if ins.len() > 0 {
        assert(cut[0] == ins[0]);
        assert(w[p] == 0x1b);
        assert(agree(w, p, s, i, 0));
    }
}

/// The output behind `at`, with `end` at its end, is what `s` is from `i` on up
/// to the first thing of our own.
proof fn lemma_woven_agrees(
    s: Seq<u8>,
    i: int,
    inks: Inks,
    styles: Seq<Option<Style>>,
    pos: int,
    at: Pen,
    end: Seq<u8>,
)
    requires
        0 <= i <= s.len(),
        shown_from(s, i, pos),
        whole_characters(visible(s), styles),
        styles.len() == visible(s).len(),
        tidy(at.native),
        sgrs(end),
    ensures
        agrees(woven(s, i, inks, styles, pos, at).out + end, at.out.len() as int, s, i),
    decreases s.len() - i,
{
    let done = woven(s, i, inks, styles, pos, at).out;
    let w = done + end;
    let p = at.out.len() as int;
    lemma_woven_prefix(s, i, inks, styles, pos, at);
    if i >= s.len() {
        lemma_sgrs_bytes(end);
        if end.len() > 0 {
            assert(w[p] == end[0]);
        }
        assert(agree(w, p, s, i, 0));
    } else {
        lemma_shown_step(s, i, pos);
        if control_at(s, i) {
            lemma_control_end(s, i);
            let e = control_end(s, i);
            let x = s.subrange(i, e);
            let next = at.after_control(inks, x);
            renditions_stay_tidy(at.native, x);
            lemma_style_changes(at.active, inks.color, at.native, inks.reset);
            lemma_woven_prefix(s, e, inks, styles, pos, next);
            lemma_woven_agrees(s, e, inks, styles, pos, next, end);
            lemma_control_agrees(s, i, e, at.out, started(at.active, inks.color), done, end);
        } else {
            let e = text_unit_end(s, i);
            lemma_unit(s, i, pos, inks, styles, at, e - i);
            let next = at.after_text(inks, s.subrange(i, e), styles, pos);
            let c = change(at, inks, s[i], wanted(styles, pos, inks.reset));
            lemma_woven_prefix(s, e, inks, styles, pos + (e - i), next);
            lemma_woven_agrees(s, e, inks, styles, pos + (e - i), next, end);
            lemma_text_agrees(s, i, e, at.out, c, done, end);
        }
    }
}

/// Where the parts of a prefix are in the whole.
proof fn lemma_within(done: Seq<u8>, end: Seq<u8>, next: Seq<u8>, head: Seq<u8>, part: Seq<u8>)
    requires
        next.len() <= done.len(),
        done.subrange(0, next.len() as int) == next,
        next == head + part,
    ensures
        forall|k: int| 0 <= k < head.len() ==> #[trigger] (done + end)[k] == head[k],
        forall|k: int|
            0 <= k < part.len() ==> #[trigger] (done + end)[head.len() + k] == part[k],
        (done + end).subrange(head.len() as int, (head.len() + part.len()) as int) == part,
{
    let w = done + end;
    assert forall|k: int| 0 <= k < next.len() implies w[k] == #[trigger] next[k] by {
        assert(done.subrange(0, next.len() as int)[k] == done[k]);
    }
    assert forall|k: int| 0 <= k < head.len() implies #[trigger] w[k] == head[k] by {
        assert(next[k] == head[k]);
    }
    assert forall|k: int| 0 <= k < part.len() implies #[trigger] w[head.len() + k] == part[k] by {
        assert(next[head.len() + k] == part[k]);
    }
    let cut = w.subrange(head.len() as int, (head.len() + part.len()) as int);
    assert forall|k: int| 0 <= k < part.len() implies #[trigger] cut[k] == part[k] by {
        assert(cut[k] == w[head.len() + k]);
    }
    assert(cut =~= part);
}

/// How long the control sequence or unit of text at `i` is.
pub open spec fn unit_len(s: Seq<u8>, i: int) -> int {
    if control_at(s, i) {
        control_end(s, i) - i
    } else {
        text_unit_end(s, i) - i
    }
}

/// `m` bytes are the same, and what follows agrees.
pub open spec fn region(w: Seq<u8>, p: int, s: Seq<u8>, i: int, m: int) -> bool {
    &&& 0 <= p
    &&& 0 <= i
    &&& 0 <= m
    &&& p + m <= w.len()
    &&& i + m <= s.len()
    &&& forall|k: int| 0 <= k < m ==> #[trigger] w[p + k] == s[i + k]
    &&& agrees(w, p + m, s, i + m)
}

/// At `p` there is something of our own in `w`, or the next unit of `s`, or both
/// end.
pub open spec fn lock(w: Seq<u8>, p: int, s: Seq<u8>, i: int) -> bool {
    ||| 0 <= p && p + 3 <= w.len() && w[p] == 0x1b && 0 <= i <= s.len()
    ||| p == w.len() && i == s.len()
    ||| 0 <= i < s.len() && region(w, p, s, i, unit_len(s, i))
}

proof fn lemma_unit_len(s: Seq<u8>, i: int)
    requires
        0 <= i < s.len(),
    ensures
        1 <= unit_len(s, i) <= s.len() - i,
        c1_width_at(s, i) > 0 ==> c1_width_at(s, i) <= unit_len(s, i),
        char_width_at(s, i) > 0 && !control_at(s, i) ==> char_width_at(s, i) == unit_len(s, i),
{
    lemma_control_end(s, i);
    let w = c1_width_at(s, i);
    if w > 0 {
        lemma_csi_end(s, i + w);
        lemma_string_end(s, i + w, true);
        lemma_string_end(s, i + w, false);
    }
}

proof fn lemma_lock_agrees(w: Seq<u8>, p: int, s: Seq<u8>, i: int)
    requires
        lock(w, p, s, i),
    ensures
        agrees(w, p, s, i),
{
    if 0 <= p && p + 3 <= w.len() && w[p] == 0x1b && 0 <= i <= s.len() {
        assert(agree(w, p, s, i, 0));
    } else if p == w.len() && i == s.len() {
        assert(agree(w, p, s, i, 0));
    } else {
        lemma_agree_longer(w, p, s, i, unit_len(s, i));
    }
}

/// The same bytes with a lock behind them.
pub open spec fn locked(w: Seq<u8>, p: int, s: Seq<u8>, i: int, m: int) -> bool {
    &&& 0 <= p
    &&& 0 <= i
    &&& 0 <= m
    &&& p + m <= w.len()
    &&& i + m <= s.len()
    &&& forall|k: int| 0 <= k < m ==> #[trigger] w[p + k] == s[i + k]
    &&& lock(w, p + m, s, i + m)
}

proof fn lemma_locked_agrees(w: Seq<u8>, p: int, s: Seq<u8>, i: int, m: int, d: int)
    requires
        locked(w, p, s, i, m),
        0 <= d <= m,
    ensures
        agrees(w, p + d, s, i + d),
{
    lemma_lock_agrees(w, p + m, s, i + m);
    assert forall|k: int| 0 <= k < m - d implies #[trigger] w[(p + d) + k] == s[(i + d) + k] by {
        assert(w[p + (d + k)] == s[i + (d + k)]);
    }
    lemma_agree_longer(w, p + d, s, i + d, m - d);
}

/// A character of `w` is one of `s`.
proof fn lemma_char_from_w(w: Seq<u8>, q: int, s: Seq<u8>, j: int)
    requires
        agrees(w, q, s, j),
        0 <= q < w.len(),
        char_width_at(w, q) > 0,
    ensures
        0 <= j < s.len(),
        char_width_at(s, j) == char_width_at(w, q),
{
    let k = char_width_at(w, q);
    let n = choose|n: int| #[trigger] agree(w, q, s, j, n);
    if n < k {
        if n > 0 {
            assert(w[q + n] != 0x1b);
        }
        assert(false);
    }
    assert(w[q + 0] == s[j + 0]);
    assert(w[q + 1] == s[j + 1]);
    if k >= 3 {
        assert(w[q + 2] == s[j + 2]);
    }
    if k >= 4 {
        assert(w[q + 3] == s[j + 3]);
    }
}

/// Within the same bytes, characters are the same and controls begin at the
/// same places.
proof fn lemma_same_unit_start(w: Seq<u8>, p: int, s: Seq<u8>, i: int, m: int, d: int)
    requires
        locked(w, p, s, i, m),
        0 <= d < m,
    ensures
        w[p + d] == s[i + d],
        char_width_at(s, i + d) <= m - d ==> char_width_at(w, p + d) == char_width_at(s, i + d),
        char_width_at(s, i + d) == 0 ==> char_width_at(w, p + d) == 0,
        c1_width_at(s, i + d) == 0 ==> c1_width_at(w, p + d) == 0,
        c1_width_at(s, i + d) <= m - d ==> c1_width_at(w, p + d) == c1_width_at(s, i + d),
{
    let q = p + d;
    let j = i + d;
    assert(w[p + d] == s[i + d]);
    lemma_locked_agrees(w, p, s, i, m, d);
    if char_width_at(w, q) > 0 {
        lemma_char_from_w(w, q, s, j);
    }
    let k = char_width_at(s, j);
    if 0 < k <= m - d {
        assert(w[p + (d + 1)] == s[i + (d + 1)]);
        if k >= 3 {
            assert(w[p + (d + 2)] == s[i + (d + 2)]);
        }
        if k >= 4 {
            assert(w[p + (d + 3)] == s[i + (d + 3)]);
        }
    }
    if d + 1 < m {
        assert(w[p + (d + 1)] == s[i + (d + 1)]);
    } else if c1_width_at(w, q) == 2 && c1_width_at(s, j) == 0 {
        assert(w[p + m] == w[q + 1]);
        assert(w[p + m] != 0x1b);
        lemma_unit_len(s, i + m);
        assert(w[(p + m) + 0] == s[(i + m) + 0]);
    }
}

proof fn lemma_csi_moves(s: Seq<u8>, j: int)
    requires
        0 <= j < s.len(),
        !control_at(s, j),
    ensures
        csi_end(s, j) > j,
        char_width_at(s, j) > 0 ==> csi_end(s, j) >= j + char_width_at(s, j),
{
    if char_width_at(s, j) > 0 {
        lemma_csi_end(s, j + char_width_at(s, j));
    } else {
        lemma_csi_end(s, j + 1);
    }
}

proof fn lemma_csi_same(w: Seq<u8>, p: int, s: Seq<u8>, i: int, m: int, d: int)
    requires
        locked(w, p, s, i, m),
        0 <= d <= m,
        csi_end(s, i + d) == i + m,
    ensures
        csi_end(w, p + d) == p + m,
    decreases m - d,
{
    let q = p + d;
    let j = i + d;
    if d == m {
        if j < s.len() {
            if !control_at(s, j) {
                lemma_csi_moves(s, j);
            }
            if q < w.len() && w[q] != 0x1b {
                lemma_unit_len(s, j);
                assert(w[q + 0] == s[j + 0]);
                if c1_width_at(s, j) == 2 {
                    assert(w[q + 1] == s[j + 1]);
                }
                assert(control_at(w, q));
            }
        }
    } else {
        lemma_same_unit_start(w, p, s, i, m, d);
        assert(!control_at(s, j));
        lemma_csi_moves(s, j);
        let k = char_width_at(s, j);
        if k > 0 {
            lemma_csi_same(w, p, s, i, m, d + k);
        } else if !(cancels(s[j]) || 0x40 <= s[j] <= 0x7e) {
            lemma_csi_same(w, p, s, i, m, d + 1);
        }
    }
}

proof fn lemma_intermediate_same(w: Seq<u8>, p: int, s: Seq<u8>, i: int, m: int, d: int)
    requires
        locked(w, p, s, i, m),
        0 <= d <= m,
        intermediate_end(s, i + d) == i + m,
    ensures
        intermediate_end(w, p + d) == p + m,
    decreases m - d,
{
    let q = p + d;
    let j = i + d;
    if d == m {
        if j < s.len() {
            lemma_intermediate_end(s, j + 1);
            if q < w.len() && w[q] != 0x1b {
                lemma_unit_len(s, j);
                assert(w[q + 0] == s[j + 0]);
            }
        }
    } else {
        assert(w[p + d] == s[i + d]);
        if !(s[j] == 0x1b || c1_byte(s[j])) && !(cancels(s[j]) || s[j] >= 0x30 && s[j] != 0x7f) {
            lemma_intermediate_same(w, p, s, i, m, d + 1);
        }
    }
}

/// In the control string whose payload goes on at `j`, each byte `9C` that is
/// met outside of a character ends it: none belongs to a character that begins
/// before the string or that the end of `s` cuts off, unless it is the last
/// byte.
pub open spec fn plain_string(s: Seq<u8>, j: int, bel: bool) -> bool
    decreases s.len() - j,
{
    if !(0 <= j < s.len()) || wide_terminator_at(s, j) {
        true
    } else if char_width_at(s, j) > 0 {
        plain_string(s, j + char_width_at(s, j), bel)
    } else if (bel && s[j] == 0x07) || cancels(s[j]) {
        true
    } else if s[j] == 0x9c {
        !inside_char(s, j) || j + 1 == s.len()
    } else if s[j] == 0x1b && j + 1 < s.len() && s[j + 1] == 0x5c {
        true
    } else {
        plain_string(s, j + 1, bel)
    }
}

/// The control at `i` is not a string that holds part of a character from
/// before it.
pub open spec fn plain_control(s: Seq<u8>, i: int) -> bool {
    if s[i] == 0x1b {
        i + 1 < s.len() && c1_width_at(s, i + 1) == 0 ==> (s[i + 1] == 0x5d ==> plain_string(
            s,
            i + 2,
            true,
        )) && (opens_esc_string(s[i + 1]) ==> plain_string(s, i + 2, false))
    } else {
        let n = c1_width_at(s, i);
        let code = c1_code_at(s, i);
        (code == 0x9d ==> plain_string(s, i + n, true)) && (opens_c1_string(code) ==> plain_string(
            s,
            i + n,
            false,
        ))
    }
}

/// No control string from `i` on is ended by part of a character that begins
/// before the string, or by part of one that the end of `s` cuts off behind it.
pub open spec fn self_contained(s: Seq<u8>, i: int) -> bool
    decreases s.len() - i,
{
    if !(0 <= i < s.len()) {
        true
    } else if control_at(s, i) {
        proof {
            lemma_control_end(s, i);
        }
        plain_control(s, i) && self_contained(s, control_end(s, i))
    } else {
        self_contained(s, text_unit_end(s, i))
    }
}

/// Going back from `p` and `i`, `n` bytes are the same; before them is nothing
/// or something of our own.
pub open spec fn back(w: Seq<u8>, p: int, s: Seq<u8>, i: int, n: int) -> bool {
    &&& 0 <= n <= p <= w.len()
    &&& n <= i <= s.len()
    &&& forall|k: int| 0 <= k < n ==> #[trigger] w[p - n + k] == s[i - n + k]
    &&& n == p || n >= 3 || w[p - n - 1] < 0x80
}

pub open spec fn backs(w: Seq<u8>, p: int, s: Seq<u8>, i: int) -> bool {
    exists|n: int| #[trigger] back(w, p, s, i, n)
}

proof fn lemma_covers_same(w: Seq<u8>, start: int, s: Seq<u8>, from: int, a: int)
    requires
        agrees(w, start, s, from),
        0 <= start,
        1 <= a <= 3,
        start + a < w.len(),
        from + a < s.len(),
        forall|k: int| 0 <= k <= a ==> #[trigger] w[start + k] == s[from + k],
        char_covers(w, start, start + a),
    ensures
        0 <= from,
        char_covers(s, from, from + a),
{
    let n = choose|n: int| #[trigger] agree(w, start, s, from, n);
    if char_width_at(w, start) > a {
        lemma_char_from_w(w, start, s, from);
    } else {
        assert(open_prefix_covers(w, start, start + a));
        let k = lead_width(w[start]);
        assert(w[start + 0] == s[from + 0]);
        assert(w[start + 1] == s[from + 1]);
        assert(w[start] != 0x1b);
        assert(start + n == w.len() && from + n == s.len());
        assert forall|x: int| from + 2 <= x <= from + a implies continuation(#[trigger] s[x]) by {
            let y = x - from;
            assert(w[start + y] == s[from + y]);
            assert(continuation(w[start + y]));
        }
        assert(open_prefix_covers(s, from, from + a));
    }
}

proof fn lemma_not_inside(w: Seq<u8>, p: int, s: Seq<u8>, i: int, m: int, d: int)
    requires
        locked(w, p, s, i, m),
        backs(w, p, s, i),
        1 <= d < m,
        continuation(w[p + d]),
        !inside_char(s, i + d),
    ensures
        !inside_char(w, p + d),
{
    let q = p + d;
    if inside_char(w, q) {
        let start = choose|start: int|
            0 <= start < q && q - 3 <= start && #[trigger] char_covers(w, start, q);
        let a = q - start;
        if start >= p {
            let from = i + (start - p);
            lemma_locked_agrees(w, p, s, i, m, start - p);
            assert forall|k: int| 0 <= k <= a implies #[trigger] w[start + k] == s[from + k] by {
                assert(w[p + (start - p + k)] == s[i + (start - p + k)]);
            }
            lemma_covers_same(w, start, s, from, a);
            assert(char_covers(s, from, i + d));
        } else {
            let b = p - start;
            let n = choose|n: int| #[trigger] back(w, p, s, i, n);
            if n < b {
                let at = p - n - 1;
                assert(w[at] < 0x80);
                assert(lead_width(w[start]) > 0);
                if at > start {
                    if at == start + 1 {
                        assert(second_fits(w[start], w[start + 1]));
                    } else {
                        assert(at == start + 2);
                        assert(continuation(w[at]));
                    }
                }
                assert(false);
            }
            let from = i - b;
            assert forall|k: int| 0 <= k < b + m implies #[trigger] w[start + k] == s[from
                + k] by {
                if k < b {
                    assert(w[p - n + (n - b + k)] == s[i - n + (n - b + k)]);
                } else {
                    assert(w[p + (k - b)] == s[i + (k - b)]);
                }
            }
            lemma_lock_agrees(w, p + m, s, i + m);
            lemma_agree_longer(w, start, s, from, b + m);
            lemma_covers_same(w, start, s, from, a);
            assert(char_covers(s, from, i + d));
        }
        assert(inside_char(s, i + d));
    }
}

proof fn lemma_string_moves(s: Seq<u8>, j: int, bel: bool)
    requires
        0 <= j < s.len(),
    ensures
        char_width_at(s, j) > 0 && string_end(s, j, bel) is Some && !wide_terminator_at(s, j)
            ==> string_end(s, j, bel)->Some_0 > j + char_width_at(s, j),
        string_end(s, j, bel) is Some ==> j < string_end(s, j, bel)->Some_0 <= s.len(),
        wide_terminator_at(s, j) ==> string_end(s, j, bel) == Some(j + 2),
{
    lemma_string_end(s, j, bel);
    if char_width_at(s, j) > 0 {
        lemma_string_end(s, j + char_width_at(s, j), bel);
    }
}

proof fn lemma_string_same(
    w: Seq<u8>,
    p: int,
    s: Seq<u8>,
    i: int,
    m: int,
    d: int,
    bel: bool,
)
    requires
        locked(w, p, s, i, m),
        backs(w, p, s, i),
        1 <= d <= m,
        plain_string(s, i + d, bel),
        string_end_or_all(s, i + d, bel) == i + m,
    ensures
        string_end(s, i + d, bel) is Some ==> string_end(w, p + d, bel) == Some(p + m),
        string_end(s, i + d, bel) is None ==> string_end(w, p + d, bel) == string_end(
            w,
            p + m,
            bel,
        ) || string_end(w, p + d, bel) == Some(p + m),
    decreases m - d,
{
    let q = p + d;
    let j = i + d;
    lemma_string_end(s, j, bel);
    if d < m {
        lemma_same_unit_start(w, p, s, i, m, d);
        lemma_string_moves(s, j, bel);
        lemma_string_end(s, j + 1, bel);
        if wide_terminator_at(s, j) {
            assert(w[p + (d + 1)] == s[i + (d + 1)]);
        } else {
            assert(!wide_terminator_at(w, q)) by {
                if wide_terminator_at(w, q) {
                    assert(c1_width_at(s, j) != 0);
                    if d + 1 < m {
                        assert(w[p + (d + 1)] == s[i + (d + 1)]);
                    } else {
                        // the last byte of an open string
                        assert(j + 1 == s.len());
                    }
                }
            }
            let k = char_width_at(s, j);
            if k > 0 {
                assert(k <= m - d);
                lemma_string_same(w, p, s, i, m, d + k, bel);
            } else if (bel && s[j] == 0x07) || cancels(s[j]) {
            } else if s[j] == 0x9c {
                if inside_char(s, j) {
                    assert(d + 1 == m);
                } else {
                    lemma_not_inside(w, p, s, i, m, d);
                }
            } else if s[j] == 0x1b && j + 1 < s.len() && s[j + 1] == 0x5c {
                assert(w[p + (d + 1)] == s[i + (d + 1)]);
            } else {
                if s[j] == 0x1b {
                    if d + 1 < m {
                        assert(w[p + (d + 1)] == s[i + (d + 1)]);
                    } else {
                        assert(j + 1 == s.len());
                    }
                }
                lemma_string_same(w, p, s, i, m, d + 1, bel);
            }
        }
    }
}

proof fn lemma_string_over_sgrs(w: Seq<u8>, q: int, from: int, bel: bool)
    requires
        0 <= from <= q <= w.len(),
        sgrs(w.subrange(from, w.len() as int)),
    ensures
        string_end(w, q, bel) is None,
    decreases w.len() - q,
{
    let t = w.subrange(from, w.len() as int);
    lemma_sgrs_bytes(t);
    if q < w.len() {
        assert(w[q] == t[q - from]);
        if q + 1 < w.len() {
            assert(w[q + 1] == t[q + 1 - from]);
        }
        lemma_string_over_sgrs(w, q + 1, from, bel);
    }
}

/// A control sequence of `s` is one of `w`. An open control string may take in
/// what is behind it.
proof fn lemma_control_same(w: Seq<u8>, p: int, s: Seq<u8>, i: int)
    requires
        0 <= i < s.len(),
        control_at(s, i),
        locked(w, p, s, i, control_end(s, i) - i),
        backs(w, p, s, i),
        plain_control(s, i),
        control_end(s, i) == s.len() ==> sgrs(
            w.subrange(p + (control_end(s, i) - i), w.len() as int),
        ),
    ensures
        p < w.len(),
        control_at(w, p),
        control_end(w, p) == p + (control_end(s, i) - i) || (control_end(s, i) == s.len()
            && control_end(w, p) == w.len()),
{
    lemma_control_end(s, i);
    let e = control_end(s, i);
    let m = e - i;
    lemma_unit_len(s, i);
    lemma_same_unit_start(w, p, s, i, m, 0);
    if s[i] == 0x1b {
        if i + 1 >= s.len() {
        } else if c1_width_at(s, i + 1) > 0 {
            if w[p + 1] != 0x1b {
                lemma_unit_len(s, i + 1);
                assert(w[(p + 1) + 0] == s[(i + 1) + 0]);
                if c1_width_at(s, i + 1) == 2 {
                    assert(w[(p + 1) + 1] == s[(i + 1) + 1]);
                }
            }
        } else if s[i + 1] == 0x1b {
            if w[p + 1] != 0x1b {
                lemma_unit_len(s, i + 1);
                assert(w[(p + 1) + 0] == s[(i + 1) + 0]);
            }
        } else {
            assert(m >= 2) by {
                lemma_csi_end(s, i + 2);
                lemma_string_end(s, i + 2, true);
                lemma_string_end(s, i + 2, false);
                if 0x20 <= s[i + 1] <= 0x2f {
                    lemma_intermediate_end(s, i + 2);
                }
            }
            lemma_same_unit_start(w, p, s, i, m, 1);
            if s[i + 1] == 0x5b {
                lemma_csi_same(w, p, s, i, m, 2);
            } else if s[i + 1] == 0x5d {
                lemma_string_same(w, p, s, i, m, 2, true);
                if string_end(s, i + 2, true) is None {
                    lemma_string_over_sgrs(w, p + m, p + m, true);
                }
            } else if opens_esc_string(s[i + 1]) {
                lemma_string_same(w, p, s, i, m, 2, false);
                if string_end(s, i + 2, false) is None {
                    lemma_string_over_sgrs(w, p + m, p + m, false);
                }
            } else if 0x20 <= s[i + 1] <= 0x2f {
                lemma_intermediate_same(w, p, s, i, m, 1);
            }
        }
    } else {
        let n = c1_width_at(s, i);
        let code = c1_code_at(s, i);
        if n == 2 {
            assert(w[p + 1] == s[i + 1]);
        }
        if code == 0x9b {
            lemma_csi_same(w, p, s, i, m, n);
        } else if code == 0x9d {
            lemma_string_same(w, p, s, i, m, n, true);
            if string_end(s, i + n, true) is None {
                lemma_string_over_sgrs(w, p + m, p + m, true);
            }
        } else if opens_c1_string(code) {
            lemma_string_same(w, p, s, i, m, n, false);
            if string_end(s, i + n, false) is None {
                lemma_string_over_sgrs(w, p + m, p + m, false);
            }
        }
    }
}

/// A unit of text of `s` is one of `w`.
proof fn lemma_text_same(w: Seq<u8>, p: int, s: Seq<u8>, i: int)
    requires
        0 <= i < s.len(),
        !control_at(s, i),
        locked(w, p, s, i, text_unit_end(s, i) - i),
    ensures
        p < w.len(),
        !control_at(w, p),
        text_unit_end(w, p) == p + (text_unit_end(s, i) - i),
        w.subrange(p, text_unit_end(w, p)) == s.subrange(i, text_unit_end(s, i)),
{
    let e = text_unit_end(s, i);
    let m = e - i;
    lemma_unit_len(s, i);
    lemma_same_unit_start(w, p, s, i, m, 0);
    assert(w.subrange(p, p + m) =~= s.subrange(i, e));
}

/// What follows `at` in the output is locked to what follows `i` in `s`.
proof fn lemma_woven_lock(
    s: Seq<u8>,
    i: int,
    inks: Inks,
    styles: Seq<Option<Style>>,
    pos: int,
    at: Pen,
    end: Seq<u8>,
)
    requires
        0 <= i <= s.len(),
        shown_from(s, i, pos),
        whole_characters(visible(s), styles),
        styles.len() == visible(s).len(),
        tidy(at.native),
        sgrs(end),
    ensures
        lock(woven(s, i, inks, styles, pos, at).out + end, at.out.len() as int, s, i),
{
    let done = woven(s, i, inks, styles, pos, at).out;
    let w = done + end;
    let p = at.out.len() as int;
    lemma_woven_prefix(s, i, inks, styles, pos, at);
    if i >= s.len() {
        lemma_sgrs_bytes(end);
        if end.len() > 0 {
            assert(w[p] == end[0]);
        }
    } else {
        lemma_shown_step(s, i, pos);
        if control_at(s, i) {
            lemma_control_end(s, i);
            let e = control_end(s, i);
            let x = s.subrange(i, e);
            let next = at.after_control(inks, x);
            let ins = started(at.active, inks.color);
            renditions_stay_tidy(at.native, x);
            lemma_style_changes(at.active, inks.color, at.native, inks.reset);
            lemma_woven_prefix(s, e, inks, styles, pos, next);
            lemma_woven_agrees(s, e, inks, styles, pos, next, end);
            lemma_control_agrees(s, i, e, at.out, ins, done, end);
            lemma_own_agrees(w, p + (e - i), s, e, ins);
            assert(region(w, p, s, i, e - i));
        } else {
            let e = text_unit_end(s, i);
            lemma_unit(s, i, pos, inks, styles, at, e - i);
            let next = at.after_text(inks, s.subrange(i, e), styles, pos);
            let c = change(at, inks, s[i], wanted(styles, pos, inks.reset));
            lemma_woven_prefix(s, e, inks, styles, pos + (e - i), next);
            lemma_woven_agrees(s, e, inks, styles, pos + (e - i), next, end);
            lemma_text_agrees(s, i, e, at.out, c, done, end);
            lemma_sgrs_bytes(c);
            if c.len() > 0 {
                assert(w.subrange(p, (at.out + c).len() as int)[0] == c[0]);
            } else {
                assert(at.out + c =~= at.out);
                assert(region(w, p, s, i, e - i));
            }
        }
    }
}

proof fn lemma_own_agrees(w: Seq<u8>, q: int, s: Seq<u8>, e: int, ins: Seq<u8>)
    requires
        0 <= q,
        q + ins.len() <= w.len(),
        0 <= e <= s.len(),
        sgrs(ins),
        w.subrange(q, q + ins.len()) == ins,
        agrees(w, q + ins.len(), s, e),
    ensures
        agrees(w, q, s, e),
        ins.len() > 0 ==> lock(w, q, s, e),
{
    lemma_sgrs_bytes(ins);
    if ins.len() > 0 {
        assert(w.subrange(q, q + ins.len())[0] == w[q]);
        assert(agree(w, q, s, e, 0));
    }
}

/// What was just written, going back.
proof fn lemma_backs(w: Seq<u8>, p: int, s: Seq<u8>, i: int, e: int, q: int, r: int)
    requires
        0 <= p <= q,
        0 <= i < e <= s.len(),
        r == q + (e - i),
        r <= w.len(),
        forall|k: int| 0 <= k < e - i ==> #[trigger] w[q + k] == s[i + k],
        q == p ==> backs(w, p, s, i),
        q > p ==> w[q - 1] == 0x6d,
    ensures
        backs(w, r, s, e),
{
    let m = e - i;
    if q == p {
        let n = choose|n: int| #[trigger] back(w, p, s, i, n);
        assert forall|k: int| 0 <= k < m + n implies #[trigger] w[r - (m + n) + k] == s[e - (m + n)
            + k] by {
            if k < n {
                assert(w[p - n + k] == s[i - n + k]);
            } else {
                assert(w[q + (k - n)] == s[i + (k - n)]);
            }
        }
        assert(back(w, r, s, e, m + n));
    } else {
        assert forall|k: int| 0 <= k < m implies #[trigger] w[r - m + k] == s[e - m + k] by {
            assert(w[q + k] == s[i + k]);
        }
        assert(back(w, r, s, e, m));
    }
}

proof fn lemma_backs_own(w: Seq<u8>, p: int, s: Seq<u8>, i: int, ins: Seq<u8>)
    requires
        0 <= p,
        p + ins.len() <= w.len(),
        w.subrange(p, p + ins.len()) == ins,
        sgrs(ins),
        backs(w, p, s, i),
    ensures
        backs(w, p + ins.len(), s, i),
{
    lemma_sgrs_bytes(ins);
    if ins.len() > 0 {
        assert(w.subrange(p, p + ins.len())[ins.len() - 1] == w[p + ins.len() - 1]);
        let n = choose|n: int| #[trigger] back(w, p, s, i, n);
        assert(back(w, p + ins.len(), s, i, 0));
    }
}

proof fn lemma_visible_control(w: Seq<u8>, p: int, s: Seq<u8>, i: int, ins: Seq<u8>)
    requires
        0 <= i < s.len(),
        control_at(s, i),
        plain_control(s, i),
        locked(w, p, s, i, control_end(s, i) - i),
        backs(w, p, s, i),
        sgrs(ins),
        p + (control_end(s, i) - i) + ins.len() <= w.len(),
        w.subrange(
            p + (control_end(s, i) - i),
            p + (control_end(s, i) - i) + ins.len(),
        ) == ins,
        control_end(s, i) == s.len() ==> sgrs(
            w.subrange(p + (control_end(s, i) - i), w.len() as int),
        ),
        visible_from(w, p + (control_end(s, i) - i) + ins.len()) == visible_from(
            s,
            control_end(s, i),
        ),
    ensures
        visible_from(w, p) == visible_from(s, i),
{
    lemma_control_end(s, i);
    lemma_control_same(w, p, s, i);
    lemma_control_end(w, p);
    lemma_skip_sgrs(w, p + (control_end(s, i) - i), ins.len() as int);
    assert(visible_from(s, i) == visible_from(s, control_end(s, i)));
    assert(visible_from(w, p) == visible_from(w, control_end(w, p)));
    assert(visible_from(w, w.len() as int) == Seq::<u8>::empty());
    assert(visible_from(s, s.len() as int) == Seq::<u8>::empty());
}

proof fn lemma_visible_text(w: Seq<u8>, p: int, s: Seq<u8>, i: int, ins: Seq<u8>)
    requires
        0 <= p,
        0 <= i < s.len(),
        !control_at(s, i),
        sgrs(ins),
        locked(w, p + ins.len(), s, i, text_unit_end(s, i) - i),
        w.subrange(p, p + ins.len()) == ins,
        visible_from(w, p + ins.len() + (text_unit_end(s, i) - i)) == visible_from(
            s,
            text_unit_end(s, i),
        ),
    ensures
        visible_from(w, p) == visible_from(s, i),
{
    lemma_text_same(w, p + ins.len(), s, i);
    lemma_skip_sgrs(w, p, ins.len() as int);
}

#[verifier::spinoff_prover]
#[verifier::rlimit(40)]
proof fn lemma_control_facts(
    s: Seq<u8>,
    i: int,
    inks: Inks,
    styles: Seq<Option<Style>>,
    pos: int,
    at: Pen,
    end: Seq<u8>,
)
    requires
        0 <= i < s.len(),
        control_at(s, i),
        shown_from(s, i, pos),
        whole_characters(visible(s), styles),
        styles.len() == visible(s).len(),
        tidy(at.native),
        sgrs(end),
    ensures
        ({
            let w = woven(s, i, inks, styles, pos, at).out + end;
            let p = at.out.len() as int;
            let e = control_end(s, i);
            let next = at.after_control(inks, s.subrange(i, e));
            let ins = started(at.active, inks.color);
            let q = p + (e - i);
            &&& i < e <= s.len()
            &&& w == woven(s, e, inks, styles, pos, next).out + end
            &&& tidy(next.native)
            &&& shown_from(s, e, pos)
            &&& locked(w, p, s, i, e - i)
            &&& sgrs(ins)
            &&& next.out.len() == q + ins.len()
            &&& q + ins.len() <= w.len()
            &&& w.subrange(q, q + ins.len()) == ins
            &&& e == s.len() ==> sgrs(w.subrange(q, w.len() as int))
            &&& backs(w, p, s, i) ==> backs(w, q + ins.len(), s, e)
        }),
{
    let done = woven(s, i, inks, styles, pos, at).out;
    let w = done + end;
    let p = at.out.len() as int;
    lemma_shown_step(s, i, pos);
    lemma_control_end(s, i);
    lemma_woven_step(s, i, inks, styles, pos, at);
    let e = control_end(s, i);
    let x = s.subrange(i, e);
    let next = at.after_control(inks, x);
    let ins = started(at.active, inks.color);
    let q = p + (e - i);
    renditions_stay_tidy(at.native, x);
    lemma_style_changes(at.active, inks.color, at.native, inks.reset);
    lemma_woven_prefix(s, e, inks, styles, pos, next);
    lemma_woven_agrees(s, e, inks, styles, pos, next, end);
    lemma_woven_lock(s, e, inks, styles, pos, next, end);
    lemma_control_agrees(s, i, e, at.out, ins, done, end);
    lemma_own_agrees(w, q, s, e, ins);
    assert(lock(w, q, s, e));
    if e == s.len() {
        lemma_sgrs_concat(ins, end);
        assert(w.subrange(q, w.len() as int) =~= ins + end);
    }
    if backs(w, p, s, i) {
        lemma_backs(w, p, s, i, e, p, q);
        lemma_backs_own(w, q, s, e, ins);
    }
}

#[verifier::spinoff_prover]
#[verifier::rlimit(40)]
proof fn lemma_text_facts(
    s: Seq<u8>,
    i: int,
    inks: Inks,
    styles: Seq<Option<Style>>,
    pos: int,
    at: Pen,
    end: Seq<u8>,
)
    requires
        0 <= i < s.len(),
        !control_at(s, i),
        shown_from(s, i, pos),
        whole_characters(visible(s), styles),
        styles.len() == visible(s).len(),
        tidy(at.native),
        sgrs(end),
    ensures
        ({
            let w = woven(s, i, inks, styles, pos, at).out + end;
            let p = at.out.len() as int;
            let e = text_unit_end(s, i);
            let next = pen_behind_text(at, inks, s.subrange(i, e), styles, pos);
            let c = change(at, inks, s[i], wanted(styles, pos, inks.reset));
            &&& i < e <= s.len()
            &&& w == woven(s, e, inks, styles, pos + (e - i), next).out + end
            &&& tidy(next.native)
            &&& shown_from(s, e, pos + (e - i))
            &&& locked(w, p + c.len(), s, i, e - i)
            &&& sgrs(c)
            &&& next.out.len() == p + c.len() + (e - i)
            &&& w.subrange(p, p + c.len()) == c
            &&& backs(w, p, s, i) ==> backs(w, p + c.len() + (e - i), s, e)
        }),
{
    let done = woven(s, i, inks, styles, pos, at).out;
    let w = done + end;
    let p = at.out.len() as int;
    lemma_shown_step(s, i, pos);
    lemma_woven_step(s, i, inks, styles, pos, at);
    reveal(pen_behind_text);
    let e = text_unit_end(s, i);
    lemma_unit(s, i, pos, inks, styles, at, e - i);
    let next = at.after_text(inks, s.subrange(i, e), styles, pos);
    let c = change(at, inks, s[i], wanted(styles, pos, inks.reset));
    let q = p + c.len();
    lemma_woven_prefix(s, e, inks, styles, pos + (e - i), next);
    lemma_woven_agrees(s, e, inks, styles, pos + (e - i), next, end);
    lemma_woven_lock(s, e, inks, styles, pos + (e - i), next, end);
    lemma_text_agrees(s, i, e, at.out, c, done, end);
    assert((at.out + c).len() == q);
    if backs(w, p, s, i) {
        lemma_backs_own(w, p, s, i, c);
        lemma_backs(w, q, s, i, e, q, q + (e - i));
    }
}

/// The visible text of the output behind `at` is that of `s` from `i` on.
proof fn lemma_weave_visible(
    s: Seq<u8>,
    i: int,
    inks: Inks,
    styles: Seq<Option<Style>>,
    pos: int,
    at: Pen,
    end: Seq<u8>,
    w: Seq<u8>,
)
    requires
        0 <= i <= s.len(),
        self_contained(s, i),
        shown_from(s, i, pos),
        whole_characters(visible(s), styles),
        styles.len() == visible(s).len(),
        tidy(at.native),
        sgrs(end),
        w == woven(s, i, inks, styles, pos, at).out + end,
        backs(w, at.out.len() as int, s, i),
    ensures
        visible_from(w, at.out.len() as int) == visible_from(s, i),
    decreases s.len() - i,
{
    let p = at.out.len() as int;
    if i >= s.len() {
        assert(w.subrange(p, p + end.len()) =~= end);
        lemma_skip_sgrs(w, p, end.len() as int);
    } else if control_at(s, i) {
        lemma_control_facts(s, i, inks, styles, pos, at, end);
        let e = control_end(s, i);
        let next = at.after_control(inks, s.subrange(i, e));
        lemma_weave_visible(s, e, inks, styles, pos, next, end, w);
        lemma_visible_control(w, p, s, i, started(at.active, inks.color));
    } else {
        lemma_text_facts(s, i, inks, styles, pos, at, end);
        let e = text_unit_end(s, i);
        let next = pen_behind_text(at, inks, s.subrange(i, e), styles, pos);
        lemma_weave_visible(s, e, inks, styles, pos + (e - i), next, end, w);
        lemma_visible_text(
            w,
            p,
            s,
            i,
            change(at, inks, s[i], wanted(styles, pos, inks.reset)),
        );
    }
}

/// Writing text with styles keeps what is visible of it: whatever styles its
/// characters have, no visible byte is lost, added or moved. The text must not
/// hold a control string whose payload could be taken to end within a
/// character: one that begins before the string, or one that the end of the
/// text cuts off behind a byte `9C`.
pub proof fn writing_keeps_visible_text(
    s: Seq<u8>,
    styles: Seq<Option<Style>>,
    inks: Inks,
    native: SgrState,
    active: Option<Style>,
    end: Seq<u8>,
)
    requires
        self_contained(s, 0),
        styles.len() == visible(s).len(),
        whole_characters(visible(s), styles),
        tidy(native),
        sgrs(end),
    ensures
        visible(pen(native, active).after_tokens(inks, tokens_of(s), styles).out + end) == visible(
            s,
        ),
        tidy(pen(native, active).after_tokens(inks, tokens_of(s), styles).native),
{
    let at = pen(native, active);
    lemma_woven(s, at, inks, styles);
    assert(visible(s).subrange(0, visible(s).len() as int) =~= visible(s));
    lemma_woven_prefix(s, 0, inks, styles, 0, at);
    let w = woven(s, 0, inks, styles, 0, at).out + end;
    assert(back(w, 0, s, 0, 0));
    lemma_weave_visible(s, 0, inks, styles, 0, at, end, w);
}

/// Highlighted text reads like the text: without its control sequences it is
/// the text without its control sequences.
pub proof fn highlighting_keeps_visible_text(
    s: Seq<u8>,
    styles: Seq<Option<Style>>,
    color: ColorMode,
    reset: ResetMode,
    native: SgrState,
)
    requires
        self_contained(s, 0),
        styles.len() == visible(s).len(),
        whole_characters(visible(s), styles),
        tidy(native),
    ensures
        visible(highlighted(tokens_of(s), styles, color, reset, native)) == visible(s),
{
    let inks = Inks { live: false, color, reset };
    let done = pen(native, None).after_tokens(inks, tokens_of(s), styles);
    writing_keeps_visible_text(s, styles, inks, native, None, Seq::empty());
    lemma_style_changes(done.active, color, done.native, reset);
    writing_keeps_visible_text(
        s,
        styles,
        inks,
        native,
        None,
        ended(done.active, done.native, reset),
    );
}

/// Whatever rules a highlighter has and whatever they come to, its output reads
/// like its input.
pub proof fn highlighters_keep_visible_text(h: HighlighterView, input: Seq<u8>, out: Seq<u8>)
    requires
        self_contained(input, 0),
        highlighting(h, input, Ok(out)),
    ensures
        visible(out) == visible(input),
{
    let result = Ok::<Seq<u8>, MatchIssue>(out);
    let styles = choose|styles: Result<Seq<Option<Style>>, MatchIssue>| #[trigger]
        styles_possible(h.rules, visible(input), styles) && result == highlighted_with(
            h,
            input,
            styles,
        );
    styles_keep_characters_whole(h.rules, visible(input), styles);
    highlighting_keeps_visible_text(
        input,
        styles->Ok_0,
        h.color,
        ResetMode::Full,
        SgrState::initial(),
    );
}

proof fn lemma_no_styles_written(
    s: Seq<u8>,
    i: int,
    inks: Inks,
    styles: Seq<Option<Style>>,
    pos: int,
    at: Pen,
)
    requires
        0 <= i <= s.len(),
        at.active is None,
        forall|k: int| 0 <= k < styles.len() ==> (#[trigger] styles[k]) is None,
    ensures
        woven(s, i, inks, styles, pos, at).out == at.out + s.subrange(i, s.len() as int),
        woven(s, i, inks, styles, pos, at).active is None,
    decreases s.len() - i,
{
    if i < s.len() {
        lemma_woven_step(s, i, inks, styles, pos, at);
        if control_at(s, i) {
            lemma_control_end(s, i);
            let e = control_end(s, i);
            let next = at.after_control(inks, s.subrange(i, e));
            assert(next.out =~= at.out + s.subrange(i, e));
            lemma_no_styles_written(s, e, inks, styles, pos, next);
            lemma_split_at(at.out, s, i, e);
        } else {
            let e = text_unit_end(s, i);
            let next = pen_behind_text(at, inks, s.subrange(i, e), styles, pos);
            lemma_plain_text(at, inks, s.subrange(i, e), styles, pos);
            lemma_no_styles_written(s, e, inks, styles, pos + (e - i), next);
            lemma_split_at(at.out, s, i, e);
        }
    } else {
        assert(at.out + s.subrange(i, s.len() as int) =~= at.out);
    }
}

proof fn lemma_split_at(head: Seq<u8>, s: Seq<u8>, i: int, e: int)
    requires
        0 <= i <= e <= s.len(),
    ensures
        head + s.subrange(i, e) + s.subrange(e, s.len() as int) == head + s.subrange(
            i,
            s.len() as int,
        ),
{
    assert(head + s.subrange(i, e) + s.subrange(e, s.len() as int) =~= head + s.subrange(
        i,
        s.len() as int,
    ));
}

proof fn lemma_plain_text(
    at: Pen,
    inks: Inks,
    text: Seq<u8>,
    styles: Seq<Option<Style>>,
    pos: int,
)
    requires
        at.active is None,
        forall|k: int| 0 <= k < styles.len() ==> (#[trigger] styles[k]) is None,
    ensures
        pen_behind_text(at, inks, text, styles, pos).out == at.out + text,
        pen_behind_text(at, inks, text, styles, pos).active is None,
    decreases text.len(),
{
    reveal(pen_behind_text);
    if text.len() == 0 {
        assert(at.out + text =~= at.out);
    } else {
        lemma_plain_text(at, inks, text.drop_last(), styles, pos);
        assert(text =~= text.drop_last().push(text.last()));
        assert((at.out + text.drop_last()).push(text.last()) =~= at.out + text);
    }
}

/// Output without a style is the input, byte for byte.
pub proof fn unstyled_output_is_the_input(
    s: Seq<u8>,
    styles: Seq<Option<Style>>,
    color: ColorMode,
    reset: ResetMode,
    native: SgrState,
)
    requires
        forall|k: int| 0 <= k < styles.len() ==> (#[trigger] styles[k]) is None,
    ensures
        highlighted(tokens_of(s), styles, color, reset, native) == s,
{
    let inks = Inks { live: false, color, reset };
    let at = pen(native, None);
    lemma_woven(s, at, inks, styles);
    lemma_no_styles_written(s, 0, inks, styles, 0, at);
    assert(Seq::<u8>::empty() + s.subrange(0, s.len() as int) =~= s);
    assert(s + Seq::<u8>::empty() =~= s);
}

/// A highlighter without rules hands out its input.
pub proof fn no_rules_change_nothing(color: ColorMode, input: Seq<u8>, result: Result<Seq<u8>, MatchIssue>)
    requires
        highlighting(HighlighterView { rules: Seq::empty(), color }, input, result),
    ensures
        result == Ok::<Seq<u8>, MatchIssue>(input),
{
    let h = HighlighterView { rules: Seq::<CompiledView>::empty(), color };
    let styles = choose|styles: Result<Seq<Option<Style>>, MatchIssue>| #[trigger]
        styles_possible(h.rules, visible(input), styles) && result == highlighted_with(
            h,
            input,
            styles,
        );
    crate::highlight::no_rules_give_no_styles(visible(input), styles);
    unstyled_output_is_the_input(
        input,
        styles->Ok_0,
        color,
        ResetMode::Full,
        SgrState::initial(),
    );
}

} // verus!
