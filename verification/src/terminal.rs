//! What a terminal shows: the rendition in which each visible byte of some
//! output appears, and that it is the program's own with the style of the rules
//! over it.

use vstd::prelude::*;

use crate::bytes::{digits, joined_with};
use crate::controls::{control_at, csi_intro, fields, text_unit_end, tokens_of, visible};
use crate::emit::{ended, highlighted, pen, started, wanted, Inks, Pen};
use crate::highlight::{
    highlighted_with, highlighting, live_styles_keep_characters_whole, progress,
    styles_keep_characters_whole, styles_possible, HighlighterView, MatchIssue, Progress,
};
use crate::paint::whole_characters;
use crate::prompt_echo::prompt_tail;
use crate::prompt_sgr::ResetMode;
use crate::recolor::unit_styles;
use crate::restoring::{
    lemma_code_applies, lemma_rendition_written, lemma_same_attributes, lemma_style_ended,
    lemma_style_started, lemma_with_contains, lemma_without_contains, renditions_stay_writable,
    touched, writable,
};
use crate::sgr::{
    after_colon, after_fields, after_sequence, attribute_group, ended_groups, ordered, part_number,
    renditions_stay_ordered, restore_bytes, restore_parts, semicolon_color, sgr_number,
    SgrAttribute, SgrState,
};
use crate::stream_model::{at_prompt, finishes, flushes, Stream};
use crate::style::{color_part, sgr, style_parts, style_start, ColorMode, Style};
use crate::units::{
    cut_at, lemma_cut_ends, lemma_next_cut, lemma_sound_concat, lemma_sound_split, lemma_sound_unit,
    lemma_unit_stands, lemma_visible_sound, rest_of, shown_part, sound, stands_at, unit_len, whole,
    whole_control, whole_csi,
};
use crate::utf8::{char_width_at, continuation};
use crate::weave::{
    change, lemma_native_parts, lemma_restore_parts, lemma_same_style, lemma_sgr_is_one,
    lemma_shown_step, lemma_style_parts, lemma_unit, lemma_woven, one_sgr, renditions_stay_tidy,
    shown_from, tidy, woven,
};

verus! {

/// The style decides on the attribute with the SGR code `code`: bold is 1,
/// italic 3, underline 4, blinking 5, inverse 7, struck out 9. Fraktur, 20,
/// double underline, 21, and rapid blinking, 6, stand in the place of italic,
/// underline and blinking.
pub open spec fn decides(style: Style, code: u16) -> bool {
    ||| style.bold && code == 1
    ||| style.italic && (code == 3 || code == 20)
    ||| style.underline && (code == 4 || code == 21)
    ||| style.blink && (code == 5 || code == 6)
    ||| style.invert && code == 7
    ||| style.strike && code == 9
}

/// The style switches the attribute on.
pub open spec fn switches_on(style: Style, a: SgrAttribute) -> bool {
    &&& a.sub == 0
    &&& {
        ||| style.bold && a.code == 1
        ||| style.italic && a.code == 3
        ||| style.underline && a.code == 4
        ||| style.blink && a.code == 5
        ||| style.invert && a.code == 7
        ||| style.strike && a.code == 9
    }
}

/// But for what the style decides on, a terminal shows the rendition `own`.
pub open spec fn own_besides(term: SgrState, own: SgrState, style: Style) -> bool {
    &&& style.foreground is None ==> term.fg == own.fg
    &&& style.background is None ==> term.bg == own.bg
    &&& term.underline == own.underline
    &&& forall|a: SgrAttribute|
        !decides(style, a.code) ==> (#[trigger] term.attributes.contains(a)
            <==> own.attributes.contains(a))
}

/// A terminal shows what the style sets: its colors, and its attributes.
pub open spec fn wears(term: SgrState, style: Style, mode: ColorMode) -> bool {
    &&& style.foreground matches Some(c) ==> term.fg == Some(color_part(c, mode, 30))
    &&& style.background matches Some(c) ==> term.bg == Some(color_part(c, mode, 40))
    &&& forall|a: SgrAttribute|
        decides(style, a.code) ==> (#[trigger] term.attributes.contains(a) <==> switches_on(
            style,
            a,
        ))
}

/// A terminal shows the rendition `own` with a style over it, or `own` itself.
pub open spec fn shows(
    term: SgrState,
    own: SgrState,
    style: Option<Style>,
    mode: ColorMode,
) -> bool {
    match style {
        Some(style) => own_besides(term, own, style) && wears(term, style, mode),
        None => term == own,
    }
}

proof fn lemma_decides(style: Style, code: u16)
    ensures
        decides(style, code) == touched(style, attribute_group(code)),
        decides(style, code) ==> attribute_group(code) != 0,
{
}

/// Everything that `a` sets, `b` sets.
pub open spec fn within(a: Style, b: Style) -> bool {
    &&& a.foreground is Some ==> b.foreground is Some
    &&& a.background is Some ==> b.background is Some
    &&& a.bold ==> b.bold
    &&& a.italic ==> b.italic
    &&& a.underline ==> b.underline
    &&& a.blink ==> b.blink
    &&& a.invert ==> b.invert
    &&& a.strike ==> b.strike
}

/// The style that sets nothing.
pub open spec fn nothing() -> Style {
    Style {
        foreground: None,
        background: None,
        bold: false,
        blink: false,
        invert: false,
        italic: false,
        strike: false,
        underline: false,
    }
}

proof fn lemma_wider(term: SgrState, own: SgrState, a: Style, b: Style)
    requires
        own_besides(term, own, a),
        within(a, b),
    ensures
        own_besides(term, own, b),
{
    assert forall|x: SgrAttribute| !decides(b, x.code) implies (
    #[trigger] term.attributes.contains(x) <==> own.attributes.contains(x)) by {
        assert(!decides(a, x.code));
    }
}

proof fn lemma_own_itself(term: SgrState, own: SgrState)
    requires
        own_besides(term, own, nothing()),
        ordered(term.attributes),
        ordered(own.attributes),
    ensures
        term == own,
{
    assert forall|x: SgrAttribute| #[trigger] term.attributes.contains(x)
        <==> own.attributes.contains(x) by {
        assert(!decides(nothing(), x.code));
    }
    lemma_same_attributes(term.attributes, own.attributes);
    assert(term =~= own);
}

/// A plain SGR code does the same to both.
proof fn lemma_code_besides(t: SgrState, own: SgrState, style: Style, code: u16)
    requires
        own_besides(t, own, style),
    ensures
        own_besides(t.after_code(code), own.after_code(code), style),
{
    let t1 = t.after_code(code);
    let o1 = own.after_code(code);
    assert forall|x: SgrAttribute| !decides(style, x.code) implies (
    #[trigger] t1.attributes.contains(x) <==> o1.attributes.contains(x)) by {
        assert(t.attributes.contains(x) <==> own.attributes.contains(x));
        if code == 0 {
        } else if attribute_group(code) != 0 {
            lemma_with_contains(t.attributes, SgrAttribute { code, sub: 0 }, x);
            lemma_with_contains(own.attributes, SgrAttribute { code, sub: 0 }, x);
        } else if ended_groups(code).0 != 0 {
            let g = ended_groups(code);
            lemma_without_contains(t, g.0, x);
            lemma_without_contains(own, g.0, x);
            lemma_without_contains(t.without(g.0), g.1, x);
            lemma_without_contains(own.without(g.0), g.1, x);
        }
    }
}

proof fn lemma_attr_besides(t: SgrState, own: SgrState, style: Style, a: SgrAttribute, group: u16)
    requires
        own_besides(t, own, style),
    ensures
        own_besides(t.with_attr(a), own.with_attr(a), style),
        own_besides(t.without(group), own.without(group), style),
{
    assert forall|x: SgrAttribute| !decides(style, x.code) implies (
    #[trigger] t.with_attr(a).attributes.contains(x) <==> own.with_attr(a).attributes.contains(x)) by {
        assert(t.attributes.contains(x) <==> own.attributes.contains(x));
        lemma_with_contains(t.attributes, a, x);
        lemma_with_contains(own.attributes, a, x);
    }
    assert forall|x: SgrAttribute| !decides(style, x.code) implies (
    #[trigger] t.without(group).attributes.contains(x) <==> own.without(group).attributes.contains(
        x,
    )) by {
        assert(t.attributes.contains(x) <==> own.attributes.contains(x));
        lemma_without_contains(t, group, x);
        lemma_without_contains(own, group, x);
    }
}

proof fn lemma_fields_besides(t: SgrState, own: SgrState, style: Style, f: Seq<Seq<u8>>, i: int)
    requires
        own_besides(t, own, style),
    ensures
        own_besides(after_fields(t, f, i), after_fields(own, f, i), style),
    decreases f.len() - i,
{
    if 0 <= i < f.len() {
        if f[i].contains(0x3a) {
            let p = fields(f[i], 0x3a);
            if part_number(p, 0) is Some && part_number(p, 1) is Some {
                lemma_attr_besides(
                    t,
                    own,
                    style,
                    SgrAttribute { code: 4, sub: part_number(p, 1)->Some_0 as u8 },
                    4,
                );
            }
            lemma_fields_besides(after_colon(t, p), after_colon(own, p), style, f, i + 1);
        } else if f[i].len() == 0 {
            lemma_code_besides(t, own, style, 0);
            lemma_fields_besides(t.after_code(0), own.after_code(0), style, f, i + 1);
        } else {
            match sgr_number(f[i]) {
                Some(code) => {
                    if code == 38 || code == 48 || code == 58 {
                        let (color, taken) = semicolon_color(f, i);
                        if taken >= 1 {
                            match color {
                                Some(color) => lemma_fields_besides(
                                    t.with_color(code, color),
                                    own.with_color(code, color),
                                    style,
                                    f,
                                    i + taken,
                                ),
                                None => lemma_fields_besides(t, own, style, f, i + taken),
                            }
                        }
                    } else {
                        lemma_code_besides(t, own, style, code);
                        lemma_fields_besides(
                            t.after_code(code),
                            own.after_code(code),
                            style,
                            f,
                            i + 1,
                        );
                    }
                },
                None => lemma_fields_besides(t, own, style, f, i + 1),
            }
        }
    }
}

/// Where a terminal shows the program's own rendition but for a style, it does so
/// behind a control sequence of the program, too.
proof fn lemma_sequence_besides(t: SgrState, own: SgrState, style: Style, u: Seq<u8>)
    requires
        own_besides(t, own, style),
    ensures
        own_besides(after_sequence(t, u), after_sequence(own, u), style),
{
    let n = csi_intro(u);
    if !(n == 0 || u.last() != 0x6d) && n != u.len() - 1 {
        lemma_fields_besides(t, own, style, fields(u.subrange(n, u.len() - 1), 0x3b), 0);
    }
}

/// `a` without what `b` sets.
pub open spec fn minus(a: Style, b: Style) -> Style {
    Style {
        foreground: if b.foreground is Some {
            None
        } else {
            a.foreground
        },
        background: if b.background is Some {
            None
        } else {
            a.background
        },
        bold: a.bold && !b.bold,
        blink: a.blink && !b.blink,
        invert: a.invert && !b.invert,
        italic: a.italic && !b.italic,
        strike: a.strike && !b.strike,
        underline: a.underline && !b.underline,
    }
}

proof fn lemma_decides_both(a: Style, b: Style, code: u16)
    ensures
        decides(a.merged(b), code) == (decides(a, code) || decides(b, code)),
        decides(minus(a, b), code) == (decides(a, code) && !decides(b, code)),
{
}

proof fn lemma_switches(w: Style, a: SgrAttribute)
    requires
        decides(w, a.code),
    ensures
        switches_on(w, a) <==> a.sub == 0 && a.code == attribute_group(a.code),
{
}

/// Putting a style on.
#[verifier::rlimit(40)]
proof fn lemma_put_on(t: SgrState, own: SgrState, acc: Style, w: Style, mode: ColorMode)
    requires
        own_besides(t, own, acc),
        ordered(t.attributes),
        w != nothing(),
    ensures
        ({
            let y = after_sequence(t, style_start(w, mode));
            &&& ordered(y.attributes)
            &&& own_besides(y, own, acc.merged(w))
            &&& wears(y, w, mode)
        }),
{
    let y = after_sequence(t, style_start(w, mode));
    lemma_style_started(t, w, mode);
    assert forall|a: SgrAttribute| !decides(acc.merged(w), a.code) implies (
    #[trigger] y.attributes.contains(a) <==> own.attributes.contains(a)) by {
        lemma_decides(w, a.code);
        lemma_decides_both(acc, w, a.code);
        assert(t.attributes.contains(a) <==> own.attributes.contains(a));
    }
    assert forall|a: SgrAttribute| decides(w, a.code) implies (#[trigger] y.attributes.contains(a)
        <==> switches_on(w, a)) by {
        lemma_decides(w, a.code);
        lemma_switches(w, a);
    }
}

/// Taking back what a style sets, and nothing else.
proof fn lemma_take_back(t: SgrState, own: SgrState, acc: Style, w: Style)
    requires
        own_besides(t, own, acc),
        ordered(t.attributes),
        writable(own),
        w != nothing(),
        !w.bold,
    ensures
        ({
            let y = after_sequence(t, restore_bytes(own, w));
            &&& ordered(y.attributes)
            &&& own_besides(y, own, minus(acc, w))
            &&& restore_bytes(own, w).len() > 0
        }),
{
    let y = after_sequence(t, restore_bytes(own, w));
    lemma_style_ended(t, own, w);
    assert forall|a: SgrAttribute| !decides(minus(acc, w), a.code) implies (
    #[trigger] y.attributes.contains(a) <==> own.attributes.contains(a)) by {
        lemma_decides(w, a.code);
        lemma_decides_both(acc, w, a.code);
        if !decides(w, a.code) {
            assert(t.attributes.contains(a) <==> own.attributes.contains(a));
        }
    }
}

/// One visible byte, and the rendition that it is shown in.
pub struct Cell {
    pub byte: u8,
    pub look: SgrState,
}

/// The bytes of one character.
pub open spec fn cells(u: Seq<u8>, term: SgrState) -> Seq<Cell> {
    u.map_values(|b: u8| Cell { byte: b, look: term })
}

/// What a terminal shows of output made of whole units, where `term` is its
/// rendition in front of it: control sequences change the rendition, and each
/// visible byte is shown in the one that is on.
pub open spec fn screen(x: Seq<u8>, term: SgrState) -> Seq<Cell>
    decreases x.len(),
{
    let n = unit_len(x);
    if x.len() == 0 || !(0 < n <= x.len()) {
        Seq::empty()
    } else if control_at(x, 0) {
        screen(rest_of(x, n), after_sequence(term, x.subrange(0, n)))
    } else {
        cells(x.subrange(0, n), term) + screen(rest_of(x, n), term)
    }
}

/// The rendition behind such output.
pub open spec fn left_in(x: Seq<u8>, term: SgrState) -> SgrState
    decreases x.len(),
{
    let n = unit_len(x);
    if x.len() == 0 || !(0 < n <= x.len()) {
        term
    } else if control_at(x, 0) {
        left_in(rest_of(x, n), after_sequence(term, x.subrange(0, n)))
    } else {
        left_in(rest_of(x, n), term)
    }
}

proof fn lemma_first_unit(u: Seq<u8>, rest: Seq<u8>, term: SgrState)
    requires
        whole(u),
    ensures
        whole_control(u) ==> screen(u + rest, term) == screen(rest, after_sequence(term, u)),
        whole_control(u) ==> left_in(u + rest, term) == left_in(rest, after_sequence(term, u)),
        !whole_control(u) ==> screen(u + rest, term) == cells(u, term) + screen(rest, term),
        !whole_control(u) ==> left_in(u + rest, term) == left_in(rest, term),
        u.len() > 0,
{
    lemma_sound_unit(u, rest);
    assert(stands_at(u, 0, u));
    lemma_unit_stands(u, 0, u);
}

proof fn lemma_screen_concat(a: Seq<u8>, b: Seq<u8>, term: SgrState)
    requires
        sound(a),
    ensures
        screen(a + b, term) == screen(a, term) + screen(b, left_in(a, term)),
        left_in(a + b, term) == left_in(b, left_in(a, term)),
    decreases a.len(),
{
    if a.len() == 0 {
        assert(a + b =~= b);
        assert(screen(a, term) + screen(b, term) =~= screen(b, term));
    } else {
        let n = lemma_sound_split(a);
        let u = a.subrange(0, n);
        let rest = rest_of(a, n);
        assert(u + (rest + b) =~= a + b);
        assert(u + rest =~= a);
        lemma_first_unit(u, rest + b, term);
        lemma_first_unit(u, rest, term);
        if whole_control(u) {
            lemma_screen_concat(rest, b, after_sequence(term, u));
        } else {
            lemma_screen_concat(rest, b, term);
            assert(cells(u, term) + (screen(rest, term) + screen(b, left_in(rest, term)))
                =~= cells(u, term) + screen(rest, term) + screen(b, left_in(rest, term)));
        }
    }
}

/// One more unit of output.
proof fn lemma_screen_unit(a: Seq<u8>, u: Seq<u8>, term: SgrState)
    requires
        sound(a),
        whole(u),
    ensures
        sound(a + u),
        whole_control(u) ==> screen(a + u, term) == screen(a, term) && left_in(a + u, term)
            == after_sequence(left_in(a, term), u),
        !whole_control(u) ==> screen(a + u, term) == screen(a, term) + cells(u, left_in(a, term))
            && left_in(a + u, term) == left_in(a, term),
{
    let none = Seq::<u8>::empty();
    lemma_screen_concat(a, u, term);
    lemma_sound_concat(a, u);
    lemma_sound_unit(u, none);
    assert(u + none =~= u);
    lemma_first_unit(u, none, left_in(a, term));
    assert(screen(a, term) + Seq::<Cell>::empty() =~= screen(a, term));
    assert(cells(u, left_in(a, term)) + Seq::<Cell>::empty() =~= cells(u, left_in(a, term)));
}

/// A terminal shows the visible bytes of what it gets.
proof fn lemma_screen_text(x: Seq<u8>, term: SgrState)
    requires
        sound(x),
    ensures
        screen(x, term).len() == shown_part(x).len(),
        forall|k: int|
            0 <= k < shown_part(x).len() ==> (#[trigger] screen(x, term)[k]).byte == shown_part(x)[k],
    decreases x.len(),
{
    if x.len() > 0 {
        let n = lemma_sound_split(x);
        let u = x.subrange(0, n);
        let rest = rest_of(x, n);
        assert(u + rest =~= x);
        lemma_sound_unit(u, rest);
        lemma_first_unit(u, rest, term);
        if whole_control(u) {
            lemma_screen_text(rest, after_sequence(term, u));
        } else {
            lemma_screen_text(rest, term);
            assert forall|k: int| 0 <= k < shown_part(x).len() implies (#[trigger] screen(x, term)[k]).byte
                == shown_part(x)[k] by {
                if k >= u.len() {
                    assert(screen(x, term)[k] == screen(rest, term)[k - u.len()]);
                    assert(shown_part(x)[k] == shown_part(rest)[k - u.len()]);
                }
            }
        }
    }
}

/// The style that a byte is to be shown in: without bold where resets are
/// minimal, and none where nothing is set.
pub open spec fn asked(style: Option<Style>, reset: ResetMode) -> Option<Style> {
    match style {
        Some(style) => {
            let kept = if reset is Minimal {
                Style { bold: false, ..style }
            } else {
                style
            };
            if kept == nothing() {
                None
            } else {
                Some(kept)
            }
        },
        None => None,
    }
}

proof fn lemma_asked(styles: Seq<Option<Style>>, k: int, reset: ResetMode)
    requires
        0 <= k < styles.len(),
    ensures
        wanted(styles, k, reset) == asked(styles[k], reset),
        asked(styles[k], reset) matches Some(w) ==> w != nothing() && (reset is Minimal ==> !w.bold),
{
    assert(Style::plain() == nothing());
}

/// Where bytes without a style stand between two styles, they are not only blanks
/// and tabs, or the later style sets all that the earlier one sets. From byte `k`
/// on; `active` is the style that is on there.
pub open spec fn nothing_left_on(
    text: Seq<u8>,
    styles: Seq<Option<Style>>,
    reset: ResetMode,
    active: Option<Style>,
    k: int,
) -> bool
    decreases text.len() - k,
{
    if !(0 <= k < text.len()) {
        true
    } else {
        let next = asked(styles[k], reset);
        &&& active is Some && next is Some ==> within(active->Some_0, next->Some_0)
        &&& nothing_left_on(
            text,
            styles,
            reset,
            if next is Some {
                next
            } else if text[k] == 0x20 || text[k] == 0x09 {
                active
            } else {
                None
            },
            k + 1,
        )
    }
}

/// How a byte is shown: in the program's own rendition with its style over it.
/// Where a style may be left on from before, its own is shown all the same. In a
/// live stream, blanks and tabs without a style are shown in any rendition.
pub open spec fn shown_right(
    seen: Cell,
    own: Cell,
    style: Option<Style>,
    inks: Inks,
    exact: bool,
) -> bool {
    let want = asked(style, inks.reset);
    &&& seen.byte == own.byte
    &&& inks.live && want is None && (seen.byte == 0x20 || seen.byte == 0x09) || {
        &&& want matches Some(w) ==> wears(seen.look, w, inks.color)
        &&& want is None && inks.reset is Full ==> seen.look == own.look
        &&& exact ==> shows(seen.look, own.look, want, inks.color)
    }
}

spec fn or_nothing(style: Option<Style>) -> Style {
    match style {
        Some(style) => style,
        None => nothing(),
    }
}

/// The terminal is where the pen takes it to be: `acc` is what may differ from the
/// program's own rendition.
spec fn in_step(
    term: SgrState,
    own: SgrState,
    active: Option<Style>,
    acc: Style,
    inks: Inks,
    exact: bool,
) -> bool {
    &&& own_besides(term, own, acc)
    &&& ordered(term.attributes)
    &&& writable(own)
    &&& tidy(own)
    &&& active matches Some(a) ==> a != nothing() && (inks.reset is Minimal ==> !a.bold) && wears(
        term,
        a,
        inks.color,
    ) && within(a, acc)
    &&& exact ==> within(acc, or_nothing(active))
    &&& inks.reset is Full && active is None ==> within(acc, nothing())
}

proof fn lemma_sgr_unit(t: Seq<u8>)
    requires
        one_sgr(t),
    ensures
        whole(t),
        whole_control(t),
{
    assert(whole_csi(t));
}

/// Putting a style on in the output.
proof fn lemma_started_screen(
    out: Seq<u8>,
    first: SgrState,
    own: SgrState,
    acc: Style,
    w: Style,
    mode: ColorMode,
)
    requires
        sound(out),
        own_besides(left_in(out, first), own, acc),
        ordered(left_in(out, first).attributes),
        w != nothing(),
    ensures
        ({
            let more = out + started(Some(w), mode);
            &&& sound(more)
            &&& screen(more, first) == screen(out, first)
            &&& ordered(left_in(more, first).attributes)
            &&& own_besides(left_in(more, first), own, acc.merged(w))
            &&& wears(left_in(more, first), w, mode)
        }),
{
    lemma_style_parts(w, mode);
    lemma_sgr_is_one(style_parts(w, mode));
    lemma_sgr_unit(style_start(w, mode));
    lemma_screen_unit(out, style_start(w, mode), first);
    lemma_put_on(left_in(out, first), own, acc, w, mode);
}

/// Taking a style back in the output.
proof fn lemma_ended_screen(
    out: Seq<u8>,
    first: SgrState,
    own: SgrState,
    acc: Style,
    w: Style,
    reset: ResetMode,
)
    requires
        sound(out),
        own_besides(left_in(out, first), own, acc),
        ordered(left_in(out, first).attributes),
        writable(own),
        tidy(own),
        w != nothing(),
        reset is Minimal ==> !w.bold,
    ensures
        ({
            let more = out + ended(Some(w), own, reset);
            &&& sound(more)
            &&& screen(more, first) == screen(out, first)
            &&& ordered(left_in(more, first).attributes)
            &&& reset is Full ==> left_in(more, first) == own
            &&& reset is Minimal ==> own_besides(left_in(more, first), own, minus(acc, w))
        }),
{
    let t = left_in(out, first);
    match reset {
        ResetMode::Minimal => {
            lemma_take_back(t, own, acc, w);
            lemma_restore_parts(own, w);
            lemma_sgr_is_one(restore_parts(own, w));
            lemma_sgr_unit(restore_bytes(own, w));
            lemma_screen_unit(out, restore_bytes(own, w), first);
        },
        ResetMode::Full => {
            let zero = seq![0x1bu8, 0x5bu8, 0x30u8, 0x6du8];
            assert(one_sgr(zero));
            lemma_sgr_unit(zero);
            lemma_screen_unit(out, zero, first);
            lemma_zero(t);
            lemma_rendition_written(own);
            if own.parts().len() > 0 {
                lemma_native_parts(own);
                lemma_sgr_is_one(own.parts());
                lemma_sgr_unit(sgr(own.parts()));
                lemma_screen_unit(out + zero, sgr(own.parts()), first);
                assert(out + zero + sgr(own.parts()) =~= out + (zero + sgr(own.parts())));
            } else {
                assert(zero + Seq::<u8>::empty() =~= zero);
            }
        },
    }
}

/// The full reset leads to the rendition that a terminal starts with.
proof fn lemma_zero(t: SgrState)
    ensures
        after_sequence(t, seq![0x1bu8, 0x5bu8, 0x30u8, 0x6du8]) == SgrState::initial(),
{
    let zero = seq![0x1bu8, 0x5bu8, 0x30u8, 0x6du8];
    lemma_one_code(t, 0);
    reveal_with_fuel(digits, 2);
    assert(digits(0) =~= seq![0x30u8]);
    assert(zero =~= seq![0x1bu8, 0x5bu8] + digits(0) + seq![0x6du8]);
}

proof fn lemma_one_number(code: u16)
    ensures
        sgr(seq![digits(code as nat)]) == seq![0x1bu8, 0x5bu8] + digits(code as nat) + seq![0x6du8],
{
    assert(joined_with(seq![digits(code as nat)], 0x3b) == digits(code as nat));
}

/// An SGR sequence with one number.
proof fn lemma_one_code(t: SgrState, code: u16)
    requires
        code != 38 && code != 48 && code != 58,
    ensures
        after_sequence(t, seq![0x1bu8, 0x5bu8] + digits(code as nat) + seq![0x6du8])
            == t.after_code(code),
{
    lemma_one_number(code);
    lemma_code_applies(t, code);
}

/// What goes in before a byte puts the terminal where the byte is to be shown.
#[verifier::rlimit(60)]
#[verifier::spinoff_prover]
proof fn lemma_change_screen(
    first: SgrState,
    at: Pen,
    inks: Inks,
    b: u8,
    want: Option<Style>,
    acc: Style,
    exact: bool,
) -> (next: Style)
    requires
        sound(at.out),
        in_step(left_in(at.out, first), at.native, at.active, acc, inks, exact),
        want matches Some(w) ==> w != nothing() && (inks.reset is Minimal ==> !w.bold),
        exact && inks.live && at.active is Some && want is Some ==> within(
            at.active->Some_0,
            want->Some_0,
        ),
        !inks.live ==> exact,
    ensures
        ({
            let out = at.out + change(at, inks, b, want);
            let term = left_in(out, first);
            let active = at.after_byte(inks, b, want).active;
            &&& sound(out)
            &&& screen(out, first) == screen(at.out, first)
            &&& in_step(term, at.native, active, next, inks, exact)
            &&& inks.live && want is None && (b == 0x20 || b == 0x09) || {
                &&& active == want
                &&& want matches Some(w) ==> wears(term, w, inks.color)
                &&& want is None && inks.reset is Full ==> term == at.native
                &&& exact ==> shows(term, at.native, want, inks.color)
            }
            &&& active == if want is Some || !(inks.live && (b == 0x20 || b == 0x09)) {
                want
            } else {
                at.active
            }
        }),
{
    let term = left_in(at.out, first);
    let own = at.native;
    let c = change(at, inks, b, want);
    let blank = b == 0x20 || b == 0x09;
    if at.active == want || (inks.live && want is None && blank) {
        assert(at.out + c =~= at.out);
        if at.active == want {
            lemma_right(term, own, want, acc, inks, exact);
        }
        acc
    } else if inks.live && want is Some {
        let w = want->Some_0;
        lemma_started_screen(at.out, first, own, acc, w, inks.color);
        let next = acc.merged(w);
        let now = left_in(at.out + c, first);
        assert(within(w, next));
        if exact {
            assert(within(next, w));
        }
        lemma_right(now, own, want, next, inks, exact);
        next
    } else {
        let a = at.active;
        let back = ended(a, own, inks.reset);
        let mid = at.out + back;
        let rest: Style = match a {
            Some(a) => {
                lemma_ended_screen(at.out, first, own, acc, a, inks.reset);
                if inks.reset is Full {
                    nothing()
                } else {
                    minus(acc, a)
                }
            },
            None => {
                assert(mid =~= at.out);
                acc
            },
        };
        let t1 = left_in(mid, first);
        assert(own_besides(t1, own, rest));
        match want {
            Some(w) => {
                lemma_started_screen(mid, first, own, rest, w, inks.color);
                let next = rest.merged(w);
                assert(at.out + c =~= mid + started(want, inks.color));
                let now = left_in(at.out + c, first);
                assert(within(w, next));
                assert(within(rest, nothing()));
                assert(within(next, w));
                lemma_right(now, own, want, next, inks, exact);
                next
            },
            None => {
                assert(at.out + c =~= mid);
                if exact {
                    assert(within(rest, nothing()));
                }
                lemma_right(t1, own, want, rest, inks, exact);
                rest
            },
        }
    }
}

/// A terminal that is in step shows bytes right.
proof fn lemma_right(
    term: SgrState,
    own: SgrState,
    want: Option<Style>,
    acc: Style,
    inks: Inks,
    exact: bool,
)
    requires
        in_step(term, own, want, acc, inks, exact),
    ensures
        want matches Some(w) ==> wears(term, w, inks.color),
        want is None && inks.reset is Full ==> term == own,
        exact ==> shows(term, own, want, inks.color),
{
    if want is None && (inks.reset is Full || exact) {
        lemma_wider(term, own, acc, nothing());
        lemma_own_itself(term, own);
    }
    if exact && want is Some {
        lemma_wider(term, own, acc, want->Some_0);
    }
}

/// A control sequence of the program, with the style put on again.
#[verifier::rlimit(60)]
#[verifier::spinoff_prover]
proof fn lemma_control_screen(
    first: SgrState,
    at: Pen,
    inks: Inks,
    u: Seq<u8>,
    acc: Style,
    exact: bool,
)
    requires
        sound(at.out),
        whole_control(u),
        in_step(left_in(at.out, first), at.native, at.active, acc, inks, exact),
    ensures
        ({
            let next = at.after_control(inks, u);
            &&& sound(next.out)
            &&& screen(next.out, first) == screen(at.out, first)
            &&& in_step(left_in(next.out, first), next.native, next.active, acc, inks, exact)
        }),
{
    let term = left_in(at.out, first);
    let own = at.native;
    let native = after_sequence(own, u);
    lemma_screen_unit(at.out, u, first);
    lemma_sequence_besides(term, own, acc, u);
    renditions_stay_ordered(term, u);
    renditions_stay_writable(own, u);
    renditions_stay_tidy(own, u);
    match at.active {
        Some(a) => {
            lemma_started_screen(at.out + u, first, native, acc, a, inks.color);
            let now = left_in(at.out + u + started(Some(a), inks.color), first);
            assert(within(acc.merged(a), acc));
            lemma_wider(now, native, acc.merged(a), acc);
        },
        None => {
            assert(at.out + u + started(None, inks.color) =~= at.out + u);
        },
    }
}

/// The first `pos` visible bytes of `s` are shown right in `out`.
spec fn right_so_far(
    out: Seq<u8>,
    first: SgrState,
    s: Seq<u8>,
    native: SgrState,
    styles: Seq<Option<Style>>,
    inks: Inks,
    exact: bool,
    pos: int,
) -> bool {
    &&& screen(out, first).len() == pos
    &&& forall|k: int|
        0 <= k < pos ==> shown_right(
            #[trigger] screen(out, first)[k],
            screen(s, native)[k],
            styles[k],
            inks,
            exact,
        )
}

/// Where the program's own output stands at a unit.
proof fn lemma_own_unit(s: Seq<u8>, i: int, e: int, native: SgrState)
    requires
        cut_at(s, i),
        cut_at(s, e),
        i < e <= s.len(),
        whole(s.subrange(i, e)),
    ensures
        ({
            let u = s.subrange(i, e);
            let own = left_in(s.subrange(0, i), native);
            let pos = screen(s.subrange(0, i), native).len() as int;
            &&& whole_control(u) ==> left_in(s.subrange(0, e), native) == after_sequence(own, u)
                && screen(s.subrange(0, e), native).len() == pos
            &&& !whole_control(u) ==> left_in(s.subrange(0, e), native) == own && screen(
                s.subrange(0, e),
                native,
            ).len() == pos + (e - i)
            &&& !whole_control(u) ==> pos + (e - i) <= screen(s, native).len() && forall|k: int|
                0 <= k < e - i ==> #[trigger] screen(s, native)[pos + k] == (Cell {
                    byte: s[i + k],
                    look: own,
                })
        }),
{
    let a = s.subrange(0, i);
    let u = s.subrange(i, e);
    let b = s.subrange(0, e);
    let pos = screen(a, native).len() as int;
    let own = left_in(a, native);
    assert(a + u =~= b);
    lemma_screen_unit(a, u, native);
    lemma_screen_concat(b, rest_of(s, e), native);
    assert(b + rest_of(s, e) =~= s);
    if !whole_control(u) {
        assert forall|k: int| 0 <= k < e - i implies #[trigger] screen(s, native)[pos + k] == (Cell {
            byte: s[i + k],
            look: own,
        }) by {
            assert(screen(b, native)[pos + k] == cells(u, own)[k]);
            assert(u[k] == s[i + k]);
        }
    }
}

#[verifier::rlimit(80)]
#[verifier::spinoff_prover]
proof fn lemma_text_screen(
    s: Seq<u8>,
    i: int,
    e: int,
    inks: Inks,
    styles: Seq<Option<Style>>,
    pos: int,
    at: Pen,
    first: SgrState,
    native: SgrState,
    acc: Style,
    exact: bool,
) -> (next: Style)
    requires
        cut_at(s, i),
        cut_at(s, e),
        i < s.len(),
        e == text_unit_end(s, i),
        i < e,
        !control_at(s, i),
        whole(s.subrange(i, e)),
        !whole_control(s.subrange(i, e)),
        unit_styles(s, styles),
        shown_from(s, i, pos),
        sound(at.out),
        in_step(left_in(at.out, first), at.native, at.active, acc, inks, exact),
        at.native == left_in(s.subrange(0, i), native),
        screen(s.subrange(0, i), native).len() == pos,
        right_so_far(at.out, first, s, native, styles, inks, exact, pos),
        !inks.live ==> exact,
        exact && inks.live ==> nothing_left_on(visible(s), styles, inks.reset, at.active, pos),
    ensures
        ({
            let after = at.after_text(inks, s.subrange(i, e), styles, pos);
            &&& sound(after.out)
            &&& after.native == at.native
            &&& in_step(left_in(after.out, first), after.native, after.active, next, inks, exact)
            &&& right_so_far(after.out, first, s, native, styles, inks, exact, pos + (e - i))
            &&& exact && inks.live ==> nothing_left_on(
                visible(s),
                styles,
                inks.reset,
                after.active,
                pos + (e - i),
            )
        }),
{
    let u = s.subrange(i, e);
    let n = e - i;
    let want = wanted(styles, pos, inks.reset);
    let after = at.after_text(inks, u, styles, pos);
    let c = change(at, inks, s[i], want);
    lemma_shown_step(s, i, pos);
    lemma_asked(styles, pos, inks.reset);
    assert(visible(s)[pos + 0] == s[i + 0]);
    if exact && inks.live {
        assert(nothing_left_on(visible(s), styles, inks.reset, at.active, pos));
    }
    let next = lemma_change_screen(first, at, inks, s[i], want, acc, exact);
    lemma_unit(s, i, pos, inks, styles, at, n);
    lemma_screen_unit(at.out + c, u, first);
    lemma_own_unit(s, i, e, native);
    let term = left_in(at.out + c, first);
    assert(after.out == at.out + c + u);
    assert(after.active == at.after_byte(inks, s[i], want).active) by {
        if n == 1 {
            assert(u.drop_last() =~= Seq::<u8>::empty());
            assert(u.last() == s[i]);
            assert(at.after_text(inks, u.drop_last(), styles, pos) == at);
        } else {
            assert(char_width_at(s, i) > 0);
            assert(s[i] >= 0x80);
        }
    }
    let seen = screen(after.out, first);
    assert forall|k: int| 0 <= k < pos + n implies shown_right(
        #[trigger] seen[k],
        screen(s, native)[k],
        styles[k],
        inks,
        exact,
    ) by {
        if k < pos {
            assert(seen[k] == screen(at.out, first)[k]);
        } else {
            let j = k - pos;
            assert(seen[k] == cells(u, term)[j]);
            assert(u[j] == s[i + j]);
            assert(screen(s, native)[pos + j] == (Cell { byte: s[i + j], look: at.native }));
            lemma_same_style(s, i, pos, inks, styles, j);
            lemma_asked(styles, k, inks.reset);
            if n > 1 && j > 0 {
                assert(char_width_at(s, i) > 0);
                assert(s[i] >= 0x80);
            }
        }
    }
    if exact && inks.live {
        lemma_nothing_left(s, i, styles, inks, at.active, pos, n);
    }
    next
}

/// Behind a character, the style that is on is that of the character.
proof fn lemma_nothing_left(
    s: Seq<u8>,
    i: int,
    styles: Seq<Option<Style>>,
    inks: Inks,
    active: Option<Style>,
    pos: int,
    n: int,
)
    requires
        0 <= i < s.len(),
        !control_at(s, i),
        shown_from(s, i, pos),
        whole_characters(visible(s), styles),
        styles.len() == visible(s).len(),
        1 <= n <= text_unit_end(s, i) - i,
        nothing_left_on(visible(s), styles, inks.reset, active, pos),
    ensures
        ({
            let want = asked(styles[pos], inks.reset);
            nothing_left_on(
                visible(s),
                styles,
                inks.reset,
                if want is Some || !(s[i] == 0x20 || s[i] == 0x09) {
                    want
                } else {
                    active
                },
                pos + n,
            )
        }),
    decreases n,
{
    lemma_shown_step(s, i, pos);
    assert(visible(s)[pos + 0] == s[i + 0]);
    if n > 1 {
        lemma_nothing_left(s, i, styles, inks, active, pos, n - 1);
        let k = n - 1;
        assert(visible(s)[pos + k] == s[i + k]);
        lemma_same_style(s, i, pos, inks, styles, k);
        lemma_asked(styles, pos, inks.reset);
        lemma_asked(styles, pos + k, inks.reset);
        assert(char_width_at(s, i) > 0);
        assert(s[i] >= 0x80);
        assert(continuation(s[i + k]));
    }
}

#[verifier::rlimit(60)]
#[verifier::spinoff_prover]
proof fn lemma_woven_screen(
    s: Seq<u8>,
    i: int,
    inks: Inks,
    styles: Seq<Option<Style>>,
    pos: int,
    at: Pen,
    first: SgrState,
    native: SgrState,
    acc: Style,
    exact: bool,
) -> (last: Style)
    requires
        cut_at(s, i),
        unit_styles(s, styles),
        shown_from(s, i, pos),
        sound(at.out),
        in_step(left_in(at.out, first), at.native, at.active, acc, inks, exact),
        at.native == left_in(s.subrange(0, i), native),
        screen(s.subrange(0, i), native).len() == pos,
        right_so_far(at.out, first, s, native, styles, inks, exact, pos),
        !inks.live ==> exact,
        exact && inks.live ==> nothing_left_on(visible(s), styles, inks.reset, at.active, pos),
    ensures
        ({
            let done = woven(s, i, inks, styles, pos, at);
            &&& sound(done.out)
            &&& done.native == left_in(s, native)
            &&& in_step(left_in(done.out, first), done.native, done.active, last, inks, exact)
            &&& right_so_far(
                done.out,
                first,
                s,
                native,
                styles,
                inks,
                exact,
                screen(s, native).len() as int,
            )
        }),
    decreases s.len() - i,
{
    if i < s.len() {
        let e = lemma_next_cut(s, i);
        let u = s.subrange(i, e);
        lemma_own_unit(s, i, e, native);
        lemma_shown_step(s, i, pos);
        if control_at(s, i) {
            lemma_control_screen(first, at, inks, u, acc, exact);
            lemma_woven_screen(
                s,
                e,
                inks,
                styles,
                pos,
                at.after_control(inks, u),
                first,
                native,
                acc,
                exact,
            )
        } else {
            let next = lemma_text_screen(
                s,
                i,
                e,
                inks,
                styles,
                pos,
                at,
                first,
                native,
                acc,
                exact,
            );
            lemma_woven_screen(
                s,
                e,
                inks,
                styles,
                pos + (e - i),
                at.after_text(inks, u, styles, pos),
                first,
                native,
                next,
                exact,
            )
        }
    } else {
        assert(s.subrange(0, i) =~= s);
        acc
    }
}

/// The style that is on can be on: it sets something and, where resets are
/// minimal, is not bold.
pub open spec fn can_be_on(style: Option<Style>, reset: ResetMode) -> bool {
    style matches Some(w) ==> w != nothing() && (reset is Minimal ==> !w.bold)
}

/// A terminal shows the program's own rendition with the style that is on over
/// it.
pub open spec fn follows(
    term: SgrState,
    native: SgrState,
    active: Option<Style>,
    color: ColorMode,
    reset: ResetMode,
) -> bool {
    &&& shows(term, native, active, color)
    &&& can_be_on(active, reset)
    &&& ordered(term.attributes)
    &&& writable(native)
    &&& tidy(native)
}

proof fn lemma_follows(
    term: SgrState,
    native: SgrState,
    active: Option<Style>,
    inks: Inks,
)
    requires
        follows(term, native, active, inks.color, inks.reset),
    ensures
        in_step(term, native, active, or_nothing(active), inks, true),
        in_step(term, native, active, or_nothing(active), inks, false),
{
    if active is None {
        assert(own_besides(term, native, nothing()));
    }
}

/// How the visible bytes of `s` are shown in `out`: each byte that is neither a
/// blank nor a tab, and each that has a style, in the rendition that the program's
/// own output gives it, with the style of the rules over it, and in no other.
pub open spec fn shown_in_style(
    out: Seq<u8>,
    term: SgrState,
    s: Seq<u8>,
    native: SgrState,
    styles: Seq<Option<Style>>,
    color: ColorMode,
    reset: ResetMode,
) -> bool {
    &&& screen(out, term).len() == visible(s).len()
    &&& screen(s, native).len() == visible(s).len()
    &&& forall|k: int|
        0 <= k < visible(s).len() ==> (#[trigger] screen(out, term)[k]).byte == visible(s)[k]
    &&& forall|k: int|
        0 <= k < visible(s).len() && (visible(s)[k] != 0x20 && visible(s)[k] != 0x09 || asked(
            styles[k],
            reset,
        ) is Some) ==> shows(
            (#[trigger] screen(out, term)[k]).look,
            screen(s, native)[k].look,
            asked(styles[k], reset),
            color,
        )
}

/// In a live stream, a terminal shows every visible byte other than blanks and
/// tabs in the style that the rules give it over the program's own rendition; a
/// byte that no rule covers is shown in the program's own rendition. The one
/// exception: where styles follow each other directly or over blanks, what the
/// earlier one sets and the later one does not stays on.
pub proof fn live_output_is_shown_in_its_styles(
    s: Seq<u8>,
    styles: Seq<Option<Style>>,
    color: ColorMode,
    reset: ResetMode,
    native: SgrState,
    active: Option<Style>,
    term: SgrState,
)
    requires
        sound(s),
        unit_styles(s, styles),
        follows(term, native, active, color, reset),
        nothing_left_on(visible(s), styles, reset, active, 0),
    ensures
        ({
            let done = pen(native, active).after_tokens(
                Inks { live: true, color, reset },
                tokens_of(s),
                styles,
            );
            &&& sound(done.out)
            &&& shown_in_style(done.out, term, s, native, styles, color, reset)
            &&& follows(left_in(done.out, term), done.native, done.active, color, reset)
            &&& done.native == left_in(s, native)
        }),
{
    let inks = Inks { live: true, color, reset };
    let done = pen(native, active).after_tokens(inks, tokens_of(s), styles);
    lemma_follows(term, native, active, inks);
    let last = lemma_pen_screen(s, styles, inks, native, active, term, true);
    lemma_right(left_in(done.out, term), done.native, done.active, last, inks, true);
}

proof fn lemma_pen_screen(
    s: Seq<u8>,
    styles: Seq<Option<Style>>,
    inks: Inks,
    native: SgrState,
    active: Option<Style>,
    term: SgrState,
    exact: bool,
) -> (last: Style)
    requires
        sound(s),
        unit_styles(s, styles),
        in_step(term, native, active, or_nothing(active), inks, exact),
        !inks.live ==> exact,
        exact && inks.live ==> nothing_left_on(visible(s), styles, inks.reset, active, 0),
    ensures
        ({
            let done = pen(native, active).after_tokens(inks, tokens_of(s), styles);
            &&& sound(done.out)
            &&& done.native == left_in(s, native)
            &&& in_step(left_in(done.out, term), done.native, done.active, last, inks, exact)
            &&& right_so_far(
                done.out,
                term,
                s,
                native,
                styles,
                inks,
                exact,
                visible(s).len() as int,
            )
            &&& screen(s, native).len() == visible(s).len()
            &&& forall|k: int|
                0 <= k < visible(s).len() ==> (#[trigger] screen(s, native)[k]).byte == visible(s)[k]
        }),
{
    let at = pen(native, active);
    lemma_woven(s, at, inks, styles);
    lemma_cut_ends(s);
    assert(visible(s).subrange(0, visible(s).len() as int) =~= visible(s));
    assert(s.subrange(0, 0) =~= Seq::<u8>::empty());
    assert(left_in(at.out, term) == term);
    lemma_visible_sound(s);
    lemma_screen_text(s, native);
    lemma_woven_screen(s, 0, inks, styles, 0, at, term, native, or_nothing(active), exact)
}

/// Whatever styles follow each other in a live stream, a byte is shown with all
/// that its style sets; and where resets are full, a byte without a style, other
/// than blanks and tabs, is shown in the program's own rendition.
pub proof fn live_output_shows_what_styles_set(
    s: Seq<u8>,
    styles: Seq<Option<Style>>,
    color: ColorMode,
    reset: ResetMode,
    native: SgrState,
    active: Option<Style>,
    term: SgrState,
    k: int,
)
    requires
        sound(s),
        unit_styles(s, styles),
        follows(term, native, active, color, reset),
        0 <= k < visible(s).len(),
    ensures
        ({
            let done = pen(native, active).after_tokens(
                Inks { live: true, color, reset },
                tokens_of(s),
                styles,
            );
            let seen = screen(done.out, term);
            &&& sound(done.out)
            &&& seen.len() == visible(s).len()
            &&& seen[k].byte == visible(s)[k]
            &&& asked(styles[k], reset) matches Some(w) ==> wears(seen[k].look, w, color)
            &&& asked(styles[k], reset) is None && reset is Full && visible(s)[k] != 0x20
                && visible(s)[k] != 0x09 ==> seen[k].look == screen(s, native)[k].look
        }),
{
    let inks = Inks { live: true, color, reset };
    let done = pen(native, active).after_tokens(inks, tokens_of(s), styles);
    lemma_follows(term, native, active, inks);
    lemma_pen_screen(s, styles, inks, native, active, term, false);
    assert(shown_right(
        screen(done.out, term)[k],
        screen(s, native)[k],
        styles[k],
        inks,
        false,
    ));
}

/// Output that is highlighted as a whole shows every visible byte, blanks too, in
/// its style over the program's own rendition, and leaves the terminal as the
/// program's own output does.
pub proof fn highlighted_output_is_shown_in_its_styles(
    s: Seq<u8>,
    styles: Seq<Option<Style>>,
    color: ColorMode,
    reset: ResetMode,
    native: SgrState,
)
    requires
        sound(s),
        unit_styles(s, styles),
        writable(native),
        tidy(native),
    ensures
        ({
            let out = highlighted(tokens_of(s), styles, color, reset, native);
            &&& sound(out)
            &&& shown_in_style(out, native, s, native, styles, color, reset)
            &&& forall|k: int|
                0 <= k < visible(s).len() ==> shows(
                    (#[trigger] screen(out, native)[k]).look,
                    screen(s, native)[k].look,
                    asked(styles[k], reset),
                    color,
                )
            &&& left_in(out, native) == left_in(s, native)
        }),
{
    let inks = Inks { live: false, color, reset };
    let done = pen(native, None).after_tokens(inks, tokens_of(s), styles);
    lemma_follows(native, native, None, inks);
    let last = lemma_pen_screen(s, styles, inks, native, None, native, true);
    match done.active {
        Some(a) => {
            lemma_ended_screen(done.out, native, done.native, last, a, reset);
            let out = done.out + ended(done.active, done.native, reset);
            let term = left_in(out, native);
            if reset is Minimal {
                assert(within(minus(last, a), nothing()));
                lemma_wider(term, done.native, minus(last, a), nothing());
                lemma_own_itself(term, done.native);
            }
        },
        None => {
            assert(done.out + ended(done.active, done.native, reset) =~= done.out);
            lemma_right(left_in(done.out, native), done.native, None, last, inks, true);
        },
    }
    let out = highlighted(tokens_of(s), styles, color, reset, native);
    assert forall|k: int| 0 <= k < visible(s).len() implies shows(
        (#[trigger] screen(out, native)[k]).look,
        screen(s, native)[k].look,
        asked(styles[k], reset),
        color,
    ) && screen(out, native)[k].byte == visible(s)[k] by {
        assert(shown_right(
            screen(done.out, native)[k],
            screen(s, native)[k],
            styles[k],
            inks,
            true,
        ));
    }
}

/// What a highlighter gives of whole units is shown in the styles that its rules
/// come to, over the program's own rendition, and leaves the terminal as the
/// program's own output does.
pub proof fn highlighters_show_text_in_its_styles(h: HighlighterView, s: Seq<u8>, out: Seq<u8>)
    requires
        sound(s),
        highlighting(h, s, Ok(out)),
    ensures
        exists|styles: Seq<Option<Style>>| #[trigger]
            styles_possible(h.rules, visible(s), Ok(styles)) && shown_in_style(
                out,
                SgrState::initial(),
                s,
                SgrState::initial(),
                styles,
                h.color,
                ResetMode::Full,
            ),
        left_in(out, SgrState::initial()) == left_in(s, SgrState::initial()),
{
    let start = SgrState::initial();
    let result = choose|styles: Result<Seq<Option<Style>>, MatchIssue>| #[trigger]
        styles_possible(h.rules, visible(s), styles) && Ok::<Seq<u8>, MatchIssue>(out)
            == highlighted_with(h, s, styles);
    let styles = result->Ok_0;
    styles_keep_characters_whole(h.rules, visible(s), result);
    renditions_stay_writable(start, s);
    highlighted_output_is_shown_in_its_styles(s, styles, h.color, ResetMode::Full, start);
    assert(styles_possible(h.rules, visible(s), Ok::<Seq<Option<Style>>, MatchIssue>(styles)));
}

/// What a live stream gives of whole units is shown in the styles that its rules
/// come to, over the program's own rendition, and the terminal is left as the
/// stream takes it to be.
pub proof fn live_streams_show_text_in_its_styles(
    st: Stream,
    s: Seq<u8>,
    out: Seq<u8>,
    end: Stream,
    term: SgrState,
)
    requires
        st.live,
        sound(s),
        s.len() > 0,
        flushes(st, s, out, end),
        follows(term, st.native, st.overlay, st.highlighter.color, st.reset_mode()),
    ensures
        exists|matched: Progress| #[trigger]
            st.can_match(s, matched) && ({
                let styles = matched.paint.result();
                &&& unit_styles(s, styles)
                &&& nothing_left_on(visible(s), styles, st.reset_mode(), st.overlay, 0) ==> {
                    &&& shown_in_style(
                        out,
                        term,
                        s,
                        st.native,
                        styles,
                        st.highlighter.color,
                        st.reset_mode(),
                    )
                    &&& follows(
                        left_in(out, term),
                        end.native,
                        end.overlay,
                        st.highlighter.color,
                        st.reset_mode(),
                    )
                }
                &&& end.native == left_in(s, st.native)
            }),
{
    let matched = choose|matched: Progress| #[trigger]
        st.can_match(s, matched) && (out, end) == st.written(s, matched);
    let styles = matched.paint.result();
    let color = st.highlighter.color;
    let reset = st.reset_mode();
    live_styles_keep_characters_whole(
        st.highlighter.rules,
        visible(s),
        progress(visible(s).len(), st.timing, st.disabled),
        matched,
    );
    if nothing_left_on(visible(s), styles, reset, st.overlay, 0) {
        live_output_is_shown_in_its_styles(s, styles, color, reset, st.native, st.overlay, term);
    }
    let inks = Inks { live: true, color, reset };
    lemma_follows(term, st.native, st.overlay, inks);
    lemma_pen_screen(s, styles, inks, st.native, st.overlay, term, false);
}

/// A live stream that shows a prompt takes its style back, so that what is
/// typed there is shown in the program's own rendition; and it ends with no
/// style on.
pub proof fn prompts_have_no_style_on(st: Stream, term: SgrState, out: Seq<u8>, end: Stream)
    requires
        st.live,
        prompt_tail(st.tail),
        writable(st.native),
        tidy(st.native),
        ordered(st.native.attributes),
        ordered(term.attributes),
        can_be_on(st.overlay, st.reset_mode()),
        match st.overlay {
            Some(style) => own_besides(term, st.native, style),
            None => term == st.native,
        },
        finishes(st, out, end),
    ensures
        at_prompt(st).1.overlay is None,
        at_prompt(st).1.native == st.native,
        screen(at_prompt(st).0, term).len() == 0,
        left_in(at_prompt(st).0, term) == st.native,
        end.overlay is None,
{
    let none = Seq::<u8>::empty();
    assert(left_in(none, term) == term);
    assert(screen(none, term) =~= Seq::<Cell>::empty());
    match st.overlay {
        Some(style) => {
            lemma_ended_screen(none, term, st.native, style, style, st.reset_mode());
            assert(none + st.overlay_end() =~= st.overlay_end());
            assert(minus(style, style) == nothing());
            if st.reset_mode() is Minimal {
                lemma_own_itself(left_in(st.overlay_end(), term), st.native);
            }
        },
        None => {},
    }
}

} // verus!
